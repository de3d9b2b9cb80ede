//! The minefield: a rectangular grid of blocks with coordinate-checked
//! access, mine placement, adjacency counts and the cascading sweep.

use vstd::math::abs;
use vstd::prelude::*;

use rand::Rng;

use crate::block::{spec_symbol, Block, BlockSymbol, Coordinate};

verus! {

broadcast use
    vstd::seq_lib::lemma_seq_take_len,
    vstd::seq_lib::lemma_seq_take_index,
    vstd::prelude::Seq::lemma_push_to_set_commute,
    vstd::prelude::Seq::lemma_take_succ_push,
;

/// The failures of field-level operations; each carries the offending
/// coordinate.
#[derive(Debug, Clone, Copy, PartialEq, Eq)]
pub enum MinefieldError {
    /// The coordinate lies outside the field.
    OutOfBound(Coordinate),
    /// A sweep was requested on a block that is already swept.
    AlreadySwept(Coordinate),
    /// A flag toggle was requested on a block that is already swept.
    InvalidFlagState(Coordinate),
}

/// The complete grid of blocks: `length` rows of `width` columns, stored
/// row-major, the column being the fast-varying index.
#[derive(Debug)]
pub struct Minefield {
    length: usize,
    width: usize,
    blocks: Vec<Block>,
}

/// The block a fresh field holds at a coordinate: unmined, unflagged,
/// unswept, count 0.
pub open spec fn fresh_block(c: Coordinate) -> Block {
    Block { coordinate: c, nof_adjacent_mine: 0, mined: false, flagged: false, swept: false }
}

/// The block a row-major sequence of `w`-wide rows holds at a coordinate.
pub open spec fn grid_entry(s: Seq<Block>, w: nat, c: Coordinate) -> Block {
    s[c.1 * w + c.0]
}

/// Whether two distinct coordinates touch, orthogonally or diagonally.
pub open spec fn is_adjacent(a: Coordinate, b: Coordinate) -> bool {
    &&& a != b
    &&& -1 <= a.0 - b.0 <= 1
    &&& -1 <= a.1 - b.1 <= 1
}

/// Relies on rand::thread_rng and rand::Rng::gen_range: one independent,
/// uniform draw from the half-open range 0..100.
#[verifier::external_body]
fn random_percent() -> (r: usize)
    ensures
        r < 100,
{
    rand::thread_rng().gen_range(0..100usize)
}

proof fn lemma_index_in_range(w: int, l: int, x: int, y: int)
    by (nonlinear_arith)
    requires
        0 <= x < w,
        0 <= y < l,
    ensures
        0 <= y * w + x < l * w,
{
}

proof fn lemma_index_injective(w: int, x1: int, y1: int, x2: int, y2: int)
    by (nonlinear_arith)
    requires
        0 <= x1 < w,
        0 <= x2 < w,
        0 <= y1,
        0 <= y2,
        y1 * w + x1 == y2 * w + x2,
    ensures
        x1 == x2,
        y1 == y2,
{
}

/// Every coordinate of an `l`-row, `w`-column field.
pub open spec fn rect_coords(l: nat, w: nat) -> Set<Coordinate> {
    Set::new(|c: Coordinate| c.0 < w && c.1 < l)
}

/// One row of coordinates: row `y`, columns 0 up to `w`.
spec fn row_coords(y: nat, w: nat) -> Set<Coordinate> {
    Set::new(|c: Coordinate| c.0 < w && c.1 == y)
}

proof fn lemma_row_coords_card(y: nat, w: nat)
    requires
        y <= usize::MAX,
        w <= usize::MAX,
    ensures
        row_coords(y, w).finite(),
        row_coords(y, w).len() == w,
    decreases w,
{
    if w == 0 {
        assert(row_coords(y, 0) =~= Set::empty());
    } else {
        lemma_row_coords_card(y, (w - 1) as nat);
        let e: Coordinate = (((w - 1) as usize), (y as usize));
        assert(row_coords(y, w) =~= row_coords(y, (w - 1) as nat).insert(e));
        assert(!row_coords(y, (w - 1) as nat).contains(e));
    }
}

/// A field of `l` rows by `w` columns holds exactly `l * w` coordinates.
pub proof fn lemma_rect_coords_card(l: nat, w: nat)
    requires
        l <= usize::MAX,
        w <= usize::MAX,
    ensures
        rect_coords(l, w).finite(),
        rect_coords(l, w).len() == l * w,
    decreases l,
{
    if l == 0 {
        assert(rect_coords(0, w) =~= Set::empty());
    } else {
        lemma_rect_coords_card((l - 1) as nat, w);
        lemma_row_coords_card((l - 1) as nat, w);
        assert(rect_coords(l, w) =~= rect_coords((l - 1) as nat, w) + row_coords(
            (l - 1) as nat,
            w,
        ));
        assert(rect_coords((l - 1) as nat, w).disjoint(row_coords((l - 1) as nat, w)));
        vstd::set_lib::lemma_set_disjoint_lens(
            rect_coords((l - 1) as nat, w),
            row_coords((l - 1) as nat, w),
        );
        assert((l - 1) * w + w == l * w) by (nonlinear_arith);
    }
}

/// A sequence without duplicates stays without duplicates when a value it
/// does not contain is pushed.
proof fn lemma_push_keeps_no_duplicates<A>(s: Seq<A>, e: A)
    requires
        s.no_duplicates(),
        !s.contains(e),
    ensures
        s.push(e).no_duplicates(),
{
    let q = s.push(e);
    assert forall|i: int, j: int| 0 <= i < q.len() && 0 <= j < q.len() && i != j implies q[i]
        != q[j] by {
        if i < s.len() && j < s.len() {
            assert(s[i] == q[i] && s[j] == q[j]);
        } else if j == s.len() {
            assert(s[i] == q[i] && q[j] == e);
        } else {
            assert(s[j] == q[j] && q[i] == e);
        }
    }
}

impl Minefield {
    /// The number of rows.
    pub closed spec fn spec_length(&self) -> nat {
        self.length as nat
    }

    /// The number of columns.
    pub closed spec fn spec_width(&self) -> nat {
        self.width as nat
    }

    /// The blocks, row-major.
    pub closed spec fn blocks_seq(&self) -> Seq<Block> {
        self.blocks@
    }

    /// Whether a coordinate addresses a block of this field.
    pub open spec fn in_bounds(&self, coord: Coordinate) -> bool {
        coord.0 < self.spec_width() && coord.1 < self.spec_length()
    }

    /// The row-major position of a coordinate.
    pub open spec fn spec_index_of(&self, coord: Coordinate) -> int {
        coord.1 * self.spec_width() + coord.0
    }

    /// The block addressed by a coordinate.
    pub open spec fn block_at(&self, coord: Coordinate) -> Block {
        self.blocks_seq()[self.spec_index_of(coord)]
    }

    /// The grid holds exactly `length * width` blocks, a field without rows
    /// has no columns either, and every block carries the coordinate of the
    /// position it sits at.
    pub open spec fn wf(&self) -> bool {
        &&& self.blocks_seq().len() == self.spec_length() * self.spec_width()
        &&& (self.spec_length() == 0 ==> self.spec_width() == 0)
        &&& forall|c: Coordinate|
            self.in_bounds(c) ==> (#[trigger] self.block_at(c)).coordinate == c
    }

    /// 1 when position (x, y) holds a mined block, else 0.
    pub open spec fn mine_at(&self, x: int, y: int) -> int {
        if 0 <= x < self.spec_width() && 0 <= y < self.spec_length() && self.block_at(
            ((x as usize), (y as usize)),
        ).mined {
            1
        } else {
            0
        }
    }

    /// The number of mined neighbors of a coordinate, recomputed from the
    /// mine flags of the up-to-8 surrounding blocks.
    pub open spec fn spec_adjacent_mine_count(&self, c: Coordinate) -> int {
        self.mine_at(c.0 - 1, c.1 - 1) + self.mine_at(c.0 as int, c.1 - 1) + self.mine_at(
            c.0 + 1,
            c.1 - 1,
        ) + self.mine_at(c.0 - 1, c.1 as int) + self.mine_at(c.0 + 1, c.1 as int) + self.mine_at(
            c.0 - 1,
            c.1 + 1,
        ) + self.mine_at(c.0 as int, c.1 + 1) + self.mine_at(c.0 + 1, c.1 + 1)
    }

    /// The cached adjacent-mine count of every block agrees with the count
    /// recomputed from its neighbors' mine flags.
    pub open spec fn counts_consistent(&self) -> bool {
        forall|c: Coordinate|
            self.in_bounds(c) ==> self.block_at(c).nof_adjacent_mine == #[trigger] self.spec_adjacent_mine_count(c)
    }

    /// A freshly built field: no block mined, flagged or swept, every cached
    /// count 0.
    pub open spec fn is_fresh(&self) -> bool {
        forall|c: Coordinate| self.in_bounds(c) ==> #[trigger] self.block_at(c) == fresh_block(c)
    }

    /// Distinct in-bounds coordinates occupy distinct row-major positions.
    pub proof fn lemma_distinct_coords(&self, c1: Coordinate, c2: Coordinate)
        requires
            self.in_bounds(c1),
            self.in_bounds(c2),
            c1 != c2,
        ensures
            self.spec_index_of(c1) != self.spec_index_of(c2),
    {
        if self.spec_index_of(c1) == self.spec_index_of(c2) {
            lemma_index_injective(
                self.spec_width() as int,
                c1.0 as int,
                c1.1 as int,
                c2.0 as int,
                c2.1 as int,
            );
        }
    }

    /// The row-major position of an in-bounds coordinate lies inside the
    /// block sequence.
    pub proof fn lemma_index_bounds(&self, c: Coordinate)
        requires
            self.wf(),
            self.in_bounds(c),
        ensures
            0 <= self.spec_index_of(c) < self.blocks_seq().len(),
            self.blocks_seq().len() <= usize::MAX,
    {
        assert(self.blocks.len() == self.blocks@.len());
        lemma_index_in_range(
            self.spec_width() as int,
            self.spec_length() as int,
            c.0 as int,
            c.1 as int,
        );
    }

    /// A fresh field recomputes a zero adjacent-mine count everywhere.
    pub proof fn lemma_fresh_counts_consistent(&self)
        requires
            self.wf(),
            self.is_fresh(),
        ensures
            self.counts_consistent(),
    {
        assert forall|c: Coordinate|
            self.in_bounds(c) implies (#[trigger] self.block_at(c)).nof_adjacent_mine
            == self.spec_adjacent_mine_count(c) by {
            assert(self.spec_adjacent_mine_count(c) == 0);
        }
    }

    /// A field of `length` rows by `width` columns, all blocks fresh. A zero
    /// in either dimension yields a valid, empty field.
    pub fn new(length: usize, width: usize) -> (r: Minefield)
        requires
            length * width <= usize::MAX,
        ensures
            r.wf(),
            r.spec_length() == length,
            r.spec_width() == if length == 0 {
                0nat
            } else {
                width as nat
            },
            r.is_fresh(),
            r.counts_consistent(),
    {
        let w: usize = if length == 0 {
            0
        } else {
            width
        };
        let mut blocks: Vec<Block> = Vec::new();
        let mut y: usize = 0;
        while y < length
            invariant
                y <= length,
                length * w <= usize::MAX,
                blocks@.len() == y * w,
                forall|c: Coordinate|
                    c.0 < w && c.1 < y ==> #[trigger] grid_entry(blocks@, w as nat, c)
                        == fresh_block(c),
            decreases length - y,
        {
            let mut x: usize = 0;
            while x < w
                invariant
                    y < length,
                    x <= w,
                    length * w <= usize::MAX,
                    blocks@.len() == y * w + x,
                    forall|c: Coordinate|
                        c.0 < w && (c.1 < y || (c.1 == y && c.0 < x)) ==> #[trigger] grid_entry(
                            blocks@,
                            w as nat,
                            c,
                        ) == fresh_block(c),
                decreases w - x,
            {
                let ghost prev = blocks@;
                proof {
                    lemma_index_in_range(w as int, length as int, x as int, y as int);
                }
                blocks.push(Block::new((x, y)));
                proof {
                    assert forall|c: Coordinate|
                        c.0 < w && (c.1 < y || (c.1 == y && c.0 < x + 1)) implies #[trigger]
                    grid_entry(blocks@, w as nat, c) == fresh_block(c) by {
                        if c.1 == y && c.0 == x {
                            assert(c.1 * w + c.0 == prev.len());
                        } else {
                            lemma_index_in_range(w as int, y as int + 1, c.0 as int, c.1 as int);
                            if c.1 < y {
                                lemma_index_in_range(w as int, y as int, c.0 as int, c.1 as int);
                            }
                            assert(grid_entry(prev, w as nat, c) == fresh_block(c));
                            assert(0 <= c.1 * w + c.0 < prev.len());
                            assert(blocks@[c.1 * w + c.0] == prev[c.1 * w + c.0]);
                        }
                    }
                }
                x = x + 1;
            }
            proof {
                assert((y + 1) * w == y * w + w) by (nonlinear_arith);
                assert forall|c: Coordinate|
                    c.0 < w && c.1 < y + 1 implies #[trigger] grid_entry(blocks@, w as nat, c)
                    == fresh_block(c) by {
                    assert(c.1 < y || (c.1 == y && c.0 < w));
                }
            }
            y = y + 1;
        }
        let r = Minefield { length, width: w, blocks };
        proof {
            assert forall|c: Coordinate| r.in_bounds(c) implies (#[trigger] r.block_at(c))
                == fresh_block(c) by {
                lemma_index_in_range(w as int, length as int, c.0 as int, c.1 as int);
                assert(grid_entry(blocks@, w as nat, c) == fresh_block(c));
            }
            r.lemma_fresh_counts_consistent();
        }
        r
    }

    /// The number of rows.
    pub fn get_length(&self) -> (r: usize)
        ensures
            r == self.spec_length(),
    {
        self.length
    }

    /// The number of columns; 0 when the field has no rows.
    pub fn get_width(&self) -> (r: usize)
        ensures
            r == self.spec_width(),
    {
        self.width
    }

    /// A borrow of the block at an in-bounds coordinate.
    fn block_ref(&self, coord: Coordinate) -> (b: &Block)
        requires
            self.wf(),
            self.in_bounds(coord),
        ensures
            *b == self.block_at(coord),
    {
        proof {
            self.lemma_index_bounds(coord);
        }
        let idx: usize = coord.1 * self.width + coord.0;
        &self.blocks[idx]
    }

    /// Replaces the block at an in-bounds coordinate, leaving every other
    /// block as it was.
    fn put_block(&mut self, coord: Coordinate, b: Block)
        requires
            old(self).wf(),
            old(self).in_bounds(coord),
            b.coordinate == coord,
        ensures
            final(self).wf(),
            final(self).spec_length() == old(self).spec_length(),
            final(self).spec_width() == old(self).spec_width(),
            final(self).block_at(coord) == b,
            forall|c: Coordinate|
                final(self).in_bounds(c) && c != coord ==> final(self).block_at(c) == old(self).block_at(c),
    {
        proof {
            self.lemma_index_bounds(coord);
        }
        let idx: usize = coord.1 * self.width + coord.0;
        self.blocks.set(idx, b);
        proof {
            assert forall|c: Coordinate| self.in_bounds(c) && c != coord implies self.block_at(c)
                == old(self).block_at(c) by {
                old(self).lemma_distinct_coords(c, coord);
                old(self).lemma_index_bounds(c);
            }
            assert forall|c: Coordinate| self.in_bounds(c) implies (
            #[trigger] self.block_at(c)).coordinate == c by {
                if c != coord {
                    old(self).lemma_distinct_coords(c, coord);
                    old(self).lemma_index_bounds(c);
                }
            }
        }
    }

    /// A shared borrow of the block a coordinate addresses, or `OutOfBound`
    /// when the coordinate lies outside the field.
    pub fn get_block_at_coord(&self, coord: Coordinate) -> (r: Result<&Block, MinefieldError>)
        requires
            self.wf(),
        ensures
            match r {
                Ok(b) => self.in_bounds(coord) && *b == self.block_at(coord),
                Err(e) => !self.in_bounds(coord) && e == MinefieldError::OutOfBound(coord),
            },
    {
        if coord.0 < self.width && coord.1 < self.length {
            Ok(self.block_ref(coord))
        } else {
            Err(MinefieldError::OutOfBound(coord))
        }
    }

    /// A mutable borrow of the block a coordinate addresses, or `OutOfBound`
    /// when the coordinate lies outside the field.
    pub fn get_mut_block_at_coord(&mut self, coord: Coordinate) -> (r: Result<
        &mut Block,
        MinefieldError,
    >)
        requires
            old(self).wf(),
        ensures
            match r {
                Ok(b) => {
                    &&& old(self).in_bounds(coord)
                    &&& *b == old(self).block_at(coord)
                    &&& final(self).blocks_seq() == old(self).blocks_seq().update(
                        old(self).spec_index_of(coord),
                        *final(b),
                    )
                    &&& final(self).spec_length() == old(self).spec_length()
                    &&& final(self).spec_width() == old(self).spec_width()
                },
                Err(e) => {
                    &&& !old(self).in_bounds(coord)
                    &&& e == MinefieldError::OutOfBound(coord)
                    &&& *final(self) == *old(self)
                },
            },
    {
        if coord.0 < self.width && coord.1 < self.length {
            proof {
                self.lemma_index_bounds(coord);
            }
            let idx: usize = coord.1 * self.width + coord.0;
            Ok(&mut self.blocks[idx])
        } else {
            Err(MinefieldError::OutOfBound(coord))
        }
    }

    /// The up-to-one-element sequence holding the neighbor of `c` at offset
    /// (dx, dy), when that position lies inside the field.
    pub open spec fn neighbor_cand(&self, c: Coordinate, dx: int, dy: int) -> Seq<Coordinate> {
        if 0 <= c.0 + dx < self.spec_width() && 0 <= c.1 + dy < self.spec_length() {
            seq![(((c.0 + dx) as usize), ((c.1 + dy) as usize))]
        } else {
            Seq::empty()
        }
    }

    /// The in-bounds neighbors of a coordinate, in the order the field
    /// enumerates them: column offset -1, 0, +1 outer, row offset inner.
    pub open spec fn neighbor_coords(&self, c: Coordinate) -> Seq<Coordinate> {
        self.neighbor_cand(c, -1, -1) + self.neighbor_cand(c, -1, 0) + self.neighbor_cand(c, -1, 1)
            + self.neighbor_cand(c, 0, -1) + self.neighbor_cand(c, 0, 1) + self.neighbor_cand(
            c,
            1,
            -1,
        ) + self.neighbor_cand(c, 1, 0) + self.neighbor_cand(c, 1, 1)
    }

    /// The blocks at the in-bounds neighbors of a coordinate, in enumeration
    /// order.
    pub open spec fn neighbor_blocks(&self, c: Coordinate) -> Seq<Block> {
        self.neighbor_coords(c).map_values(|n: Coordinate| self.block_at(n))
    }

    /// A coordinate stands among the enumerated neighbors of `c` exactly when
    /// it lies inside the field and touches `c`.
    pub proof fn lemma_neighbor_coords_characterization(&self, c: Coordinate)
        ensures
            forall|n: Coordinate|
                #[trigger] self.neighbor_coords(c).contains(n) <==> self.in_bounds(n)
                    && is_adjacent(c, n),
    {
        broadcast use vstd::seq_lib::lemma_seq_concat_contains_all_elements;

        assert forall|n: Coordinate|
            self.in_bounds(n) && is_adjacent(c, n) implies #[trigger] self.neighbor_coords(
            c,
        ).contains(n) by {
            let dx = n.0 - c.0;
            let dy = n.1 - c.1;
            assert(self.neighbor_cand(c, dx, dy) == seq![n]);
            assert(self.neighbor_cand(c, dx, dy)[0] == n);
            assert(self.neighbor_cand(c, dx, dy).contains(n));
        }
    }

    /// The coordinates of the in-bounds neighbors of an in-bounds coordinate,
    /// in enumeration order.
    fn adjacent_coords(&self, coord: Coordinate) -> (r: Vec<Coordinate>)
        requires
            self.wf(),
            self.in_bounds(coord),
        ensures
            r@ == self.neighbor_coords(coord),
    {
        let x: usize = coord.0;
        let y: usize = coord.1;
        let mut r: Vec<Coordinate> = Vec::new();
        if x > 0 {
            if y > 0 {
                r.push((x - 1, y - 1));
            }
            r.push((x - 1, y));
            if y + 1 < self.length {
                r.push((x - 1, y + 1));
            }
        }
        if y > 0 {
            r.push((x, y - 1));
        }
        if y + 1 < self.length {
            r.push((x, y + 1));
        }
        if x + 1 < self.width {
            if y > 0 {
                r.push((x + 1, y - 1));
            }
            r.push((x + 1, y));
            if y + 1 < self.length {
                r.push((x + 1, y + 1));
            }
        }
        proof {
            assert(r@ =~= self.neighbor_coords(coord));
        }
        r
    }

    /// The blocks adjacent to a coordinate, in enumeration order, or
    /// `OutOfBound` when the coordinate itself lies outside the field.
    pub fn get_adjacent_blocks_at_coord(&self, coord: Coordinate) -> (r: Result<
        Vec<Block>,
        MinefieldError,
    >)
        requires
            self.wf(),
        ensures
            match r {
                Ok(v) => self.in_bounds(coord) && v@ == self.neighbor_blocks(coord),
                Err(e) => !self.in_bounds(coord) && e == MinefieldError::OutOfBound(coord),
            },
    {
        if !(coord.0 < self.width && coord.1 < self.length) {
            return Err(MinefieldError::OutOfBound(coord));
        }
        let cands = self.adjacent_coords(coord);
        let mut v: Vec<Block> = Vec::new();
        let mut j: usize = 0;
        while j < cands.len()
            invariant
                self.wf(),
                self.in_bounds(coord),
                cands@ == self.neighbor_coords(coord),
                j <= cands@.len(),
                v@.len() == j,
                forall|k: int| 0 <= k < j ==> #[trigger] v@[k] == self.block_at(cands@[k]),
            decreases cands@.len() - j,
        {
            proof {
                self.lemma_neighbor_coords_characterization(coord);
                assert(cands@.contains(cands@[j as int]));
            }
            let n = cands[j];
            let b = *self.block_ref(n);
            v.push(b);
            j += 1;
        }
        proof {
            assert(v@ =~= self.neighbor_blocks(coord));
        }
        Ok(v)
    }

    /// The number of mined blocks among the in-bounds positions of a
    /// coordinate sequence.
    pub open spec fn count_mined_coords(&self, s: Seq<Coordinate>) -> int
        decreases s.len(),
    {
        if s.len() == 0 {
            0
        } else {
            self.count_mined_coords(s.drop_last()) + if self.in_bounds(s.last())
                && self.block_at(s.last()).mined {
                1int
            } else {
                0int
            }
        }
    }

    proof fn lemma_count_mined_coords_add(&self, a: Seq<Coordinate>, b: Seq<Coordinate>)
        ensures
            self.count_mined_coords(a + b) == self.count_mined_coords(a)
                + self.count_mined_coords(b),
        decreases b.len(),
    {
        if b.len() == 0 {
            assert(a + b =~= a);
        } else {
            assert((a + b).drop_last() =~= a + b.drop_last());
            assert((a + b).last() == b.last());
            self.lemma_count_mined_coords_add(a, b.drop_last());
        }
    }

    proof fn lemma_count_mined_cand(&self, c: Coordinate, dx: int, dy: int)
        ensures
            self.count_mined_coords(self.neighbor_cand(c, dx, dy)) == self.mine_at(
                c.0 + dx,
                c.1 + dy,
            ),
    {
        let s = self.neighbor_cand(c, dx, dy);
        if 0 <= c.0 + dx < self.spec_width() && 0 <= c.1 + dy < self.spec_length() {
            let n = (((c.0 + dx) as usize), ((c.1 + dy) as usize));
            assert(s.drop_last() =~= Seq::<Coordinate>::empty());
            assert(s.last() == n);
            assert(self.in_bounds(n));
            assert(self.count_mined_coords(s.drop_last()) == 0);
            assert(self.count_mined_coords(s) == if self.block_at(n).mined {
                1int
            } else {
                0int
            });
        } else {
            assert(s.len() == 0);
        }
    }

    /// Counting the mined blocks along the enumerated neighbors recomputes
    /// the adjacent-mine count.
    pub proof fn lemma_neighbor_count(&self, c: Coordinate)
        ensures
            self.count_mined_coords(self.neighbor_coords(c)) == self.spec_adjacent_mine_count(c),
    {
        let c1 = self.neighbor_cand(c, -1, -1);
        let c2 = self.neighbor_cand(c, -1, 0);
        let c3 = self.neighbor_cand(c, -1, 1);
        let c4 = self.neighbor_cand(c, 0, -1);
        let c5 = self.neighbor_cand(c, 0, 1);
        let c6 = self.neighbor_cand(c, 1, -1);
        let c7 = self.neighbor_cand(c, 1, 0);
        let c8 = self.neighbor_cand(c, 1, 1);
        self.lemma_count_mined_coords_add(c1, c2);
        self.lemma_count_mined_coords_add(c1 + c2, c3);
        self.lemma_count_mined_coords_add(c1 + c2 + c3, c4);
        self.lemma_count_mined_coords_add(c1 + c2 + c3 + c4, c5);
        self.lemma_count_mined_coords_add(c1 + c2 + c3 + c4 + c5, c6);
        self.lemma_count_mined_coords_add(c1 + c2 + c3 + c4 + c5 + c6, c7);
        self.lemma_count_mined_coords_add(c1 + c2 + c3 + c4 + c5 + c6 + c7, c8);
        self.lemma_count_mined_cand(c, -1, -1);
        self.lemma_count_mined_cand(c, -1, 0);
        self.lemma_count_mined_cand(c, -1, 1);
        self.lemma_count_mined_cand(c, 0, -1);
        self.lemma_count_mined_cand(c, 0, 1);
        self.lemma_count_mined_cand(c, 1, -1);
        self.lemma_count_mined_cand(c, 1, 0);
        self.lemma_count_mined_cand(c, 1, 1);
    }

    /// The adjacent-mine count of a coordinate, recomputed from the mine
    /// flags of its neighbors, or `OutOfBound` when the coordinate lies
    /// outside the field.
    pub fn get_nof_adjacent_mine_at_coord(&self, coord: Coordinate) -> (r: Result<
        usize,
        MinefieldError,
    >)
        requires
            self.wf(),
        ensures
            match r {
                Ok(n) => self.in_bounds(coord) && n == self.spec_adjacent_mine_count(coord),
                Err(e) => !self.in_bounds(coord) && e == MinefieldError::OutOfBound(coord),
            },
    {
        let adjacent_blocks = match self.get_adjacent_blocks_at_coord(coord) {
            Ok(v) => v,
            Err(e) => {
                return Err(e);
            },
        };
        let ghost nc = self.neighbor_coords(coord);
        let mut number_of_adjacent_mine: usize = 0;
        let mut j: usize = 0;
        while j < adjacent_blocks.len()
            invariant
                self.wf(),
                self.in_bounds(coord),
                adjacent_blocks@ == self.neighbor_blocks(coord),
                nc == self.neighbor_coords(coord),
                j <= adjacent_blocks@.len(),
                number_of_adjacent_mine == self.count_mined_coords(nc.take(j as int)),
                number_of_adjacent_mine <= j,
            decreases adjacent_blocks@.len() - j,
        {
            let ghost jj = j as int;
            let mined_here = adjacent_blocks[j].is_mined();
            proof {
                self.lemma_neighbor_coords_characterization(coord);
                assert(nc.contains(nc[jj]));
                assert(nc.take(jj + 1) =~= nc.take(jj).push(nc[jj]));
                assert(nc.take(jj + 1).drop_last() =~= nc.take(jj));
                assert(nc.take(jj + 1).last() == nc[jj]);
                assert(adjacent_blocks@[jj] == self.block_at(nc[jj]));
            }
            if mined_here {
                number_of_adjacent_mine += 1;
            }
            j += 1;
        }
        proof {
            assert(nc.take(nc.len() as int) =~= nc);
            self.lemma_neighbor_count(coord);
        }
        Ok(number_of_adjacent_mine)
    }

    /// Marks every in-bounds neighbor of a coordinate as mined, leaving all
    /// other blocks and all cached counts as they were, or `OutOfBound` when
    /// the coordinate lies outside the field.
    pub fn test_tmp(&mut self, coord: Coordinate) -> (r: Result<(), MinefieldError>)
        requires
            old(self).wf(),
        ensures
            final(self).wf(),
            final(self).spec_length() == old(self).spec_length(),
            final(self).spec_width() == old(self).spec_width(),
            !old(self).in_bounds(coord) ==> r == Err::<(), MinefieldError>(
                MinefieldError::OutOfBound(coord),
            ) && *final(self) == *old(self),
            old(self).in_bounds(coord) ==> r == Ok::<(), MinefieldError>(()) && forall|
                c: Coordinate,
            |
                final(self).in_bounds(c) ==> #[trigger] final(self).block_at(c) == (Block {
                    mined: old(self).block_at(c).mined || is_adjacent(coord, c),
                    ..old(self).block_at(c)
                }),
    {
        if !(coord.0 < self.width && coord.1 < self.length) {
            return Err(MinefieldError::OutOfBound(coord));
        }
        let ghost m0 = *self;
        let cands = self.adjacent_coords(coord);
        let ghost nc = m0.neighbor_coords(coord);
        let mut j: usize = 0;
        while j < cands.len()
            invariant
                self.wf(),
                self.spec_length() == m0.spec_length(),
                self.spec_width() == m0.spec_width(),
                m0.wf(),
                m0.in_bounds(coord),
                cands@ == nc,
                nc == m0.neighbor_coords(coord),
                j <= nc.len(),
                forall|c: Coordinate|
                    self.in_bounds(c) ==> #[trigger] self.block_at(c) == (if nc.take(
                        j as int,
                    ).to_set().contains(c) {
                        Block { mined: true, ..m0.block_at(c) }
                    } else {
                        m0.block_at(c)
                    }),
            decreases nc.len() - j,
        {
            let ghost jj = j as int;
            proof {
                m0.lemma_neighbor_coords_characterization(coord);
                assert(nc.contains(nc[jj]));
            }
            let n = cands[j];
            let b = *self.block_ref(n);
            let mut nb = b;
            nb.set_mined(true);
            let ghost prev = *self;
            self.put_block(n, nb);
            proof {
                assert(nc.take(jj + 1) =~= nc.take(jj).push(nc[jj]));
                assert(nc.take(jj + 1).to_set() =~= nc.take(jj).to_set().insert(nc[jj]));
                assert forall|c: Coordinate| self.in_bounds(c) implies #[trigger] self.block_at(c)
                    == (if nc.take(jj + 1).to_set().contains(c) {
                    Block { mined: true, ..m0.block_at(c) }
                } else {
                    m0.block_at(c)
                }) by {
                    if c == n {
                        assert(self.block_at(c) == nb);
                    } else {
                        assert(self.block_at(c) == prev.block_at(c));
                    }
                }
            }
            j += 1;
        }
        proof {
            assert(nc.take(nc.len() as int) =~= nc);
            m0.lemma_neighbor_coords_characterization(coord);
            assert forall|c: Coordinate| self.in_bounds(c) implies #[trigger] self.block_at(c) == (
            Block { mined: m0.block_at(c).mined || is_adjacent(coord, c), ..m0.block_at(c) }) by {
                if nc.to_set().contains(c) {
                    assert(nc.contains(c));
                } else {
                    assert(!nc.contains(c));
                }
            }
        }
        Ok(())
    }

    /// Both sides of a single mine placement: a block is `placed` when it
    /// receives the mine itself, and `bumped` when its cached count rises by
    /// one because it neighbors the placed mine.
    pub open spec fn placed_block(b: Block, placed: bool, bumped: bool) -> Block {
        Block {
            mined: b.mined || placed,
            nof_adjacent_mine: if bumped {
                (b.nof_adjacent_mine + 1) as usize
            } else {
                b.nof_adjacent_mine
            },
            ..b
        }
    }

    /// A recomputed adjacent-mine count never exceeds 8.
    pub proof fn lemma_count_bound(&self, c: Coordinate)
        ensures
            0 <= self.spec_adjacent_mine_count(c) <= 8,
    {
    }

    /// Raises the cached adjacent-mine count of one block by one.
    fn incr_count_at_coord(&mut self, n: Coordinate)
        requires
            old(self).wf(),
            old(self).in_bounds(n),
            old(self).block_at(n).nof_adjacent_mine < usize::MAX,
        ensures
            final(self).wf(),
            final(self).spec_length() == old(self).spec_length(),
            final(self).spec_width() == old(self).spec_width(),
            forall|c: Coordinate|
                final(self).in_bounds(c) ==> #[trigger] final(self).block_at(c)
                    == Self::placed_block(old(self).block_at(c), false, c == n),
    {
        let b = *self.block_ref(n);
        let mut nb = b;
        nb.incr_nof_adjacent_mine();
        self.put_block(n, nb);
    }

    /// One mine-indicator term after a single placement: only the placed
    /// position itself changes, from 0 to 1.
    proof fn lemma_mine_at_after_place(m0: Minefield, m1: Minefield, coord: Coordinate, x: int, y: int)
        requires
            m0.in_bounds(coord),
            !m0.block_at(coord).mined,
            m1.spec_length() == m0.spec_length(),
            m1.spec_width() == m0.spec_width(),
            forall|c: Coordinate|
                m1.in_bounds(c) ==> #[trigger] m1.block_at(c) == Self::placed_block(
                    m0.block_at(c),
                    c == coord,
                    is_adjacent(coord, c),
                ),
        ensures
            m1.mine_at(x, y) == m0.mine_at(x, y) + if x == coord.0 && y == coord.1 {
                1int
            } else {
                0int
            },
    {
        if 0 <= x < m0.spec_width() && 0 <= y < m0.spec_length() {
            let p = (((x as usize)), ((y as usize)));
            assert(m1.block_at(p) == Self::placed_block(
                m0.block_at(p),
                p == coord,
                is_adjacent(coord, p),
            ));
        }
    }

    /// Placing a mine and bumping exactly the mine's neighbors keeps the
    /// cached counts in agreement with the recomputed ones.
    proof fn lemma_place_mine_consistent(m0: Minefield, m1: Minefield, coord: Coordinate)
        requires
            m0.wf(),
            m1.wf(),
            m0.counts_consistent(),
            m0.in_bounds(coord),
            !m0.block_at(coord).mined,
            m1.spec_length() == m0.spec_length(),
            m1.spec_width() == m0.spec_width(),
            forall|c: Coordinate|
                m1.in_bounds(c) ==> #[trigger] m1.block_at(c) == Self::placed_block(
                    m0.block_at(c),
                    c == coord,
                    is_adjacent(coord, c),
                ),
        ensures
            m1.counts_consistent(),
    {
        assert forall|c: Coordinate|
            m1.in_bounds(c) implies (#[trigger] m1.block_at(c)).nof_adjacent_mine
            == m1.spec_adjacent_mine_count(c) by {
            m0.lemma_count_bound(c);
            assert(m0.block_at(c).nof_adjacent_mine == m0.spec_adjacent_mine_count(c));
            Self::lemma_mine_at_after_place(m0, m1, coord, c.0 - 1, c.1 - 1);
            Self::lemma_mine_at_after_place(m0, m1, coord, c.0 as int, c.1 - 1);
            Self::lemma_mine_at_after_place(m0, m1, coord, c.0 + 1, c.1 - 1);
            Self::lemma_mine_at_after_place(m0, m1, coord, c.0 - 1, c.1 as int);
            Self::lemma_mine_at_after_place(m0, m1, coord, c.0 + 1, c.1 as int);
            Self::lemma_mine_at_after_place(m0, m1, coord, c.0 - 1, c.1 + 1);
            Self::lemma_mine_at_after_place(m0, m1, coord, c.0 as int, c.1 + 1);
            Self::lemma_mine_at_after_place(m0, m1, coord, c.0 + 1, c.1 + 1);
            assert(m1.spec_adjacent_mine_count(c) == m0.spec_adjacent_mine_count(c) + (
            if is_adjacent(coord, c) {
                1int
            } else {
                0int
            }));
        }
    }

    /// Raises the cached count of the up-to-three blocks of column `cx` that
    /// neighbor `coord`; with `skip_center` the block in `coord`'s own row is
    /// left alone.
    fn bump_column(&mut self, cx: usize, coord: Coordinate, skip_center: bool)
        requires
            old(self).wf(),
            old(self).in_bounds(coord),
            cx < old(self).spec_width(),
            skip_center == (cx == coord.0),
            forall|c: Coordinate|
                old(self).in_bounds(c) ==> (#[trigger] old(self).block_at(c)).nof_adjacent_mine
                    < usize::MAX,
        ensures
            final(self).wf(),
            final(self).spec_length() == old(self).spec_length(),
            final(self).spec_width() == old(self).spec_width(),
            forall|c: Coordinate|
                final(self).in_bounds(c) ==> #[trigger] final(self).block_at(c)
                    == Self::placed_block(
                    old(self).block_at(c),
                    false,
                    c.0 == cx && -1 <= c.1 - coord.1 <= 1 && !(skip_center && c.1 == coord.1),
                ),
    {
        let ghost s0 = *self;
        let y: usize = coord.1;
        if y > 0 {
            self.incr_count_at_coord((cx, y - 1));
        }
        let ghost s1 = *self;
        proof {
            assert forall|c: Coordinate|
                s1.in_bounds(c) implies #[trigger] s1.block_at(c) == Self::placed_block(
                s0.block_at(c),
                false,
                c.0 == cx && c.1 == coord.1 - 1,
            ) by {}
        }
        if !skip_center {
            self.incr_count_at_coord((cx, y));
        }
        let ghost s2 = *self;
        proof {
            assert forall|c: Coordinate|
                s2.in_bounds(c) implies #[trigger] s2.block_at(c) == Self::placed_block(
                s0.block_at(c),
                false,
                c.0 == cx && (c.1 == coord.1 - 1 || (c.1 == coord.1 && !skip_center)),
            ) by {
                assert(s1.block_at(c) == Self::placed_block(
                    s0.block_at(c),
                    false,
                    c.0 == cx && c.1 == coord.1 - 1,
                ));
            }
        }
        if y + 1 < self.length {
            self.incr_count_at_coord((cx, y + 1));
        }
        proof {
            assert forall|c: Coordinate|
                self.in_bounds(c) implies #[trigger] self.block_at(c) == Self::placed_block(
                s0.block_at(c),
                false,
                c.0 == cx && -1 <= c.1 - coord.1 <= 1 && !(skip_center && c.1 == coord.1),
            ) by {
                assert(s2.block_at(c) == Self::placed_block(
                    s0.block_at(c),
                    false,
                    c.0 == cx && (c.1 == coord.1 - 1 || (c.1 == coord.1 && !skip_center)),
                ));
            }
        }
    }

    /// Marks the block at an in-bounds, still unmined coordinate as mined and
    /// raises the cached adjacent-mine count of every in-bounds neighbor by
    /// one, keeping the cached counts consistent.
    pub fn place_mine_at_coord(&mut self, coord: Coordinate)
        requires
            old(self).wf(),
            old(self).counts_consistent(),
            old(self).in_bounds(coord),
            !old(self).block_at(coord).mined,
        ensures
            final(self).wf(),
            final(self).counts_consistent(),
            final(self).spec_length() == old(self).spec_length(),
            final(self).spec_width() == old(self).spec_width(),
            forall|c: Coordinate|
                final(self).in_bounds(c) ==> #[trigger] final(self).block_at(c)
                    == Self::placed_block(old(self).block_at(c), c == coord, is_adjacent(coord, c)),
    {
        let ghost m0 = *self;
        proof {
            assert forall|c: Coordinate|
                m0.in_bounds(c) implies (#[trigger] m0.block_at(c)).nof_adjacent_mine <= 8 by {
                m0.lemma_count_bound(c);
            }
        }
        let x: usize = coord.0;
        let y: usize = coord.1;
        let b = *self.block_ref(coord);
        let mut nb = b;
        nb.set_mined(true);
        self.put_block(coord, nb);
        let ghost s1 = *self;
        proof {
            assert forall|c: Coordinate|
                s1.in_bounds(c) implies #[trigger] s1.block_at(c) == Self::placed_block(
                m0.block_at(c),
                c == coord,
                false,
            ) by {}
            assert forall|c: Coordinate|
                s1.in_bounds(c) implies (#[trigger] s1.block_at(c)).nof_adjacent_mine
                < usize::MAX by {}
        }
        if x > 0 {
            self.bump_column(x - 1, coord, false);
        }
        let ghost s2 = *self;
        proof {
            assert forall|c: Coordinate|
                s2.in_bounds(c) implies #[trigger] s2.block_at(c) == Self::placed_block(
                m0.block_at(c),
                c == coord,
                c.0 == coord.0 - 1 && -1 <= c.1 - coord.1 <= 1,
            ) by {
                assert(s1.block_at(c) == Self::placed_block(m0.block_at(c), c == coord, false));
            }
            assert forall|c: Coordinate|
                s2.in_bounds(c) implies (#[trigger] s2.block_at(c)).nof_adjacent_mine
                < usize::MAX by {}
        }
        self.bump_column(x, coord, true);
        let ghost s3 = *self;
        proof {
            assert forall|c: Coordinate|
                s3.in_bounds(c) implies #[trigger] s3.block_at(c) == Self::placed_block(
                m0.block_at(c),
                c == coord,
                (c.0 == coord.0 - 1 && -1 <= c.1 - coord.1 <= 1) || (c.0 == coord.0 && -1 <= c.1
                    - coord.1 <= 1 && c.1 != coord.1),
            ) by {
                assert(s2.block_at(c) == Self::placed_block(
                    m0.block_at(c),
                    c == coord,
                    c.0 == coord.0 - 1 && -1 <= c.1 - coord.1 <= 1,
                ));
            }
            assert forall|c: Coordinate|
                s3.in_bounds(c) implies (#[trigger] s3.block_at(c)).nof_adjacent_mine
                < usize::MAX by {}
        }
        if x + 1 < self.width {
            self.bump_column(x + 1, coord, false);
        }
        proof {
            assert forall|c: Coordinate|
                self.in_bounds(c) implies #[trigger] self.block_at(c) == Self::placed_block(
                m0.block_at(c),
                c == coord,
                is_adjacent(coord, c),
            ) by {
                assert(s3.block_at(c) == Self::placed_block(
                    m0.block_at(c),
                    c == coord,
                    (c.0 == coord.0 - 1 && -1 <= c.1 - coord.1 <= 1) || (c.0 == coord.0 && -1
                        <= c.1 - coord.1 <= 1 && c.1 != coord.1),
                ));
            }
            Self::lemma_place_mine_consistent(m0, *self, coord);
        }
    }

    /// A flood path: a walk that starts at `start`, steps between adjacent
    /// in-bounds coordinates, passes only through blocks whose recomputed
    /// adjacent-mine count is zero, and beyond its start visits only blocks
    /// that are neither swept nor flagged.
    pub open spec fn flood_path(&self, start: Coordinate, p: Seq<Coordinate>) -> bool {
        &&& p.len() >= 1
        &&& p[0] == start
        &&& forall|i: int| 0 <= i < p.len() ==> self.in_bounds(#[trigger] p[i])
        &&& forall|i: int| 0 <= i < p.len() - 1 ==> is_adjacent(#[trigger] p[i], p[i + 1])
        &&& forall|i: int|
            0 <= i < p.len() - 1 ==> self.spec_adjacent_mine_count(#[trigger] p[i]) == 0
        &&& forall|i: int|
            1 <= i < p.len() ==> !(#[trigger] self.block_at(p[i])).swept && !self.block_at(
                p[i],
            ).flagged
    }

    /// Whether the cascading sweep started at `start` reaches `d`.
    pub open spec fn floods_to(&self, start: Coordinate, d: Coordinate) -> bool {
        exists|p: Seq<Coordinate>| self.flood_path(start, p) && p.last() == d
    }

    /// The set of coordinates one sweep of `start` discloses: the start
    /// alone when it is mined, otherwise everything its flood reaches.
    pub open spec fn reveal_set(&self, start: Coordinate) -> Set<Coordinate> {
        if self.block_at(start).mined {
            Set::empty().insert(start)
        } else {
            Set::new(|d: Coordinate| self.floods_to(start, d))
        }
    }

    /// The one-element path makes every in-bounds coordinate reach itself.
    pub proof fn lemma_floods_to_self(&self, start: Coordinate)
        requires
            self.in_bounds(start),
        ensures
            self.floods_to(start, start),
    {
        let p: Seq<Coordinate> = seq![start];
        assert(self.flood_path(start, p));
        assert(p.last() == start);
    }

    /// A flood path out of a zero-count end block extends by one unswept,
    /// unflagged, adjacent in-bounds coordinate.
    proof fn lemma_flood_path_extend(&self, start: Coordinate, p: Seq<Coordinate>, n: Coordinate)
        requires
            self.flood_path(start, p),
            self.spec_adjacent_mine_count(p.last()) == 0,
            self.in_bounds(n),
            is_adjacent(p.last(), n),
            !self.block_at(n).swept,
            !self.block_at(n).flagged,
        ensures
            self.flood_path(start, p.push(n)),
            p.push(n).last() == n,
    {
        let q = p.push(n);
        assert(forall|i: int| 0 <= i < p.len() ==> q[i] == #[trigger] p[i]);
        assert(q[p.len() as int] == n);
        assert forall|i: int| 0 <= i < q.len() - 1 implies is_adjacent(#[trigger] q[i], q[i + 1]) by {
            if i < p.len() - 1 {
                assert(is_adjacent(p[i], p[i + 1]));
            } else {
                assert(q[i] == p.last());
            }
        }
        assert forall|i: int|
            0 <= i < q.len() - 1 implies self.spec_adjacent_mine_count(#[trigger] q[i]) == 0 by {
            if i < p.len() - 1 {
                assert(self.spec_adjacent_mine_count(p[i]) == 0);
            } else {
                assert(q[i] == p.last());
            }
        }
    }

    /// A block whose recomputed count is zero has no mined neighbor.
    pub proof fn lemma_zero_count_unmined_neighbor(&self, d: Coordinate, n: Coordinate)
        requires
            self.in_bounds(d),
            self.in_bounds(n),
            self.spec_adjacent_mine_count(d) == 0,
            is_adjacent(d, n),
        ensures
            !self.block_at(n).mined,
    {
        let dx = n.0 - d.0;
        let dy = n.1 - d.1;
        if dx == -1 && dy == -1 {
            assert(self.mine_at(d.0 - 1, d.1 - 1) == 0);
        } else if dx == 0 && dy == -1 {
            assert(self.mine_at(d.0 as int, d.1 - 1) == 0);
        } else if dx == 1 && dy == -1 {
            assert(self.mine_at(d.0 + 1, d.1 - 1) == 0);
        } else if dx == -1 && dy == 0 {
            assert(self.mine_at(d.0 - 1, d.1 as int) == 0);
        } else if dx == 1 && dy == 0 {
            assert(self.mine_at(d.0 + 1, d.1 as int) == 0);
        } else if dx == -1 && dy == 1 {
            assert(self.mine_at(d.0 - 1, d.1 + 1) == 0);
        } else if dx == 0 && dy == 1 {
            assert(self.mine_at(d.0 as int, d.1 + 1) == 0);
        } else {
            assert(dx == 1 && dy == 1);
            assert(self.mine_at(d.0 + 1, d.1 + 1) == 0);
        }
        assert(self.mine_at(n.0 as int, n.1 as int) == 0);
    }

    /// A sweep started on a block with a positive recomputed count floods
    /// nowhere: it reaches the start alone.
    proof fn lemma_positive_count_floods_only_self(&self, start: Coordinate)
        requires
            self.spec_adjacent_mine_count(start) != 0,
        ensures
            forall|d: Coordinate| #[trigger] self.floods_to(start, d) ==> d == start,
    {
        assert forall|d: Coordinate| #[trigger] self.floods_to(start, d) implies d == start by {
            let p = choose|p: Seq<Coordinate>| self.flood_path(start, p) && p.last() == d;
            if p.len() >= 2 {
                assert(self.spec_adjacent_mine_count(p[0]) == 0);
            }
        }
    }

    /// Everything the flood reaches beyond its start is unmined.
    pub proof fn lemma_reveal_set_safe(&self, start: Coordinate)
        requires
            self.in_bounds(start),
        ensures
            forall|d: Coordinate|
                #[trigger] self.reveal_set(start).contains(d) && d != start ==> !self.block_at(
                    d,
                ).mined,
    {
        if !self.block_at(start).mined {
            assert forall|d: Coordinate|
                #[trigger] self.reveal_set(start).contains(d) && d != start implies !self.block_at(
                d,
            ).mined by {
                let p = choose|p: Seq<Coordinate>| self.flood_path(start, p) && p.last() == d;
                if p.len() == 1 {
                    assert(d == start);
                } else {
                    let i = p.len() - 2;
                    assert(is_adjacent(p[i], p[i + 1]));
                    assert(self.spec_adjacent_mine_count(p[i]) == 0);
                    self.lemma_zero_count_unmined_neighbor(p[i], d);
                }
            }
        }
    }

    /// Everything one sweep discloses lies inside the field.
    pub proof fn lemma_reveal_set_in_bounds(&self, start: Coordinate)
        requires
            self.in_bounds(start),
        ensures
            forall|d: Coordinate|
                #[trigger] self.reveal_set(start).contains(d) ==> self.in_bounds(d),
    {
        if !self.block_at(start).mined {
            assert forall|d: Coordinate|
                #[trigger] self.reveal_set(start).contains(d) implies self.in_bounds(d) by {
                let p = choose|p: Seq<Coordinate>| self.flood_path(start, p) && p.last() == d;
                assert(self.in_bounds(p[p.len() - 1]));
            }
        }
    }

    /// Any set that contains the start of a flood and is closed under one
    /// flood step contains everything a flood path reaches.
    proof fn lemma_closed_set_covers_paths(
        &self,
        start: Coordinate,
        s: Set<Coordinate>,
        p: Seq<Coordinate>,
    )
        requires
            self.flood_path(start, p),
            s.contains(start),
            forall|d: Coordinate, n: Coordinate|
                #![trigger s.contains(d), s.contains(n)]
                s.contains(d) && self.in_bounds(d) && self.spec_adjacent_mine_count(d) == 0
                    && self.in_bounds(n) && is_adjacent(d, n) && !self.block_at(n).swept
                    && !self.block_at(n).flagged ==> s.contains(n),
        ensures
            s.contains(p.last()),
        decreases p.len(),
    {
        if p.len() == 1 {
            assert(p.last() == start);
        } else {
            let q = p.drop_last();
            assert(forall|i: int| 0 <= i < q.len() ==> q[i] == #[trigger] p[i]);
            assert(self.flood_path(start, q));
            self.lemma_closed_set_covers_paths(start, s, q);
            let i = p.len() - 2;
            assert(q.last() == p[i]);
            assert(s.contains(p[i]));
            assert(is_adjacent(p[i], p[i + 1]));
            assert(self.spec_adjacent_mine_count(p[i]) == 0);
            assert(!self.block_at(p[i + 1]).swept && !self.block_at(p[i + 1]).flagged);
            assert(s.contains(p[i + 1]));
        }
    }

    /// Draws one random trial for every block in row-major order and, with
    /// probability `mine_probability_percent` / 100, places a mine there,
    /// bumping the cached counts of its neighbors. Run once, on a fresh
    /// field; afterwards the cached counts agree with the recomputed ones and
    /// no block is swept or flagged.
    pub fn populate_mines(&mut self, mine_probability_percent: usize)
        requires
            old(self).wf(),
            old(self).is_fresh(),
        ensures
            final(self).wf(),
            final(self).counts_consistent(),
            final(self).spec_length() == old(self).spec_length(),
            final(self).spec_width() == old(self).spec_width(),
            forall|c: Coordinate|
                final(self).in_bounds(c) ==> !(#[trigger] final(self).block_at(c)).swept
                    && !(final(self).block_at(c)).flagged,
    {
        proof {
            self.lemma_fresh_counts_consistent();
        }
        let ghost m0 = *self;
        let length = self.get_length();
        let width = self.get_width();
        let mut y: usize = 0;
        while y < length
            invariant
                self.wf(),
                self.counts_consistent(),
                self.spec_length() == length,
                self.spec_width() == width,
                m0.spec_length() == length,
                m0.spec_width() == width,
                y <= length,
                forall|c: Coordinate|
                    self.in_bounds(c) ==> !(#[trigger] self.block_at(c)).swept && !self.block_at(
                        c,
                    ).flagged,
                forall|c: Coordinate|
                    self.in_bounds(c) && c.1 >= y ==> !(#[trigger] self.block_at(c)).mined,
            decreases length - y,
        {
            let mut x: usize = 0;
            while x < width
                invariant
                    self.wf(),
                    self.counts_consistent(),
                    self.spec_length() == length,
                    self.spec_width() == width,
                    y < length,
                    x <= width,
                    forall|c: Coordinate|
                        self.in_bounds(c) ==> !(#[trigger] self.block_at(c)).swept && !self
                            .block_at(c).flagged,
                    forall|c: Coordinate|
                        self.in_bounds(c) && (c.1 > y || (c.1 == y && c.0 >= x)) ==> !(
                        #[trigger] self.block_at(c)).mined,
                decreases width - x,
            {
                let roll = random_percent();
                if roll < mine_probability_percent {
                    let ghost prev = *self;
                    self.place_mine_at_coord((x, y));
                    proof {
                        assert forall|c: Coordinate|
                            self.in_bounds(c) implies !(#[trigger] self.block_at(c)).swept && !self
                            .block_at(c).flagged by {
                            assert(self.block_at(c) == Self::placed_block(
                                prev.block_at(c),
                                c == (x, y),
                                is_adjacent((x, y), c),
                            ));
                        }
                        assert forall|c: Coordinate|
                            self.in_bounds(c) && (c.1 > y || (c.1 == y && c.0 >= x + 1)) implies !(
                        #[trigger] self.block_at(c)).mined by {
                            assert(self.block_at(c) == Self::placed_block(
                                prev.block_at(c),
                                c == (x, y),
                                is_adjacent((x, y), c),
                            ));
                        }
                    }
                }
                x = x + 1;
            }
            y = y + 1;
        }
    }

    /// One mine-indicator term is unchanged when no mine flag changed.
    proof fn lemma_mine_at_same(m0: Minefield, m1: Minefield, x: int, y: int)
        requires
            m1.spec_length() == m0.spec_length(),
            m1.spec_width() == m0.spec_width(),
            forall|c: Coordinate|
                m1.in_bounds(c) ==> (#[trigger] m1.block_at(c)).mined == m0.block_at(c).mined,
        ensures
            m1.mine_at(x, y) == m0.mine_at(x, y),
    {
        if 0 <= x < m0.spec_width() && 0 <= y < m0.spec_length() {
            let p = (((x as usize)), ((y as usize)));
            assert(m1.block_at(p).mined == m0.block_at(p).mined);
        }
    }

    /// A change that leaves every mine flag and every cached count alone
    /// keeps the cached counts consistent.
    proof fn lemma_swept_only_preserves_consistency(m0: Minefield, m1: Minefield)
        requires
            m0.counts_consistent(),
            m1.spec_length() == m0.spec_length(),
            m1.spec_width() == m0.spec_width(),
            forall|c: Coordinate|
                m1.in_bounds(c) ==> (#[trigger] m1.block_at(c)).mined == m0.block_at(c).mined,
            forall|c: Coordinate|
                m1.in_bounds(c) ==> (#[trigger] m1.block_at(c)).nof_adjacent_mine == m0.block_at(
                    c,
                ).nof_adjacent_mine,
        ensures
            m1.counts_consistent(),
    {
        assert forall|c: Coordinate|
            m1.in_bounds(c) implies (#[trigger] m1.block_at(c)).nof_adjacent_mine
            == m1.spec_adjacent_mine_count(c) by {
            assert(m0.block_at(c).nof_adjacent_mine == m0.spec_adjacent_mine_count(c));
            Self::lemma_mine_at_same(m0, m1, c.0 - 1, c.1 - 1);
            Self::lemma_mine_at_same(m0, m1, c.0 as int, c.1 - 1);
            Self::lemma_mine_at_same(m0, m1, c.0 + 1, c.1 - 1);
            Self::lemma_mine_at_same(m0, m1, c.0 - 1, c.1 as int);
            Self::lemma_mine_at_same(m0, m1, c.0 + 1, c.1 as int);
            Self::lemma_mine_at_same(m0, m1, c.0 - 1, c.1 + 1);
            Self::lemma_mine_at_same(m0, m1, c.0 as int, c.1 + 1);
            Self::lemma_mine_at_same(m0, m1, c.0 + 1, c.1 + 1);
        }
    }

    /// Sweeps every unswept, unflagged in-bounds neighbor of `cur`, a
    /// zero-count block the flood has reached, collecting the newly swept
    /// coordinates and queueing those with a zero count for further
    /// expansion.
    #[verifier::rlimit(100)]
    fn flood_expand(
        &mut self,
        cur: Coordinate,
        revealed: &mut Vec<Coordinate>,
        work: &mut Vec<Coordinate>,
        Ghost(m0): Ghost<Minefield>,
        Ghost(coord): Ghost<Coordinate>,
    )
        requires
            old(self).wf(),
            old(self).spec_length() == m0.spec_length(),
            old(self).spec_width() == m0.spec_width(),
            m0.wf(),
            m0.counts_consistent(),
            m0.in_bounds(cur),
            m0.spec_adjacent_mine_count(cur) == 0,
            m0.floods_to(coord, cur),
            old(revealed)@.no_duplicates(),
            old(work)@.no_duplicates(),
            old(revealed)@.to_set().contains(cur),
            old(revealed)@.len() <= m0.spec_length() * m0.spec_width(),
            forall|c: Coordinate|
                old(self).in_bounds(c) ==> #[trigger] old(self).block_at(c) == (Block {
                    swept: m0.block_at(c).swept || old(revealed)@.to_set().contains(c),
                    ..m0.block_at(c)
                }),
            forall|d: Coordinate|
                #[trigger] old(revealed)@.to_set().contains(d) ==> m0.in_bounds(d)
                    && m0.floods_to(coord, d),
            forall|k: int|
                0 <= k < old(work)@.len() ==> m0.in_bounds(#[trigger] old(work)@[k])
                    && m0.spec_adjacent_mine_count(old(work)@[k]) == 0 && old(revealed)@.to_set().contains(old(work)@[k]),
        ensures
            final(self).wf(),
            final(self).spec_length() == m0.spec_length(),
            final(self).spec_width() == m0.spec_width(),
            final(revealed)@.no_duplicates(),
            final(work)@.no_duplicates(),
            final(revealed)@.len() >= old(revealed)@.len(),
            forall|k: int|
                0 <= k < old(revealed)@.len() ==> #[trigger] final(revealed)@[k] == old(revealed)@[k],
            final(revealed)@.len() <= m0.spec_length() * m0.spec_width(),
            forall|d: Coordinate|
                old(revealed)@.to_set().contains(d) ==> final(revealed)@.to_set().contains(d),
            forall|d: Coordinate| old(work)@.contains(d) ==> final(work)@.contains(d),
            forall|c: Coordinate|
                final(self).in_bounds(c) ==> #[trigger] final(self).block_at(c) == (Block {
                    swept: m0.block_at(c).swept || final(revealed)@.to_set().contains(c),
                    ..m0.block_at(c)
                }),
            forall|d: Coordinate|
                #[trigger] final(revealed)@.to_set().contains(d) ==> m0.in_bounds(d)
                    && m0.floods_to(coord, d),
            forall|k: int|
                0 <= k < final(work)@.len() ==> m0.in_bounds(#[trigger] final(work)@[k])
                    && m0.spec_adjacent_mine_count(final(work)@[k]) == 0 && final(revealed)@.to_set().contains(final(work)@[k]),
            forall|n: Coordinate|
                m0.in_bounds(n) && is_adjacent(cur, n) && !(#[trigger] m0.block_at(n)).swept
                    && !m0.block_at(n).flagged ==> final(revealed)@.to_set().contains(n),
            forall|d: Coordinate|
                #[trigger] final(revealed)@.to_set().contains(d) && !old(revealed)@.to_set()
                    .contains(d) && m0.spec_adjacent_mine_count(d) == 0 ==> final(work)@.contains(d),
            final(work)@.len() + 2 * old(revealed)@.len() <= old(work)@.len() + 2 * final(revealed)@.len(),
    {
        let ghost l = m0.spec_length();
        let ghost w = m0.spec_width();
        proof {
            lemma_rect_coords_card(l, w);
            assert(self.neighbor_coords(cur) =~= m0.neighbor_coords(cur));
        }
        let cands = self.adjacent_coords(cur);
        let ghost rev0 = revealed@;
        let ghost work0 = work@;
        let mut j: usize = 0;
        while j < cands.len()
            invariant
                self.wf(),
                self.spec_length() == l,
                self.spec_width() == w,
                l == m0.spec_length(),
                w == m0.spec_width(),
                m0.wf(),
                m0.counts_consistent(),
                m0.in_bounds(cur),
                m0.spec_adjacent_mine_count(cur) == 0,
                m0.floods_to(coord, cur),
                rect_coords(l, w).finite(),
                rect_coords(l, w).len() == l * w,
                revealed@.no_duplicates(),
                work@.no_duplicates(),
                rev0.len() <= revealed@.len(),
                forall|k: int| 0 <= k < rev0.len() ==> #[trigger] revealed@[k] == rev0[k],
                revealed@.len() <= l * w,
                revealed@.to_set().contains(cur),
                cands@ == m0.neighbor_coords(cur),
                j <= cands@.len(),
                forall|d: Coordinate| rev0.to_set().contains(d) ==> revealed@.to_set().contains(d),
                forall|d: Coordinate| work0.contains(d) ==> work@.contains(d),
                forall|c: Coordinate|
                    self.in_bounds(c) ==> #[trigger] self.block_at(c) == (Block {
                        swept: m0.block_at(c).swept || revealed@.to_set().contains(c),
                        ..m0.block_at(c)
                    }),
                forall|d: Coordinate|
                    #[trigger] revealed@.to_set().contains(d) ==> m0.in_bounds(d) && m0.floods_to(
                        coord,
                        d,
                    ),
                forall|k: int|
                    0 <= k < work@.len() ==> m0.in_bounds(#[trigger] work@[k])
                        && m0.spec_adjacent_mine_count(work@[k]) == 0
                        && revealed@.to_set().contains(work@[k]),
                forall|k: int|
                    0 <= k < j ==> (!m0.block_at(#[trigger] cands@[k]).swept && !m0.block_at(
                        cands@[k],
                    ).flagged ==> revealed@.to_set().contains(cands@[k])),
                forall|d: Coordinate|
                    #[trigger] revealed@.to_set().contains(d) && !rev0.to_set().contains(d)
                        && m0.spec_adjacent_mine_count(d) == 0 ==> work@.contains(d),
                work@.len() + 2 * rev0.len() <= work0.len() + 2 * revealed@.len(),
            decreases cands@.len() - j,
        {
            let n = cands[j];
            proof {
                m0.lemma_neighbor_coords_characterization(cur);
                assert(cands@[j as int] == n);
                assert(cands@.contains(n));
                assert(m0.in_bounds(n) && is_adjacent(cur, n));
            }
            let bn = *self.block_ref(n);
            if !bn.is_swept() && !bn.is_flagged() {
                proof {
                    assert(!m0.block_at(n).swept && !m0.block_at(n).flagged);
                    assert(!revealed@.to_set().contains(n));
                }
                let ghost prev_self = *self;
                let ghost prev_revealed = revealed@;
                let ghost prev_work = work@;
                let mut nb2 = bn;
                nb2.set_swept(true);
                self.put_block(n, nb2);
                revealed.push(n);
                let zero_here = bn.get_nof_adjacent_mine() == 0;
                if zero_here {
                    work.push(n);
                }
                proof {
                    assert(bn.nof_adjacent_mine == m0.block_at(n).nof_adjacent_mine);
                    assert(zero_here ==> m0.spec_adjacent_mine_count(n) == 0);
                    assert(revealed@.to_set() == prev_revealed.to_set().insert(n));
                    lemma_push_keeps_no_duplicates(prev_revealed, n);
                    revealed@.unique_seq_to_set();
                    assert(revealed@.to_set().subset_of(rect_coords(l, w))) by {
                        assert forall|d: Coordinate|
                            revealed@.to_set().contains(d) implies rect_coords(l, w).contains(
                            d,
                        ) by {
                            if d != n {
                                assert(prev_revealed.to_set().contains(d));
                                assert(m0.in_bounds(d));
                            }
                        }
                    }
                    vstd::set_lib::lemma_len_subset(revealed@.to_set(), rect_coords(l, w));
                    if zero_here {
                        assert(!prev_work.contains(n)) by {
                            if prev_work.contains(n) {
                                let k = choose|k: int|
                                    0 <= k < prev_work.len() && prev_work[k] == n;
                                assert(prev_revealed.to_set().contains(n));
                            }
                        }
                        lemma_push_keeps_no_duplicates(prev_work, n);
                    }
                    assert forall|d: Coordinate|
                        work0.contains(d) implies work@.contains(d) by {
                        assert(prev_work.contains(d));
                        let k = choose|k: int| 0 <= k < prev_work.len() && prev_work[k] == d;
                        assert(work@[k] == d);
                    }
                    assert forall|c: Coordinate|
                        self.in_bounds(c) implies #[trigger] self.block_at(c) == (Block {
                        swept: m0.block_at(c).swept || revealed@.to_set().contains(c),
                        ..m0.block_at(c)
                    }) by {
                        if c != n {
                            assert(self.block_at(c) == prev_self.block_at(c));
                        }
                    }
                    assert forall|d: Coordinate|
                        #[trigger] revealed@.to_set().contains(d) implies m0.in_bounds(d)
                        && m0.floods_to(coord, d) by {
                        if d == n {
                            let p = choose|p: Seq<Coordinate>|
                                m0.flood_path(coord, p) && p.last() == cur;
                            m0.lemma_flood_path_extend(coord, p, n);
                        } else {
                            assert(prev_revealed.to_set().contains(d));
                        }
                    }
                    assert forall|k: int|
                        0 <= k < work@.len() implies m0.in_bounds(#[trigger] work@[k])
                        && m0.spec_adjacent_mine_count(work@[k]) == 0 && revealed@.to_set()
                        .contains(work@[k]) by {
                        if k < prev_work.len() {
                            assert(work@[k] == prev_work[k]);
                            assert(prev_revealed.to_set().contains(prev_work[k]));
                        } else {
                            assert(work@[k] == n);
                        }
                    }
                    assert forall|d: Coordinate|
                        #[trigger] revealed@.to_set().contains(d) && !rev0.to_set().contains(d)
                            && m0.spec_adjacent_mine_count(d) == 0 implies work@.contains(d) by {
                        if d == n {
                            assert(work@[work@.len() - 1] == n);
                        } else {
                            assert(prev_revealed.to_set().contains(d));
                            assert(prev_work.contains(d));
                            let k = choose|k: int|
                                0 <= k < prev_work.len() && prev_work[k] == d;
                            assert(work@[k] == d);
                        }
                    }
                }
            }
            j += 1;
        }
        proof {
            m0.lemma_neighbor_coords_characterization(cur);
            assert forall|n: Coordinate|
                m0.in_bounds(n) && is_adjacent(cur, n) && !(#[trigger] m0.block_at(n)).swept
                    && !m0.block_at(n).flagged implies revealed@.to_set().contains(n) by {
                assert(m0.neighbor_coords(cur).contains(n));
                let k = choose|k: int|
                    0 <= k < m0.neighbor_coords(cur).len() && m0.neighbor_coords(cur)[k] == n;
                assert(cands@[k] == n);
            }
        }
    }

    /// Sweeps the block a coordinate addresses. Fails with `OutOfBound`
    /// outside the field and with `AlreadySwept` on a block already swept; a
    /// failed call changes nothing. Otherwise the target is swept; when the
    /// target is mined nothing else happens, and when its adjacent-mine
    /// count is zero the sweep cascades: every unswept, unflagged block
    /// reachable through zero-count blocks is swept too, the flood stopping
    /// at, but still disclosing, blocks with a positive count. The returned
    /// vector lists each newly swept coordinate exactly once, the target
    /// first.
    pub fn sweep(&mut self, coord: Coordinate) -> (r: Result<Vec<Coordinate>, MinefieldError>)
        requires
            old(self).wf(),
            old(self).counts_consistent(),
        ensures
            final(self).wf(),
            final(self).counts_consistent(),
            final(self).spec_length() == old(self).spec_length(),
            final(self).spec_width() == old(self).spec_width(),
            !old(self).in_bounds(coord) ==> r == Err::<Vec<Coordinate>, MinefieldError>(
                MinefieldError::OutOfBound(coord),
            ) && *final(self) == *old(self),
            old(self).in_bounds(coord) && old(self).block_at(coord).swept ==> r == Err::<
                Vec<Coordinate>,
                MinefieldError,
            >(MinefieldError::AlreadySwept(coord)) && *final(self) == *old(self),
            old(self).in_bounds(coord) && !old(self).block_at(coord).swept ==> match r {
                Ok(v) => {
                    &&& v@.to_set() == old(self).reveal_set(coord)
                    &&& v@.no_duplicates()
                    &&& v@.len() >= 1
                    &&& v@[0] == coord
                    &&& forall|c: Coordinate|
                        final(self).in_bounds(c) ==> #[trigger] final(self).block_at(c) == (Block {
                            swept: old(self).block_at(c).swept || old(self).reveal_set(
                                coord,
                            ).contains(c),
                            ..old(self).block_at(c)
                        })
                },
                Err(_) => false,
            },
    {
        if !(coord.0 < self.width && coord.1 < self.length) {
            return Err(MinefieldError::OutOfBound(coord));
        }
        let b = *self.block_ref(coord);
        if b.is_swept() {
            return Err(MinefieldError::AlreadySwept(coord));
        }
        let ghost m0 = *self;
        let ghost l = m0.spec_length();
        let ghost w = m0.spec_width();
        let ghost rs = m0.reveal_set(coord);
        let mut nb = b;
        nb.set_swept(true);
        self.put_block(coord, nb);
        let mut revealed: Vec<Coordinate> = Vec::new();
        revealed.push(coord);
        proof {
            m0.lemma_floods_to_self(coord);
            assert(revealed@ == Seq::<Coordinate>::empty().push(coord));
            assert(revealed@.to_set() =~= Set::empty().insert(coord));
        }
        if b.is_mined() {
            proof {
                assert(rs == Set::empty().insert(coord));
                assert(revealed@.to_set() == rs);
                assert forall|c: Coordinate| self.in_bounds(c) implies #[trigger] self.block_at(c)
                    == (Block { swept: m0.block_at(c).swept || rs.contains(c), ..m0.block_at(c) })
                by {}
                Self::lemma_swept_only_preserves_consistency(m0, *self);
            }
            return Ok(revealed);
        }
        if b.get_nof_adjacent_mine() > 0 {
            proof {
                assert(b.nof_adjacent_mine == m0.spec_adjacent_mine_count(coord));
                m0.lemma_positive_count_floods_only_self(coord);
                assert(rs =~= Set::empty().insert(coord));
                assert(revealed@.to_set() == rs);
                assert forall|c: Coordinate| self.in_bounds(c) implies #[trigger] self.block_at(c)
                    == (Block { swept: m0.block_at(c).swept || rs.contains(c), ..m0.block_at(c) })
                by {}
                Self::lemma_swept_only_preserves_consistency(m0, *self);
            }
            return Ok(revealed);
        }
        let mut work: Vec<Coordinate> = Vec::new();
        work.push(coord);
        proof {
            lemma_rect_coords_card(l, w);
            assert(revealed@.no_duplicates());
            assert(work@ == Seq::<Coordinate>::empty().push(coord));
            assert(revealed@.len() <= l * w) by {
                revealed@.unique_seq_to_set();
                assert(revealed@.to_set().subset_of(rect_coords(l, w)));
                vstd::set_lib::lemma_len_subset(revealed@.to_set(), rect_coords(l, w));
            }
        }
        while work.len() > 0
            invariant
                self.wf(),
                self.spec_length() == l,
                self.spec_width() == w,
                m0.wf(),
                m0.counts_consistent(),
                m0.spec_length() == l,
                m0.spec_width() == w,
                m0.in_bounds(coord),
                !m0.block_at(coord).swept,
                !m0.block_at(coord).mined,
                m0.spec_adjacent_mine_count(coord) == 0,
                rs == m0.reveal_set(coord),
                revealed@.no_duplicates(),
                work@.no_duplicates(),
                revealed@.len() >= 1,
                revealed@[0] == coord,
                revealed@.len() <= l * w,
                revealed@.to_set().contains(coord),
                forall|c: Coordinate|
                    self.in_bounds(c) ==> #[trigger] self.block_at(c) == (Block {
                        swept: m0.block_at(c).swept || revealed@.to_set().contains(c),
                        ..m0.block_at(c)
                    }),
                forall|d: Coordinate|
                    #[trigger] revealed@.to_set().contains(d) ==> m0.in_bounds(d) && m0.floods_to(
                        coord,
                        d,
                    ),
                forall|k: int|
                    0 <= k < work@.len() ==> m0.in_bounds(#[trigger] work@[k])
                        && m0.spec_adjacent_mine_count(work@[k]) == 0
                        && revealed@.to_set().contains(work@[k]),
                forall|d: Coordinate, n: Coordinate|
                    #![trigger revealed@.to_set().contains(d), revealed@.to_set().contains(n)]
                    revealed@.to_set().contains(d) && m0.in_bounds(d)
                        && m0.spec_adjacent_mine_count(d) == 0 && !work@.contains(d)
                        && m0.in_bounds(n) && is_adjacent(d, n) && !m0.block_at(n).swept
                        && !m0.block_at(n).flagged ==> revealed@.to_set().contains(n),
            decreases 2 * (l * w - revealed@.len()) + work@.len(),
        {
            let ghost prev_work = work@;
            let cur = work.pop().unwrap();
            proof {
                assert(cur == prev_work[prev_work.len() - 1]);
                assert(!work@.contains(cur)) by {
                    if work@.contains(cur) {
                        let k = choose|k: int| 0 <= k < work@.len() && work@[k] == cur;
                        assert(prev_work[k] == prev_work[prev_work.len() - 1]);
                    }
                }
                assert(m0.in_bounds(cur) && m0.spec_adjacent_mine_count(cur) == 0
                    && revealed@.to_set().contains(cur));
            }
            let ghost rev_mid = revealed@;
            let ghost work_mid = work@;
            self.flood_expand(cur, &mut revealed, &mut work, Ghost(m0), Ghost(coord));
            proof {
                assert forall|d: Coordinate, n: Coordinate|
                    #![trigger revealed@.to_set().contains(d), revealed@.to_set().contains(n)]
                    revealed@.to_set().contains(d) && m0.in_bounds(d)
                        && m0.spec_adjacent_mine_count(d) == 0 && !work@.contains(d)
                        && m0.in_bounds(n) && is_adjacent(d, n) && !m0.block_at(n).swept
                        && !m0.block_at(n).flagged implies revealed@.to_set().contains(n) by {
                    if d == cur {
                        assert(revealed@.to_set().contains(n));
                    } else if rev_mid.to_set().contains(d) {
                        assert(!work_mid.contains(d));
                        assert(!prev_work.contains(d)) by {
                            if prev_work.contains(d) {
                                let k = choose|k: int|
                                    0 <= k < prev_work.len() && prev_work[k] == d;
                                if k < prev_work.len() - 1 {
                                    assert(work_mid[k] == d);
                                    assert(work_mid.contains(d));
                                }
                            }
                        }
                        assert(rev_mid.to_set().contains(n));
                        assert(revealed@.to_set().contains(n));
                    } else {
                        assert(work@.contains(d));
                    }
                }
            }
        }
        proof {
            assert forall|d: Coordinate| #[trigger] rs.contains(d) implies revealed@.to_set()
                .contains(d) by {
                assert(m0.floods_to(coord, d));
                let p = choose|p: Seq<Coordinate>| m0.flood_path(coord, p) && p.last() == d;
                m0.lemma_closed_set_covers_paths(coord, revealed@.to_set(), p);
            }
            assert forall|d: Coordinate| #[trigger] revealed@.to_set().contains(d) implies rs
                .contains(d) by {
                assert(m0.floods_to(coord, d));
            }
            assert(revealed@.to_set() =~= rs);
            Self::lemma_swept_only_preserves_consistency(m0, *self);
        }
        Ok(revealed)
    }


    /// On an all-zero-count, untouched field every block reaches every
    /// other: a path exists that steps one block at a time toward the target.
    proof fn lemma_all_zero_connected(&self, start: Coordinate, d: Coordinate)
        requires
            self.in_bounds(start),
            self.in_bounds(d),
            forall|c: Coordinate|
                self.in_bounds(c) ==> #[trigger] self.spec_adjacent_mine_count(c) == 0,
            forall|c: Coordinate|
                self.in_bounds(c) ==> !(#[trigger] self.block_at(c)).swept && !self.block_at(
                    c,
                ).flagged,
        ensures
            self.floods_to(start, d),
        decreases abs(d.0 - start.0) + abs(d.1 - start.1),
    {
        if d == start {
            self.lemma_floods_to_self(start);
        } else {
            let px: usize = if d.0 < start.0 {
                (d.0 + 1) as usize
            } else if d.0 > start.0 {
                (d.0 - 1) as usize
            } else {
                d.0
            };
            let py: usize = if d.1 < start.1 {
                (d.1 + 1) as usize
            } else if d.1 > start.1 {
                (d.1 - 1) as usize
            } else {
                d.1
            };
            let prev = (px, py);
            assert(self.in_bounds(prev));
            assert(is_adjacent(prev, d));
            self.lemma_all_zero_connected(start, prev);
            let p = choose|p: Seq<Coordinate>| self.flood_path(start, p) && p.last() == prev;
            self.lemma_flood_path_extend(start, p, d);
        }
    }

    /// Flood correctness on a mine-free field: one sweep of any coordinate
    /// discloses every coordinate of the field, since every recomputed
    /// adjacent-mine count is zero.
    pub proof fn lemma_no_mines_flood_reveals_all(&self, start: Coordinate)
        requires
            self.in_bounds(start),
            forall|c: Coordinate|
                self.in_bounds(c) ==> !(#[trigger] self.block_at(c)).mined && !self.block_at(
                    c,
                ).swept && !self.block_at(c).flagged,
        ensures
            self.reveal_set(start) =~= rect_coords(self.spec_length(), self.spec_width()),
    {
        assert forall|c: Coordinate|
            self.in_bounds(c) implies #[trigger] self.spec_adjacent_mine_count(c) == 0 by {
            assert(self.spec_adjacent_mine_count(c) == 0);
        }
        assert forall|d: Coordinate|
            rect_coords(self.spec_length(), self.spec_width()).contains(d) implies self.reveal_set(
            start,
        ).contains(d) by {
            self.lemma_all_zero_connected(start, d);
        }
        assert forall|d: Coordinate|
            self.reveal_set(start).contains(d) implies rect_coords(
            self.spec_length(),
            self.spec_width(),
        ).contains(d) by {
            let p = choose|p: Seq<Coordinate>| self.flood_path(start, p) && p.last() == d;
            assert(self.in_bounds(p[p.len() - 1]));
        }
    }

    /// The one-directional flag rule, sweep side: after a flag is set on an
    /// unswept block (`m1` being the field after that toggle), a sweep of
    /// that same block is still accepted — the block is still unswept — and
    /// still discloses it; the flag shields a block only from the cascading
    /// flood, never from a direct sweep.
    pub proof fn lemma_flag_then_sweep_permitted(m0: Minefield, m1: Minefield, c: Coordinate)
        requires
            m0.in_bounds(c),
            !m0.block_at(c).swept,
            m1.spec_length() == m0.spec_length(),
            m1.spec_width() == m0.spec_width(),
            m1.block_at(c) == (Block { flagged: true, ..m0.block_at(c) }),
        ensures
            !m1.block_at(c).swept,
            m1.reveal_set(c).contains(c),
    {
        if !m1.block_at(c).mined {
            m1.lemma_floods_to_self(c);
        }
    }

    /// Every block that holds no mine has been swept: the winning state.
    pub open spec fn all_safe_swept(&self) -> bool {
        forall|c: Coordinate|
            self.in_bounds(c) && !(#[trigger] self.block_at(c)).mined ==> self.block_at(c).swept
    }

    /// Whether every unmined block has been swept.
    pub fn is_all_safe_swept(&self) -> (r: bool)
        requires
            self.wf(),
        ensures
            r == self.all_safe_swept(),
    {
        let mut y: usize = 0;
        while y < self.length
            invariant
                self.wf(),
                y <= self.spec_length(),
                forall|c: Coordinate|
                    self.in_bounds(c) && c.1 < y && !(#[trigger] self.block_at(c)).mined
                        ==> self.block_at(c).swept,
            decreases self.spec_length() - y,
        {
            let mut x: usize = 0;
            while x < self.width
                invariant
                    self.wf(),
                    y < self.spec_length(),
                    x <= self.spec_width(),
                    forall|c: Coordinate|
                        self.in_bounds(c) && (c.1 < y || (c.1 == y && c.0 < x)) && !(
                        #[trigger] self.block_at(c)).mined ==> self.block_at(c).swept,
                decreases self.spec_width() - x,
            {
                let b = *self.block_ref((x, y));
                if !b.is_mined() && !b.is_swept() {
                    return false;
                }
                x = x + 1;
            }
            y = y + 1;
        }
        true
    }

    /// The full-board snapshot a renderer consumes: one symbol for each
    /// block, row by row, resolved by the flag-over-mine-over-count-over-
    /// covered priority.
    pub fn snapshot(&self) -> (r: Vec<Vec<BlockSymbol>>)
        requires
            self.wf(),
        ensures
            r@.len() == self.spec_length(),
            forall|yy: int| 0 <= yy < r@.len() ==> (#[trigger] r@[yy])@.len() == self.spec_width(),
            forall|yy: int, xx: int|
                0 <= yy < r@.len() && 0 <= xx < self.spec_width() ==> #[trigger] r@[yy]@[xx]
                    == spec_symbol(self.block_at((((xx as usize)), ((yy as usize))))),
    {
        let mut r: Vec<Vec<BlockSymbol>> = Vec::new();
        let mut y: usize = 0;
        while y < self.length
            invariant
                self.wf(),
                y <= self.spec_length(),
                r@.len() == y,
                forall|yy: int| 0 <= yy < y ==> (#[trigger] r@[yy])@.len() == self.spec_width(),
                forall|yy: int, xx: int|
                    0 <= yy < y && 0 <= xx < self.spec_width() ==> #[trigger] r@[yy]@[xx]
                        == spec_symbol(self.block_at((((xx as usize)), ((yy as usize))))),
            decreases self.spec_length() - y,
        {
            let mut row: Vec<BlockSymbol> = Vec::new();
            let mut x: usize = 0;
            while x < self.width
                invariant
                    self.wf(),
                    y < self.spec_length(),
                    x <= self.spec_width(),
                    row@.len() == x,
                    forall|xx: int|
                        0 <= xx < x ==> #[trigger] row@[xx] == spec_symbol(
                            self.block_at((((xx as usize)), ((y as usize)))),
                        ),
                decreases self.spec_width() - x,
            {
                let b = self.block_ref((x, y));
                row.push(b.symbol());
                x = x + 1;
            }
            r.push(row);
            y = y + 1;
        }
        r
    }

    /// Sets or clears the flag marker of the block a coordinate addresses.
    /// Fails with `OutOfBound` outside the field and with `InvalidFlagState`
    /// on a block that is already swept; a failed call changes nothing.
    pub fn set_flagged_at_coord(&mut self, coord: Coordinate, flagged: bool) -> (r: Result<
        (),
        MinefieldError,
    >)
        requires
            old(self).wf(),
        ensures
            final(self).wf(),
            final(self).spec_length() == old(self).spec_length(),
            final(self).spec_width() == old(self).spec_width(),
            old(self).counts_consistent() ==> final(self).counts_consistent(),
            !old(self).in_bounds(coord) ==> r == Err::<(), MinefieldError>(
                MinefieldError::OutOfBound(coord),
            ) && *final(self) == *old(self),
            old(self).in_bounds(coord) && old(self).block_at(coord).swept ==> r == Err::<
                (),
                MinefieldError,
            >(MinefieldError::InvalidFlagState(coord)) && *final(self) == *old(self),
            old(self).in_bounds(coord) && !old(self).block_at(coord).swept ==> r == Ok::<
                (),
                MinefieldError,
            >(()) && final(self).block_at(coord) == (Block {
                flagged,
                ..old(self).block_at(coord)
            }) && forall|c: Coordinate|
                final(self).in_bounds(c) && c != coord ==> #[trigger] final(self).block_at(c)
                    == old(self).block_at(c),
    {
        if !(coord.0 < self.width && coord.1 < self.length) {
            return Err(MinefieldError::OutOfBound(coord));
        }
        let b = *self.block_ref(coord);
        if b.is_swept() {
            return Err(MinefieldError::InvalidFlagState(coord));
        }
        let ghost m0 = *self;
        let mut nb = b;
        nb.set_flagged(flagged);
        self.put_block(coord, nb);
        proof {
            if m0.counts_consistent() {
                Self::lemma_swept_only_preserves_consistency(m0, *self);
            }
        }
        Ok(())
    }
}

} // verus!
