//! The smallest addressable unit of the minefield: one block and the symbol a
//! renderer shows for it.

use vstd::prelude::*;

verus! {

/// A zero-based (column, row) address into the minefield.
pub type Coordinate = (usize, usize);

/// One square of the minefield: its mine, flag and swept state, plus the
/// cached count of mined neighbors.
#[derive(Clone, Copy, Debug, PartialEq, Eq)]
pub struct Block {
    pub coordinate: Coordinate,
    pub nof_adjacent_mine: usize,
    pub mined: bool,
    pub flagged: bool,
    pub swept: bool,
}

/// The externally visible symbol of a block, resolved by priority:
/// a flag hides everything, then a swept mine shows as a mine, then a swept
/// block shows its adjacent-mine count, and anything else is still covered.
#[derive(Clone, Copy, Debug, PartialEq, Eq)]
pub enum BlockSymbol {
    Flag,
    Mine,
    Count(usize),
    Covered,
}

/// The symbol that renders a block, by the priority rule above.
pub open spec fn spec_symbol(b: Block) -> BlockSymbol {
    if b.flagged {
        BlockSymbol::Flag
    } else if b.swept && b.mined {
        BlockSymbol::Mine
    } else if b.swept {
        BlockSymbol::Count(b.nof_adjacent_mine)
    } else {
        BlockSymbol::Covered
    }
}

impl Block {
    /// A fresh block at the given coordinate: unmined, unflagged, unswept,
    /// with a zero adjacent-mine count.
    pub fn new(coordinate: Coordinate) -> (r: Block)
        ensures
            r == (Block {
                coordinate,
                nof_adjacent_mine: 0,
                mined: false,
                flagged: false,
                swept: false,
            }),
    {
        Block { coordinate, nof_adjacent_mine: 0, mined: false, flagged: false, swept: false }
    }

    pub fn get_coordinate(&self) -> (r: Coordinate)
        ensures
            r == self.coordinate,
    {
        self.coordinate
    }

    pub fn get_nof_adjacent_mine(&self) -> (r: usize)
        ensures
            r == self.nof_adjacent_mine,
    {
        self.nof_adjacent_mine
    }

    pub fn set_nof_adjacent_mine(&mut self, nof_adjacent_mine: usize)
        ensures
            *final(self) == (Block { nof_adjacent_mine, ..*old(self) }),
    {
        self.nof_adjacent_mine = nof_adjacent_mine;
    }

    pub fn incr_nof_adjacent_mine(&mut self)
        requires
            old(self).nof_adjacent_mine < usize::MAX,
        ensures
            final(self).nof_adjacent_mine == old(self).nof_adjacent_mine + 1,
            final(self).coordinate == old(self).coordinate,
            final(self).mined == old(self).mined,
            final(self).flagged == old(self).flagged,
            final(self).swept == old(self).swept,
    {
        self.nof_adjacent_mine = self.nof_adjacent_mine + 1;
    }

    pub fn is_mined(&self) -> (r: bool)
        ensures
            r == self.mined,
    {
        self.mined
    }

    pub fn set_mined(&mut self, mined: bool)
        ensures
            *final(self) == (Block { mined, ..*old(self) }),
    {
        self.mined = mined;
    }

    pub fn is_flagged(&self) -> (r: bool)
        ensures
            r == self.flagged,
    {
        self.flagged
    }

    pub fn set_flagged(&mut self, flagged: bool)
        ensures
            *final(self) == (Block { flagged, ..*old(self) }),
    {
        self.flagged = flagged;
    }

    pub fn is_swept(&self) -> (r: bool)
        ensures
            r == self.swept,
    {
        self.swept
    }

    pub fn set_swept(&mut self, swept: bool)
        ensures
            *final(self) == (Block { swept, ..*old(self) }),
    {
        self.swept = swept;
    }

    /// The symbol a renderer shows for this block.
    pub fn symbol(&self) -> (r: BlockSymbol)
        ensures
            r == spec_symbol(*self),
    {
        if self.flagged {
            BlockSymbol::Flag
        } else if self.swept && self.mined {
            BlockSymbol::Mine
        } else if self.swept {
            BlockSymbol::Count(self.nof_adjacent_mine)
        } else {
            BlockSymbol::Covered
        }
    }
}

} // verus!
