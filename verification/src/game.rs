//! The game orchestrator: one minefield, the overall outcome, and the
//! player-facing sweep and flag operations.

use vstd::prelude::*;

use crate::block::{Block, BlockSymbol, Coordinate};
use crate::block::spec_symbol;
use crate::minefield::{Minefield, MinefieldError};

verus! {

/// The default chance, in percent, that a block receives a mine.
pub const DEFAULT_MINE_PROBABILITY_PERCENT: usize = 15;

/// The overall status of one game. `InProgress` is the initial state; `Won`
/// and `Lost` are terminal: no sweep or flag toggle is accepted afterwards.
#[derive(Clone, Copy, Debug, PartialEq, Eq, Structural)]
pub enum GameOutcome {
    InProgress,
    Won,
    Lost,
}

/// The failures of game-level operations.
#[derive(Debug, Clone, Copy, PartialEq, Eq)]
pub enum MinesweeperGameError {
    /// A field-level failure, carried through unchanged.
    Minefield { source: MinefieldError },
    /// A sweep was requested on a block that is already swept.
    AlreadySwept(Coordinate),
    /// An operation was requested after the outcome became terminal.
    GameAlreadyOver,
}

impl From<MinefieldError> for MinesweeperGameError {
    fn from(cause: MinefieldError) -> (r: Self) {
        MinesweeperGameError::Minefield { source: cause }
    }
}

impl vstd::std_specs::convert::FromSpecImpl<MinefieldError> for MinesweeperGameError {
    open spec fn obeys_from_spec() -> bool {
        true
    }

    open spec fn from_spec(cause: MinefieldError) -> Self {
        MinesweeperGameError::Minefield { source: cause }
    }
}

/// One game: the owned minefield and the outcome reached so far.
#[derive(Debug)]
pub struct MinesweeperGame {
    pub minefield: Minefield,
    pub outcome: GameOutcome,
}

impl MinesweeperGame {
    /// The minefield is well-formed and its cached adjacent-mine counts
    /// agree with the recomputed ones.
    pub open spec fn wf(&self) -> bool {
        &&& self.minefield.wf()
        &&& self.minefield.counts_consistent()
    }

    /// A game on a fresh `length` by `width` minefield, populated once with
    /// randomly placed mines, ready to play.
    pub fn new(length: usize, width: usize) -> (r: MinesweeperGame)
        requires
            length * width <= usize::MAX,
        ensures
            r.wf(),
            r.minefield.spec_length() == length,
            r.minefield.spec_width() == if length == 0 {
                0nat
            } else {
                width as nat
            },
            r.outcome == GameOutcome::InProgress,
            forall|c: Coordinate|
                r.minefield.in_bounds(c) ==> !(#[trigger] r.minefield.block_at(c)).swept
                    && !r.minefield.block_at(c).flagged,
    {
        let mut game = MinesweeperGame {
            minefield: Minefield::new(length, width),
            outcome: GameOutcome::InProgress,
        };
        game.populate_minefield();
        game
    }

    /// Places the mines, once, on the still fresh minefield, with the
    /// default mine probability.
    pub fn populate_minefield(&mut self)
        requires
            old(self).minefield.wf(),
            old(self).minefield.is_fresh(),
        ensures
            final(self).wf(),
            final(self).outcome == old(self).outcome,
            final(self).minefield.spec_length() == old(self).minefield.spec_length(),
            final(self).minefield.spec_width() == old(self).minefield.spec_width(),
            forall|c: Coordinate|
                final(self).minefield.in_bounds(c) ==> !(#[trigger] final(self).minefield.block_at(
                    c,
                )).swept && !(final(self).minefield.block_at(c)).flagged,
    {
        self.minefield.populate_mines(DEFAULT_MINE_PROBABILITY_PERCENT);
    }

    /// The outcome reached so far.
    pub fn outcome(&self) -> (r: GameOutcome)
        ensures
            r == self.outcome,
    {
        self.outcome
    }

    /// Sweeps a block and updates the outcome. Fails with `GameAlreadyOver`
    /// once the outcome is terminal, wraps the field's `OutOfBound` failure,
    /// and reports `AlreadySwept` on a block already swept; a failed call
    /// changes nothing. On success the swept coordinates come back and the
    /// outcome becomes `Lost` when a mine was swept, `Won` when every safe
    /// block is now swept, and stays `InProgress` otherwise.
    pub fn sweep(&mut self, coord: Coordinate) -> (r: Result<
        Vec<Coordinate>,
        MinesweeperGameError,
    >)
        requires
            old(self).wf(),
        ensures
            final(self).wf(),
            final(self).minefield.spec_length() == old(self).minefield.spec_length(),
            final(self).minefield.spec_width() == old(self).minefield.spec_width(),
            old(self).outcome != GameOutcome::InProgress ==> r == Err::<
                Vec<Coordinate>,
                MinesweeperGameError,
            >(MinesweeperGameError::GameAlreadyOver) && *final(self) == *old(self),
            old(self).outcome == GameOutcome::InProgress && !old(self).minefield.in_bounds(coord)
                ==> r == Err::<Vec<Coordinate>, MinesweeperGameError>(
                MinesweeperGameError::Minefield { source: MinefieldError::OutOfBound(coord) },
            ) && *final(self) == *old(self),
            old(self).outcome == GameOutcome::InProgress && old(self).minefield.in_bounds(coord)
                && old(self).minefield.block_at(coord).swept ==> r == Err::<
                Vec<Coordinate>,
                MinesweeperGameError,
            >(MinesweeperGameError::AlreadySwept(coord)) && *final(self) == *old(self),
            old(self).outcome == GameOutcome::InProgress && old(self).minefield.in_bounds(coord)
                && !old(self).minefield.block_at(coord).swept ==> match r {
                Ok(v) => {
                    &&& v@.to_set() == old(self).minefield.reveal_set(coord)
                    &&& v@.no_duplicates()
                    &&& v@.len() >= 1
                    &&& v@[0] == coord
                    &&& forall|c: Coordinate|
                        final(self).minefield.in_bounds(c) ==> #[trigger] final(self).minefield.block_at(c) == (Block {
                            swept: old(self).minefield.block_at(c).swept || old(self).minefield.reveal_set(coord).contains(c),
                            ..old(self).minefield.block_at(c)
                        })
                    &&& final(self).outcome == (if old(self).minefield.block_at(coord).mined {
                        GameOutcome::Lost
                    } else if final(self).minefield.all_safe_swept() {
                        GameOutcome::Won
                    } else {
                        GameOutcome::InProgress
                    })
                },
                Err(_) => false,
            },
    {
        if !(self.outcome == GameOutcome::InProgress) {
            return Err(MinesweeperGameError::GameAlreadyOver);
        }
        let ghost m0 = self.minefield;
        match self.minefield.sweep(coord) {
            Err(e) => {
                match e {
                    MinefieldError::AlreadySwept(c) => Err(MinesweeperGameError::AlreadySwept(c)),
                    other => Err(MinesweeperGameError::Minefield { source: other }),
                }
            },
            Ok(swept_coords) => {
                proof {
                    m0.lemma_reveal_set_in_bounds(coord);
                    m0.lemma_reveal_set_safe(coord);
                    assert forall|k: int|
                        0 <= k < swept_coords@.len() implies m0.in_bounds(
                        #[trigger] swept_coords@[k],
                    ) && m0.reveal_set(coord).contains(swept_coords@[k]) by {
                        assert(swept_coords@.contains(swept_coords@[k]));
                        assert(swept_coords@.to_set().contains(swept_coords@[k]));
                    }
                    assert forall|k: int|
                        0 <= k < swept_coords@.len() && (#[trigger] swept_coords@[k]) != coord
                        implies !m0.block_at(swept_coords@[k]).mined by {
                        assert(m0.reveal_set(coord).contains(swept_coords@[k]));
                    }
                }
                let mut any_mined = false;
                let mut i: usize = 0;
                while i < swept_coords.len()
                    invariant
                        self.wf(),
                        m0.in_bounds(coord),
                        i <= swept_coords@.len(),
                        swept_coords@.len() >= 1,
                        swept_coords@[0] == coord,
                        swept_coords@.no_duplicates(),
                        self.minefield.spec_length() == m0.spec_length(),
                        self.minefield.spec_width() == m0.spec_width(),
                        forall|k: int|
                            0 <= k < swept_coords@.len() ==> m0.in_bounds(#[trigger] swept_coords@[k])
                                && m0.reveal_set(coord).contains(swept_coords@[k]),
                        forall|k: int|
                            0 <= k < swept_coords@.len() ==> (#[trigger] swept_coords@[k]) != coord
                                ==> !m0.block_at(swept_coords@[k]).mined,
                        forall|c: Coordinate|
                            self.minefield.in_bounds(c) ==> (#[trigger] self.minefield.block_at(
                                c,
                            )).mined == m0.block_at(c).mined,
                        any_mined == (i >= 1 && m0.block_at(coord).mined),
                    decreases swept_coords@.len() - i,
                {
                    let c = swept_coords[i];
                    match self.minefield.get_block_at_coord(c) {
                        Ok(b) => {
                            if b.is_mined() {
                                any_mined = true;
                            }
                        },
                        Err(_) => {},
                    }
                    i = i + 1;
                }
                if any_mined {
                    self.outcome = GameOutcome::Lost;
                } else if self.minefield.is_all_safe_swept() {
                    self.outcome = GameOutcome::Won;
                }
                Ok(swept_coords)
            },
        }
    }

    /// Sets or clears the flag marker of a block. Fails with
    /// `GameAlreadyOver` once the outcome is terminal and wraps the field's
    /// `OutOfBound` and `InvalidFlagState` failures; a failed call changes
    /// nothing. Flagging never changes the outcome.
    pub fn toggle_flag(&mut self, coord: Coordinate, flagged: bool) -> (r: Result<
        (),
        MinesweeperGameError,
    >)
        requires
            old(self).wf(),
        ensures
            final(self).wf(),
            final(self).outcome == old(self).outcome,
            final(self).minefield.spec_length() == old(self).minefield.spec_length(),
            final(self).minefield.spec_width() == old(self).minefield.spec_width(),
            old(self).outcome != GameOutcome::InProgress ==> r == Err::<(), MinesweeperGameError>(
                MinesweeperGameError::GameAlreadyOver,
            ) && *final(self) == *old(self),
            old(self).outcome == GameOutcome::InProgress && !old(self).minefield.in_bounds(coord)
                ==> r == Err::<(), MinesweeperGameError>(
                MinesweeperGameError::Minefield { source: MinefieldError::OutOfBound(coord) },
            ) && *final(self) == *old(self),
            old(self).outcome == GameOutcome::InProgress && old(self).minefield.in_bounds(coord)
                && old(self).minefield.block_at(coord).swept ==> r == Err::<
                (),
                MinesweeperGameError,
            >(MinesweeperGameError::Minefield { source: MinefieldError::InvalidFlagState(coord) })
                && *final(self) == *old(self),
            old(self).outcome == GameOutcome::InProgress && old(self).minefield.in_bounds(coord)
                && !old(self).minefield.block_at(coord).swept ==> r == Ok::<
                (),
                MinesweeperGameError,
            >(()) && final(self).minefield.block_at(coord) == (Block {
                flagged,
                ..old(self).minefield.block_at(coord)
            }) && forall|c: Coordinate|
                final(self).minefield.in_bounds(c) && c != coord ==> #[trigger] final(self).minefield.block_at(c) == old(self).minefield.block_at(c),
    {
        if !(self.outcome == GameOutcome::InProgress) {
            return Err(MinesweeperGameError::GameAlreadyOver);
        }
        match self.minefield.set_flagged_at_coord(coord, flagged) {
            Ok(_) => Ok(()),
            Err(e) => Err(MinesweeperGameError::from(e)),
        }
    }

    /// The full-board snapshot a renderer consumes.
    pub fn snapshot(&self) -> (r: Vec<Vec<BlockSymbol>>)
        requires
            self.minefield.wf(),
        ensures
            r@.len() == self.minefield.spec_length(),
            forall|yy: int|
                0 <= yy < r@.len() ==> (#[trigger] r@[yy])@.len() == self.minefield.spec_width(),
            forall|yy: int, xx: int|
                0 <= yy < r@.len() && 0 <= xx < self.minefield.spec_width() ==> #[trigger] r@[yy]@[xx]
                    == spec_symbol(self.minefield.block_at((((xx as usize)), ((yy as usize))))),
    {
        self.minefield.snapshot()
    }
}

} // verus!
