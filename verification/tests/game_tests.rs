use minesweeper::game::{GameOutcome, MinesweeperGame, MinesweeperGameError};
use minesweeper::minefield::{Minefield, MinefieldError};

fn game_on(minefield: Minefield) -> MinesweeperGame {
    MinesweeperGame { minefield, outcome: GameOutcome::InProgress }
}

/// A 5-by-5 field whose two mines fence the corner block (0, 0) off from
/// the rest: (0, 0) keeps an adjacent count of 2 and every block outside
/// the fence with a zero count is connected to (4, 4).
fn pocket_game() -> MinesweeperGame {
    let mut minefield = Minefield::new(5, 5);
    minefield.place_mine_at_coord((1, 0));
    minefield.place_mine_at_coord((0, 1));
    game_on(minefield)
}

#[test]
fn win_on_a_single_safe_block() {
    let mut game = game_on(Minefield::new(1, 1));
    assert_eq!(game.outcome(), GameOutcome::InProgress);
    let swept = game.sweep((0, 0)).unwrap();
    assert_eq!(swept, vec![(0, 0)]);
    assert_eq!(game.outcome(), GameOutcome::Won);
}

#[test]
fn loss_on_sweeping_a_mine() {
    let mut minefield = Minefield::new(2, 2);
    minefield.place_mine_at_coord((0, 0));
    let mut game = game_on(minefield);
    assert_eq!(game.outcome(), GameOutcome::InProgress);
    let swept = game.sweep((0, 0)).unwrap();
    assert_eq!(swept, vec![(0, 0)]);
    assert_eq!(game.outcome(), GameOutcome::Lost);
}

#[test]
fn one_sweep_reveals_everything_when_no_mine_exists() {
    let mut game = game_on(Minefield::new(3, 4));
    let swept = game.sweep((2, 1)).unwrap();
    assert_eq!(swept.len(), 12);
    for y in 0..3 {
        for x in 0..4 {
            assert!(game.minefield.get_block_at_coord((x, y)).unwrap().is_swept());
        }
    }
    assert_eq!(game.outcome(), GameOutcome::Won);
}

#[test]
fn flood_stops_at_blocks_with_a_positive_count() {
    let mut game = pocket_game();
    assert_eq!(game.minefield.get_nof_adjacent_mine_at_coord((1, 1)).unwrap(), 2);
    let swept = game.sweep((4, 4)).unwrap();
    assert_eq!(swept.len(), 22);
    // the fence itself is disclosed but the flood never crosses it
    assert!(game.minefield.get_block_at_coord((1, 1)).unwrap().is_swept());
    assert!(!game.minefield.get_block_at_coord((0, 0)).unwrap().is_swept());
    assert!(!game.minefield.get_block_at_coord((1, 0)).unwrap().is_swept());
    assert!(!game.minefield.get_block_at_coord((0, 1)).unwrap().is_swept());
    assert_eq!(game.outcome(), GameOutcome::InProgress);
    // disclosing the fenced-off safe block finishes the game
    let last = game.sweep((0, 0)).unwrap();
    assert_eq!(last, vec![(0, 0)]);
    assert_eq!(game.outcome(), GameOutcome::Won);
}

#[test]
fn sweeping_an_already_swept_block_fails_without_changes() {
    let mut game = pocket_game();
    game.sweep((4, 4)).unwrap();
    let before = game.snapshot();
    assert_eq!(
        game.sweep((4, 4)).err(),
        Some(MinesweeperGameError::AlreadySwept((4, 4)))
    );
    assert_eq!(game.snapshot(), before);
    assert_eq!(game.outcome(), GameOutcome::InProgress);
}

#[test]
fn out_of_bounds_game_operations_fail_wrapped() {
    let mut game = game_on(Minefield::new(3, 3));
    assert_eq!(
        game.sweep((9, 9)).err(),
        Some(MinesweeperGameError::Minefield { source: MinefieldError::OutOfBound((9, 9)) })
    );
    assert_eq!(
        game.toggle_flag((3, 0), true).err(),
        Some(MinesweeperGameError::Minefield { source: MinefieldError::OutOfBound((3, 0)) })
    );
    assert_eq!(game.outcome(), GameOutcome::InProgress);
}

#[test]
fn flagging_is_one_directional() {
    // flagging first does not block a later sweep of the same block, and
    // the stale flag survives on the now swept block
    let mut game = game_on(Minefield::new(2, 2));
    game.toggle_flag((0, 1), true).unwrap();
    let swept = game.sweep((0, 1)).unwrap();
    assert!(swept.contains(&(0, 1)));
    let block = *game.minefield.get_block_at_coord((0, 1)).unwrap();
    assert!(block.is_swept());
    assert!(block.is_flagged());
    // sweeping first makes a later flag toggle fail
    let mut other = pocket_game();
    other.sweep((4, 4)).unwrap();
    assert_eq!(
        other.toggle_flag((3, 3), true).err(),
        Some(MinesweeperGameError::Minefield {
            source: MinefieldError::InvalidFlagState((3, 3))
        })
    );
    assert_eq!(other.outcome(), GameOutcome::InProgress);
}

#[test]
fn terminal_outcomes_reject_every_further_operation() {
    let mut minefield = Minefield::new(2, 2);
    minefield.place_mine_at_coord((0, 0));
    let mut lost = game_on(minefield);
    lost.sweep((0, 0)).unwrap();
    assert_eq!(lost.outcome(), GameOutcome::Lost);
    let before = lost.snapshot();
    assert_eq!(lost.sweep((1, 1)).err(), Some(MinesweeperGameError::GameAlreadyOver));
    assert_eq!(
        lost.toggle_flag((1, 1), true).err(),
        Some(MinesweeperGameError::GameAlreadyOver)
    );
    assert_eq!(lost.snapshot(), before);
    assert_eq!(lost.outcome(), GameOutcome::Lost);

    let mut won = game_on(Minefield::new(1, 2));
    won.sweep((0, 0)).unwrap();
    assert_eq!(won.outcome(), GameOutcome::Won);
    assert_eq!(won.sweep((1, 0)).err(), Some(MinesweeperGameError::GameAlreadyOver));
    assert_eq!(
        won.toggle_flag((1, 0), true).err(),
        Some(MinesweeperGameError::GameAlreadyOver)
    );
}

#[test]
fn new_game_is_populated_and_consistent() {
    let game = MinesweeperGame::new(5, 6);
    assert_eq!(game.outcome(), GameOutcome::InProgress);
    assert_eq!(game.minefield.get_length(), 5);
    assert_eq!(game.minefield.get_width(), 6);
    for y in 0..5 {
        for x in 0..6 {
            let block = game.minefield.get_block_at_coord((x, y)).unwrap();
            assert!(!block.is_swept());
            assert!(!block.is_flagged());
            let recomputed = game.minefield.get_nof_adjacent_mine_at_coord((x, y)).unwrap();
            assert_eq!(block.get_nof_adjacent_mine(), recomputed);
        }
    }
}
