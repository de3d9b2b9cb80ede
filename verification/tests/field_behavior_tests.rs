use minesweeper::block::{Block, BlockSymbol};
use minesweeper::minefield::{Minefield, MinefieldError};

#[test]
fn fresh_field_has_all_default_blocks() {
    let minefield = Minefield::new(4, 5);
    assert_eq!(minefield.get_length(), 4);
    assert_eq!(minefield.get_width(), 5);
    for y in 0..4 {
        for x in 0..5 {
            let block = minefield.get_block_at_coord((x, y)).unwrap();
            assert!(!block.is_mined());
            assert!(!block.is_swept());
            assert!(!block.is_flagged());
            assert_eq!(block.get_nof_adjacent_mine(), 0);
            assert_eq!(block.get_coordinate(), (x, y));
        }
    }
    let degenerate = Minefield::new(0, 7);
    assert_eq!(degenerate.get_length(), 0);
    assert_eq!(degenerate.get_width(), 0);
    assert_eq!(
        degenerate.get_block_at_coord((0, 0)).err(),
        Some(MinefieldError::OutOfBound((0, 0)))
    );
}

#[test]
fn place_mine_bumps_exactly_the_neighbors() {
    let mut minefield = Minefield::new(3, 3);
    minefield.place_mine_at_coord((1, 1));
    for y in 0..3 {
        for x in 0..3 {
            let block = minefield.get_block_at_coord((x, y)).unwrap();
            if (x, y) == (1, 1) {
                assert!(block.is_mined());
                assert_eq!(block.get_nof_adjacent_mine(), 0);
            } else {
                assert!(!block.is_mined());
                assert_eq!(block.get_nof_adjacent_mine(), 1);
            }
        }
    }
    minefield.place_mine_at_coord((0, 0));
    assert_eq!(
        minefield.get_block_at_coord((1, 1)).unwrap().get_nof_adjacent_mine(),
        1
    );
    assert_eq!(
        minefield.get_block_at_coord((1, 0)).unwrap().get_nof_adjacent_mine(),
        2
    );
    assert_eq!(
        minefield.get_block_at_coord((2, 2)).unwrap().get_nof_adjacent_mine(),
        1
    );
    assert_eq!(
        minefield.get_block_at_coord((2, 0)).unwrap().get_nof_adjacent_mine(),
        1
    );
}

#[test]
fn cached_counts_agree_with_recomputed_counts_after_placement() {
    let mut minefield = Minefield::new(6, 7);
    for coord in [(0, 0), (3, 2), (4, 2), (6, 5), (2, 4)] {
        minefield.place_mine_at_coord(coord);
    }
    for y in 0..6 {
        for x in 0..7 {
            let cached = minefield
                .get_block_at_coord((x, y))
                .unwrap()
                .get_nof_adjacent_mine();
            let recomputed = minefield.get_nof_adjacent_mine_at_coord((x, y)).unwrap();
            assert_eq!(cached, recomputed);
        }
    }
}

#[test]
fn test_tmp_mines_the_neighbors_without_touching_counts() {
    let mut minefield = Minefield::new(3, 3);
    minefield.test_tmp((0, 0)).unwrap();
    for y in 0..3 {
        for x in 0..3 {
            let block = minefield.get_block_at_coord((x, y)).unwrap();
            let neighbor_of_corner = (x, y) == (0, 1) || (x, y) == (1, 0) || (x, y) == (1, 1);
            assert_eq!(block.is_mined(), neighbor_of_corner);
            assert_eq!(block.get_nof_adjacent_mine(), 0);
        }
    }
    assert_eq!(minefield.get_nof_adjacent_mine_at_coord((0, 0)).unwrap(), 3);
    assert_eq!(
        minefield.test_tmp((9, 9)).err(),
        Some(MinefieldError::OutOfBound((9, 9)))
    );
}

#[test]
fn out_of_bounds_coordinates_fail_every_operation_and_change_nothing() {
    let mut minefield = Minefield::new(3, 3);
    minefield.place_mine_at_coord((2, 2));
    let before = minefield.snapshot();
    let coord = (5, 5);
    assert_eq!(
        minefield.get_block_at_coord(coord).err(),
        Some(MinefieldError::OutOfBound(coord))
    );
    assert_eq!(
        minefield.get_mut_block_at_coord(coord).err(),
        Some(MinefieldError::OutOfBound(coord))
    );
    assert_eq!(
        minefield.get_adjacent_blocks_at_coord(coord).err(),
        Some(MinefieldError::OutOfBound(coord))
    );
    assert_eq!(
        minefield.get_nof_adjacent_mine_at_coord(coord).err(),
        Some(MinefieldError::OutOfBound(coord))
    );
    assert_eq!(
        minefield.sweep(coord).err(),
        Some(MinefieldError::OutOfBound(coord))
    );
    assert_eq!(
        minefield.set_flagged_at_coord(coord, true).err(),
        Some(MinefieldError::OutOfBound(coord))
    );
    assert_eq!(
        minefield.test_tmp(coord).err(),
        Some(MinefieldError::OutOfBound(coord))
    );
    assert_eq!(minefield.snapshot(), before);
}

#[test]
fn sweeping_twice_fails_and_leaves_the_board_unchanged() {
    let mut minefield = Minefield::new(3, 3);
    minefield.place_mine_at_coord((0, 0));
    let swept = minefield.sweep((2, 2)).unwrap();
    assert!(swept.contains(&(2, 2)));
    let before = minefield.snapshot();
    assert_eq!(
        minefield.sweep((2, 2)).err(),
        Some(MinefieldError::AlreadySwept((2, 2)))
    );
    assert_eq!(minefield.snapshot(), before);
}

#[test]
fn flagging_a_swept_block_is_rejected() {
    let mut minefield = Minefield::new(2, 2);
    minefield.place_mine_at_coord((0, 0));
    minefield.sweep((1, 1)).unwrap();
    assert_eq!(
        minefield.set_flagged_at_coord((1, 1), true).err(),
        Some(MinefieldError::InvalidFlagState((1, 1)))
    );
    assert!(minefield.set_flagged_at_coord((0, 1), true).is_ok());
    assert!(minefield.get_block_at_coord((0, 1)).unwrap().is_flagged());
    assert!(minefield.set_flagged_at_coord((0, 1), false).is_ok());
    assert!(!minefield.get_block_at_coord((0, 1)).unwrap().is_flagged());
}

#[test]
fn flood_skips_flagged_blocks() {
    let mut minefield = Minefield::new(5, 5);
    minefield.place_mine_at_coord((1, 0));
    minefield.place_mine_at_coord((0, 1));
    minefield.set_flagged_at_coord((3, 3), true).unwrap();
    let swept = minefield.sweep((4, 4)).unwrap();
    assert_eq!(swept.len(), 21);
    assert!(!minefield.get_block_at_coord((3, 3)).unwrap().is_swept());
    assert!(minefield.get_block_at_coord((3, 3)).unwrap().is_flagged());
    assert!(minefield.get_block_at_coord((2, 2)).unwrap().is_swept());
}

#[test]
fn block_symbols_follow_the_display_priority() {
    let mut block = Block::new((0, 0));
    assert_eq!(block.symbol(), BlockSymbol::Covered);
    block.set_mined(true);
    assert_eq!(block.symbol(), BlockSymbol::Covered);
    block.set_swept(true);
    assert_eq!(block.symbol(), BlockSymbol::Mine);
    block.set_flagged(true);
    assert_eq!(block.symbol(), BlockSymbol::Flag);

    let mut counted = Block::new((1, 1));
    counted.set_nof_adjacent_mine(3);
    counted.set_swept(true);
    assert_eq!(counted.symbol(), BlockSymbol::Count(3));
}

#[test]
fn snapshot_reports_one_symbol_per_block() {
    let mut minefield = Minefield::new(2, 3);
    minefield.place_mine_at_coord((0, 0));
    minefield.set_flagged_at_coord((0, 0), true).unwrap();
    minefield.sweep((2, 1)).unwrap();
    let snapshot = minefield.snapshot();
    assert_eq!(snapshot.len(), 2);
    assert_eq!(snapshot[0].len(), 3);
    assert_eq!(snapshot[1].len(), 3);
    assert_eq!(snapshot[0][0], BlockSymbol::Flag);
    assert_eq!(snapshot[0][1], BlockSymbol::Count(1));
    assert_eq!(snapshot[1][2], BlockSymbol::Count(0));
    assert_eq!(snapshot[1][0], BlockSymbol::Covered);
}
