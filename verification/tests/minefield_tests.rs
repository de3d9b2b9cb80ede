use minesweeper::block::Block;
use minesweeper::minefield::{Minefield, MinefieldError};

#[test]
fn get_length() {
    let empty_minefield1: Minefield = Minefield::new(0, 0);
    let empty_minefield2: Minefield = Minefield::new(1, 0);
    let minefield1: Minefield = Minefield::new(3, 3);
    let minefield2: Minefield = Minefield::new(0, 10);
    let minefield3: Minefield = Minefield::new(25, 40);

    assert_eq!(empty_minefield1.get_length(), 0);
    assert_eq!(empty_minefield2.get_length(), 1);

    assert_eq!(minefield1.get_length(), 3);
    assert_eq!(minefield2.get_length(), 0);
    assert_eq!(minefield3.get_length(), 25);
    assert_ne!(minefield3.get_length(), 40);
}

#[test]
fn get_width() {
    let empty_minefield1: Minefield = Minefield::new(0, 0);
    let empty_minefield2: Minefield = Minefield::new(1, 0);
    let minefield1: Minefield = Minefield::new(3, 3);
    let minefield2: Minefield = Minefield::new(0, 10);
    let minefield3: Minefield = Minefield::new(25, 40);

    assert_eq!(empty_minefield1.get_width(), 0);
    assert_eq!(empty_minefield2.get_width(), 0);

    assert_eq!(minefield1.get_width(), 3);
    assert_eq!(minefield2.get_width(), 0);
    assert_ne!(minefield2.get_width(), 10);
    assert_eq!(minefield3.get_width(), 40);
    assert_ne!(minefield3.get_width(), 25);
}

#[test]
fn test_get_mut_block_at_coord() {
    let mut empty_minefield: Minefield = Minefield::new(0, 0);
    let mut minefield: Minefield = Minefield::new(5, 5);

    assert_eq!(
        empty_minefield.get_mut_block_at_coord((0, 0)).err(),
        Some(MinefieldError::OutOfBound((0, 0)))
    );

    assert_eq!(minefield.get_mut_block_at_coord((0, 0)).is_ok(), true);
    assert_eq!(minefield.get_mut_block_at_coord((2, 1)).is_ok(), true);
    assert_eq!(minefield.get_mut_block_at_coord((4, 0)).is_ok(), true);
    assert_eq!(minefield.get_mut_block_at_coord((3, 4)).is_ok(), true);
    assert_eq!(minefield.get_mut_block_at_coord((4, 4)).is_ok(), true);

    let mut block: Block = Block::new((4, 4));
    assert_eq!(minefield.get_mut_block_at_coord((4, 4)).unwrap(), &block);
    block.incr_nof_adjacent_mine();
    assert_ne!(minefield.get_mut_block_at_coord((4, 4)).unwrap(), &block);
    minefield
        .get_mut_block_at_coord((4, 4))
        .unwrap()
        .incr_nof_adjacent_mine();
    assert_eq!(minefield.get_mut_block_at_coord((4, 4)).unwrap(), &block);

    assert_eq!(
        minefield.get_mut_block_at_coord((5, 4)).err(),
        Some(MinefieldError::OutOfBound((5, 4)))
    );
    assert_eq!(
        minefield.get_mut_block_at_coord((4, 5)).err(),
        Some(MinefieldError::OutOfBound((4, 5)))
    );
    assert_eq!(
        minefield.get_mut_block_at_coord((5, 5)).err(),
        Some(MinefieldError::OutOfBound((5, 5)))
    );
    assert_ne!(
        minefield.get_mut_block_at_coord((7, 42)).err(),
        Some(MinefieldError::OutOfBound((42, 7)))
    );
    assert_eq!(
        minefield.get_mut_block_at_coord((1048041, 44198011)).err(),
        Some(MinefieldError::OutOfBound((1048041, 44198011)))
    );
}

#[test]
fn test_get_block_at_coord() {
    let empty_minefield: Minefield = Minefield::new(0, 0);
    let minefield: Minefield = Minefield::new(5, 5);

    assert_eq!(
        empty_minefield.get_block_at_coord((0, 0)).err(),
        Some(MinefieldError::OutOfBound((0, 0)))
    );

    assert_eq!(minefield.get_block_at_coord((0, 0)).is_ok(), true);
    assert_eq!(minefield.get_block_at_coord((0, 0)).is_ok(), true);
    assert_eq!(minefield.get_block_at_coord((0, 1)).is_ok(), true);
    assert_eq!(minefield.get_block_at_coord((1, 2)).is_ok(), true);
    assert_eq!(minefield.get_block_at_coord((2, 3)).is_ok(), true);
    assert_eq!(minefield.get_block_at_coord((4, 4)).is_ok(), true);

    let mut block: Block = Block::new((4, 4));
    assert_eq!(minefield.get_block_at_coord((4, 4)).unwrap(), &block);
    block.incr_nof_adjacent_mine();
    assert_ne!(minefield.get_block_at_coord((4, 4)).unwrap(), &block);

    assert_eq!(
        minefield.get_block_at_coord((5, 4)).err(),
        Some(MinefieldError::OutOfBound((5, 4)))
    );
    assert_eq!(
        minefield.get_block_at_coord((4, 5)).err(),
        Some(MinefieldError::OutOfBound((4, 5)))
    );
    assert_eq!(
        minefield.get_block_at_coord((5, 5)).err(),
        Some(MinefieldError::OutOfBound((5, 5)))
    );
    assert_ne!(
        minefield.get_block_at_coord((7, 42)).err(),
        Some(MinefieldError::OutOfBound((42, 7)))
    );
    assert_eq!(
        minefield.get_block_at_coord((59187912, 9086109710)).err(),
        Some(MinefieldError::OutOfBound((59187912, 9086109710)))
    );
}

#[test]
fn test_get_adjacent_blocks_at_coord() {
    let minefield: Minefield = Minefield::new(3, 3);
    assert_eq!(
        minefield.get_adjacent_blocks_at_coord((3, 0)).err(),
        Some(MinefieldError::OutOfBound((3, 0)))
    );

    assert_eq!(minefield.get_adjacent_blocks_at_coord((0, 0)).is_ok(), true);
    assert_eq!(minefield.get_adjacent_blocks_at_coord((2, 0)).is_ok(), true);
    assert_eq!(minefield.get_adjacent_blocks_at_coord((2, 2)).is_ok(), true);
    assert_eq!(minefield.get_adjacent_blocks_at_coord((1, 1)).is_ok(), true);
    assert_eq!(minefield.get_adjacent_blocks_at_coord((1, 0)).is_ok(), true);

    let mut adj_blocks = minefield.get_adjacent_blocks_at_coord((0, 0)).unwrap();
    assert_eq!(adj_blocks.len(), 3);
    assert_eq!(
        adj_blocks,
        vec![Block::new((0, 1)), Block::new((1, 0)), Block::new((1, 1))]
    );

    adj_blocks = minefield.get_adjacent_blocks_at_coord((1, 0)).unwrap();
    assert_eq!(adj_blocks.len(), 5);
    assert_eq!(
        adj_blocks,
        vec![
            Block::new((0, 0)),
            Block::new((0, 1)),
            Block::new((1, 1)),
            Block::new((2, 0)),
            Block::new((2, 1))
        ]
    );

    adj_blocks = minefield.get_adjacent_blocks_at_coord((1, 1)).unwrap();
    assert_eq!(adj_blocks.len(), 8);
    assert_eq!(
        adj_blocks,
        vec![
            Block::new((0, 0)),
            Block::new((0, 1)),
            Block::new((0, 2)),
            Block::new((1, 0)),
            Block::new((1, 2)),
            Block::new((2, 0)),
            Block::new((2, 1)),
            Block::new((2, 2))
        ]
    );

    adj_blocks = minefield.get_adjacent_blocks_at_coord((2, 2)).unwrap();
    assert_eq!(adj_blocks.len(), 3);
    assert_eq!(
        adj_blocks,
        vec![Block::new((1, 1)), Block::new((1, 2)), Block::new((2, 1))]
    );
}

#[test]
fn test_get_nof_adjacent_mine_at_coord() {
    let mut minefield = Minefield::new(8, 8);
    assert_eq!(
        minefield.get_nof_adjacent_mine_at_coord((5, 8)).err(),
        Some(MinefieldError::OutOfBound((5, 8)))
    );

    minefield.get_mut_block_at_coord((0, 0)).unwrap().set_mined(true);
    minefield.get_mut_block_at_coord((0, 1)).unwrap().set_mined(true);
    minefield.get_mut_block_at_coord((0, 2)).unwrap().set_mined(true);
    minefield.get_mut_block_at_coord((1, 0)).unwrap().set_mined(true);
    minefield.get_mut_block_at_coord((1, 2)).unwrap().set_mined(true);
    minefield.get_mut_block_at_coord((2, 0)).unwrap().set_mined(true);
    minefield.get_mut_block_at_coord((2, 1)).unwrap().set_mined(true);
    minefield.get_mut_block_at_coord((2, 2)).unwrap().set_mined(true);
    minefield.get_mut_block_at_coord((4, 0)).unwrap().set_mined(true);
    minefield.get_mut_block_at_coord((4, 5)).unwrap().set_mined(true);
    minefield.get_mut_block_at_coord((4, 6)).unwrap().set_mined(true);
    minefield.get_mut_block_at_coord((7, 3)).unwrap().set_mined(true);

    assert_eq!(minefield.get_nof_adjacent_mine_at_coord((1, 1)).is_ok(), true);
    assert_eq!(minefield.get_nof_adjacent_mine_at_coord((1, 1)).unwrap(), 8);
    assert_eq!(minefield.get_nof_adjacent_mine_at_coord((6, 6)).is_ok(), true);
    assert_eq!(minefield.get_nof_adjacent_mine_at_coord((6, 6)).unwrap(), 0);
    assert_eq!(minefield.get_nof_adjacent_mine_at_coord((7, 7)).is_ok(), true);
    assert_eq!(minefield.get_nof_adjacent_mine_at_coord((7, 7)).unwrap(), 0);
    assert_eq!(minefield.get_nof_adjacent_mine_at_coord((6, 7)).is_ok(), true);
    assert_eq!(minefield.get_nof_adjacent_mine_at_coord((6, 7)).unwrap(), 0);
    assert_eq!(minefield.get_nof_adjacent_mine_at_coord((3, 0)).is_ok(), true);
    assert_eq!(minefield.get_nof_adjacent_mine_at_coord((3, 0)).unwrap(), 3);
    assert_eq!(minefield.get_nof_adjacent_mine_at_coord((3, 1)).is_ok(), true);
    assert_eq!(minefield.get_nof_adjacent_mine_at_coord((3, 1)).unwrap(), 4);
    assert_eq!(minefield.get_nof_adjacent_mine_at_coord((3, 2)).is_ok(), true);
    assert_eq!(minefield.get_nof_adjacent_mine_at_coord((3, 2)).unwrap(), 2);
    assert_eq!(minefield.get_nof_adjacent_mine_at_coord((1, 4)).is_ok(), true);
    assert_eq!(minefield.get_nof_adjacent_mine_at_coord((1, 3)).unwrap(), 3);
    assert_eq!(minefield.get_nof_adjacent_mine_at_coord((3, 3)).is_ok(), true);
    assert_eq!(minefield.get_nof_adjacent_mine_at_coord((3, 4)).unwrap(), 1);
    assert_eq!(minefield.get_nof_adjacent_mine_at_coord((3, 5)).is_ok(), true);
    assert_eq!(minefield.get_nof_adjacent_mine_at_coord((3, 5)).unwrap(), 2);
    assert_eq!(minefield.get_nof_adjacent_mine_at_coord((0, 1)).is_ok(), true);
    assert_eq!(minefield.get_nof_adjacent_mine_at_coord((0, 1)).unwrap(), 4);
    assert_eq!(minefield.get_nof_adjacent_mine_at_coord((1, 0)).is_ok(), true);
    assert_eq!(minefield.get_nof_adjacent_mine_at_coord((1, 0)).unwrap(), 4);
    assert_eq!(minefield.get_nof_adjacent_mine_at_coord((0, 0)).is_ok(), true);
    assert_eq!(minefield.get_nof_adjacent_mine_at_coord((0, 0)).unwrap(), 2);
}
