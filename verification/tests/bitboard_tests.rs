use connect_mcts::bitboard::{generate_mask_counts, generate_winning_masks, BitBoard};

#[test]
fn test_new_board() {
    let board = BitBoard::new();
    assert_eq!(board.current, 0);
    assert_eq!(board.opponent, 0);
    assert_eq!(board.heights, [0; 7]);
}

#[test]
fn test_valid_moves() {
    let mut board = BitBoard::new();
    assert!(board.is_valid_move(0));

    // Fill up column 0
    for _ in 0..6 {
        assert!(board.make_move(0));
    }

    // Column should now be full
    assert!(!board.is_valid_move(0));
}

#[test]
fn test_horizontal_win() {
    let mut board = BitBoard::new();

    // Player 1: 0, 1, 2; player 2: 6, 6, 6
    board.make_move(0);
    board.make_move(6);
    board.make_move(1);
    board.make_move(6);
    board.make_move(2);
    board.make_move(6);

    // Test winning move for player 1
    assert!(board.is_winning_move(3));
}

#[test]
fn test_vertical_win() {
    let mut board = BitBoard::new();

    // Player 1: 0, 0, 0; player 2: 1, 1, 1
    board.make_move(0);
    board.make_move(1);
    board.make_move(0);
    board.make_move(1);
    board.make_move(0);
    board.make_move(1);

    // Test winning move for player 1
    assert!(board.is_winning_move(0));
}

#[test]
fn test_winning_mask_counts() {
    let counts = generate_mask_counts();

    // Corners: one window per direction that fits
    assert_eq!(counts[0], 3);
    assert_eq!(counts[6], 3);
    assert_eq!(counts[35], 3);
    assert_eq!(counts[41], 3);

    // Central position (3, 3) lies on the maximum number of windows
    let center_pos = 3 * 7 + 3;
    assert_eq!(counts[center_pos], 13);
}

#[test]
fn test_no_false_winning_moves() {
    let mut board = BitBoard::new();
    board.make_move(0);
    board.make_move(6);
    board.make_move(1);
    board.make_move(6);
    board.make_move(2);
    board.make_move(6);

    // Only column 3 completes four in a row for player 1
    assert!(board.is_winning_move(3));
    assert!(!board.is_winning_move(0));
    assert!(!board.is_winning_move(1));
    assert!(!board.is_winning_move(2));
    assert!(!board.is_winning_move(4));
    assert!(!board.is_winning_move(5));
    assert!(!board.is_winning_move(6));
}

#[test]
fn test_is_winning_move_does_not_mutate() {
    let mut board = BitBoard::new();
    board.make_move(0);
    board.make_move(1);
    board.make_move(0);
    board.make_move(1);
    board.make_move(0);
    board.make_move(1);

    let before = (board.current, board.opponent, board.heights);
    let first = board.is_winning_move(0);
    let after = (board.current, board.opponent, board.heights);
    assert_eq!(before, after);
    assert_eq!(first, board.is_winning_move(0));
}

#[test]
fn test_masks_disjoint_and_heights_count() {
    let mut board = BitBoard::new();
    let moves = [3, 3, 4, 2, 3, 0];
    for &m in moves.iter() {
        assert!(board.make_move(m));
        assert_eq!(board.current & board.opponent, 0);
    }
    assert_eq!(board.heights, [1, 0, 1, 3, 1, 0, 0]);
    let stones = board.current | board.opponent;
    assert_eq!(stones.count_ones(), 6);
}

#[test]
fn test_make_move_full_column_rejected() {
    let mut board = BitBoard::new();
    for _ in 0..6 {
        assert!(board.make_move(5));
    }
    let before = (board.current, board.opponent, board.heights);
    assert!(!board.make_move(5));
    let after = (board.current, board.opponent, board.heights);
    assert_eq!(before, after);
}

#[test]
fn test_valid_moves_excludes_full_column() {
    let mut board = BitBoard::new();
    for _ in 0..6 {
        assert!(board.make_move(0));
    }
    assert_eq!(board.get_valid_moves(), vec![1, 2, 3, 4, 5, 6]);
}

#[test]
fn test_is_full() {
    let mut board = BitBoard::new();
    assert!(!board.is_full());
    for col in 0..7 {
        for _ in 0..6 {
            assert!(board.make_move(col));
        }
    }
    assert!(board.is_full());
    assert_eq!(board.get_valid_moves(), Vec::<usize>::new());
}

#[test]
fn test_winning_mask_table_entries() {
    let table = generate_winning_masks();
    assert_eq!(table.len(), 42);
    // Windows through the bottom-left corner: one horizontal, one vertical,
    // one rising diagonal, then zero padding.
    assert_eq!(table[0][0], 0b1111u64);
    assert_eq!(table[0][1], 2113665u64);
    assert_eq!(table[0][2], 16843009u64);
    assert_eq!(table[0][3], 0);
}

#[test]
fn test_diagonal_win() {
    let mut board = BitBoard::new();
    // Player 1 builds the rising diagonal (0,0), (1,1), (2,2)
    board.make_move(0); // p1 (0,0)
    board.make_move(1); // p2 (0,1)
    board.make_move(1); // p1 (1,1)
    board.make_move(2); // p2 (0,2)
    board.make_move(2); // p1 (1,2)
    board.make_move(3); // p2 (0,3)
    board.make_move(2); // p1 (2,2)
    board.make_move(3); // p2 (1,3)
    // Player 1 to move: dropping in column 3 lands on (2,3)? No: height is 2,
    // so it lands on row 2 -- not yet the diagonal. One more exchange:
    board.make_move(3); // p1 (2,3)
    board.make_move(6); // p2 (0,6)
    // Now column 3 has height 3: player 1 dropping there lands on (3,3),
    // completing (0,0)-(1,1)-(2,2)-(3,3).
    assert!(board.is_winning_move(3));
}
