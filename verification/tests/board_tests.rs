use connect_mcts::bitboard::BitBoard;
use connect_mcts::board::Board;

#[test]
fn test_board_new_and_play() {
    let mut b = Board::new();
    assert!(b.can_play_column(3));
    assert!(!b.is_full());
    assert_eq!(b.make_move(3, 1), Some((0, 3)));
    assert_eq!(b.get_player_number(0, 3), 1);
    assert_eq!(b.make_move(3, 2), Some((1, 3)));
    assert_eq!(b.get_player_number(1, 3), 2);
}

#[test]
fn test_board_full_column() {
    let mut b = Board::new();
    for i in 0..6 {
        let p = if i % 2 == 0 { 1 } else { 2 };
        assert!(b.make_move(0, p).is_some());
    }
    assert!(!b.can_play_column(0));
    assert_eq!(b.make_move(0, 1), None);
}

#[test]
fn test_board_check_win_row() {
    let mut b = Board::new();
    for col in 0..4 {
        b.make_move(col, 1);
    }
    assert!(b.check_win(0, 0));
    assert!(b.check_win(0, 3));
    assert!(!b.check_win(1, 0));
}

#[test]
fn test_board_check_win_column_and_diagonal() {
    let mut b = Board::new();
    for _ in 0..4 {
        b.make_move(2, 2);
    }
    assert!(b.check_win(3, 2));

    let mut d = Board::new();
    // Rising diagonal of player 1 from (0,0) to (3,3)
    d.make_move(0, 1);
    d.make_move(1, 2);
    d.make_move(1, 1);
    d.make_move(2, 2);
    d.make_move(2, 2);
    d.make_move(2, 1);
    d.make_move(3, 2);
    d.make_move(3, 2);
    d.make_move(3, 2);
    d.make_move(3, 1);
    assert!(d.check_win(3, 3));
    assert!(d.check_win(0, 0));
}

#[test]
fn test_board_no_win_when_empty_cell() {
    let b = Board::new();
    assert!(!b.check_win(0, 0));
}

#[test]
fn test_board_is_full() {
    let mut b = Board::new();
    for col in 0..7 {
        for i in 0..6 {
            let p = if (col + i) % 2 == 0 { 1 } else { 2 };
            assert!(b.make_move(col, p).is_some());
        }
    }
    assert!(b.is_full());
}

#[test]
fn test_from_board_encoding() {
    let mut b = Board::new();
    b.make_move(2, 1);
    b.make_move(2, 2);
    b.make_move(5, 2);
    let bb = BitBoard::from_board(&b, 1);
    assert_eq!(bb.current, 1u64 << 2);
    assert_eq!(bb.opponent, (1u64 << 9) | (1u64 << 5));
    assert_eq!(bb.heights, [0, 0, 2, 0, 0, 1, 0]);

    // The same position seen by player 2 swaps the two masks.
    let bb2 = BitBoard::from_board(&b, 2);
    assert_eq!(bb2.current, (1u64 << 9) | (1u64 << 5));
    assert_eq!(bb2.opponent, 1u64 << 2);
}
