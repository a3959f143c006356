use connect_mcts::board::Board;
use connect_mcts::bot::{Bot, MctsBot, RandomBot};
use connect_mcts::player::Player;

#[test]
fn test_player_is_bot() {
    assert!(!Player::Human.is_bot());
    assert!(Player::RandomBot.is_bot());
    assert!(Player::MctsBot.is_bot());
}

#[test]
fn test_random_bot_single_column() {
    let mut b = Board::new();
    for col in 0..6 {
        for i in 0..6 {
            let p = if (col + i) % 2 == 0 { 1 } else { 2 };
            assert!(b.make_move(col, p).is_some());
        }
    }
    // Only column 6 is playable, so the random chooser must return it.
    let bot = RandomBot;
    for _ in 0..10 {
        assert_eq!(bot.make_move(&b, 1), Some(6));
    }
}

#[test]
fn test_random_bot_full_board() {
    let mut b = Board::new();
    for col in 0..7 {
        for i in 0..6 {
            let p = if (col + i) % 2 == 0 { 1 } else { 2 };
            assert!(b.make_move(col, p).is_some());
        }
    }
    assert_eq!(RandomBot.make_move(&b, 1), None);
}

#[test]
fn test_random_bot_returns_playable() {
    let b = Board::new();
    let mv = RandomBot.make_move(&b, 2).unwrap();
    assert!(b.can_play_column(mv));
}

#[test]
fn test_mcts_bot_takes_win() {
    let mut b = Board::new();
    b.make_move(0, 1);
    b.make_move(1, 1);
    b.make_move(2, 1);
    b.make_move(6, 2);
    b.make_move(6, 2);
    let bot = MctsBot::new(100);
    assert_eq!(bot.make_move(&b, 1), Some(3));
}

#[test]
fn test_mcts_bot_full_board() {
    let mut b = Board::new();
    for col in 0..7 {
        for i in 0..6 {
            let p = if (col + i) % 2 == 0 { 1 } else { 2 };
            assert!(b.make_move(col, p).is_some());
        }
    }
    let bot = MctsBot::new(10);
    assert_eq!(bot.make_move(&b, 1), None);
}
