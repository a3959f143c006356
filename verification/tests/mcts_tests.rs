use connect_mcts::bitboard::BitBoard;
use connect_mcts::mcts::node::{Node, RootNode};
use connect_mcts::mcts::{search_worker, MCTS};

#[test]
fn test_mcts_finds_winning_moves() {
    let mcts = MCTS::new(1414, 4, 1000, 10);

    // Horizontal win
    let mut board = BitBoard::new();
    board.make_move(0); // Player 1
    board.make_move(6); // Player 2
    board.make_move(1); // Player 1
    board.make_move(6); // Player 2
    board.make_move(2); // Player 1
    board.make_move(6); // Player 2

    let best_move = mcts.search(board);
    assert_eq!(best_move, 3, "Failed to find horizontal winning move");

    // Vertical win
    let mut board = BitBoard::new();
    board.make_move(0); // Player 1
    board.make_move(1); // Player 2
    board.make_move(0); // Player 1
    board.make_move(1); // Player 2
    board.make_move(0); // Player 1
    board.make_move(1); // Player 2

    let best_move = mcts.search(board);
    assert_eq!(best_move, 0, "Failed to find vertical winning move");

    // Diagonal win
    let mut board = BitBoard::new();
    board.make_move(0); // Player 1
    board.make_move(1); // Player 2
    board.make_move(1); // Player 1
    board.make_move(2); // Player 2
    board.make_move(2); // Player 1
    board.make_move(3); // Player 2
    board.make_move(2); // Player 1
    board.make_move(3); // Player 2
    board.make_move(3); // Player 1
    board.make_move(6); // Player 2

    let best_move = mcts.search(board);
    assert_eq!(best_move, 3, "Failed to find diagonal winning move");
}

#[test]
fn test_mcts_blocks_opponent_win() {
    let mcts = MCTS::new(1414, 4, 2000, 10);
    let mut board = BitBoard::new();
    board.make_move(5); // Player 1
    board.make_move(0); // Player 2
    board.make_move(6); // Player 1
    board.make_move(0); // Player 2
    board.make_move(6); // Player 1
    board.make_move(0); // Player 2

    let best_move = mcts.search(board);
    assert_eq!(best_move, 0, "Failed to find blocking move");
}

#[test]
fn test_merged_visits_equal_budget() {
    let mcts = MCTS::new(1414, 3, 50, 2);
    let board = BitBoard::new();
    let root = mcts.run_search(board);
    assert_eq!(root.get_total_visits(), 3 * 50 * 2);
    // With at least seven iterations per worker, every playable column has
    // been visited at least once per playout batch.
    for col in 0..7 {
        assert!(root.move_visits[col] >= 2);
    }
}

#[test]
fn test_search_worker_visit_totals() {
    let board = BitBoard::new();
    let root = search_worker(&board, 40, 5, 1414);
    assert_eq!(root.visits, 200);
    let child_total: u32 = root.children.iter().map(|c| c.visits).sum();
    assert_eq!(child_total, 200);
}

#[test]
fn test_root_node_merge_and_best_move() {
    let board = BitBoard::new();
    let mut root = RootNode::new(board);
    assert_eq!(root.get_total_visits(), 0);

    let mut tree = root.create_thread_tree();
    let mut more = BitBoard::new();
    more.make_move(4);
    let mut child = Node::new(more, Some(4), None, false);
    child.update(3, 9);
    tree.children.push(child);
    root.merge_thread_results(&tree);
    assert_eq!(root.get_total_visits(), 9);
    assert_eq!(root.get_best_move(), 4);
}

#[test]
fn test_best_move_lowest_on_tie() {
    let board = BitBoard::new();
    let root = RootNode::new(board);
    // All tallies are zero: the lowest playable column wins the tie.
    assert_eq!(root.get_best_move(), 0);
}

#[test]
fn test_node_bookkeeping() {
    let board = BitBoard::new();
    let mut n = Node::new(board, None, None, true);
    assert!(!n.is_terminal());
    assert!(!n.is_fully_expanded());
    n.update(-2, 5);
    n.update(1, 5);
    assert_eq!(n.visits, 10);
    assert_eq!(n.wins, -1);

    let t = Node::new(board, Some(3), Some(1), false);
    assert!(t.is_terminal());
}

#[test]
fn test_node_expand_marks_wins_terminal() {
    let mut board = BitBoard::new();
    board.make_move(0); // Player 1
    board.make_move(6); // Player 2
    board.make_move(1); // Player 1
    board.make_move(6); // Player 2
    board.make_move(2); // Player 1
    board.make_move(6); // Player 2

    let mut n = Node::new(board, None, None, true);
    let total = n.untried_moves.len();
    let mut saw_winning_child = false;
    for _ in 0..total {
        let idx = n.expand();
        let ch = &n.children[idx];
        if ch.action == Some(3) {
            // The move that completes four in a row is terminal at once,
            // scored +1 for the side that played it.
            assert_eq!(ch.result, Some(1));
            saw_winning_child = true;
        }
    }
    assert!(n.is_fully_expanded());
    assert!(saw_winning_child);
}

#[test]
fn test_ucb1_scores() {
    let board = BitBoard::new();
    let mut parent = Node::new(board, None, None, true);
    parent.update(0, 8);

    let mut b2 = BitBoard::new();
    b2.make_move(0);
    let mut child = Node::new(b2, Some(0), None, false);

    // An unvisited child is always picked first.
    assert_eq!(parent.ucb1(&child, 1414), u64::MAX);

    child.update(1, 1);
    assert_eq!(parent.ucb1(&child, 1414), 40387);

    // Seen from a minimizing parent the same child scores lower.
    let mut min_parent = Node::new(board, None, None, false);
    min_parent.update(0, 8);
    assert_eq!(min_parent.ucb1(&child, 1414), 20387);
}

#[test]
fn test_get_best_child_index_tie_break() {
    let board = BitBoard::new();
    let mut parent = Node::new(board, None, None, true);
    parent.update(0, 4);
    // Children inserted out of column order, all with equal statistics.
    for col in [2usize, 0, 1] {
        let mut b2 = BitBoard::new();
        b2.make_move(col);
        let mut ch = Node::new(b2, Some(col), None, false);
        ch.update(0, 1);
        parent.children.push(ch);
    }
    // Equal scores: the child playing the lowest column wins the tie,
    // whatever its insertion position.
    let idx = parent.get_best_child_index(1414);
    assert_eq!(idx, 1);
    assert_eq!(parent.children[idx].action, Some(0));
}

#[test]
fn test_simulate_bounded() {
    let board = BitBoard::new();
    let n = Node::new(board, None, None, true);
    let r = n.simulate(20);
    assert!(-20 <= r && r <= 20);
}
