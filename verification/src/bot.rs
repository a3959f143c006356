//! The move-chooser capability: given the rules engine's board and the
//! identity of the player to move, return a playable column, or nothing when
//! the board is full. A uniform-random chooser and the tree-search chooser
//! both satisfy it.

use vstd::prelude::*;
use crate::bitboard::BitBoard;
use crate::board::Board;
use crate::mcts::MCTS;

verus! {

/// A move chooser: answers None exactly when no column can take a stone,
/// and otherwise a column that can.
pub trait Bot {
    fn make_move(&self, board: &Board, player_number: u8) -> (r: Option<usize>)
        requires
            board.inv(),
            player_number == 1 || player_number == 2,
        ensures
            (r is Some) == (exists|c: int| 0 <= c < 7 && board.can_play_spec(c)),
            r matches Some(c) ==> board.can_play_spec(c as int),
    ;
}

/// Draws a uniformly random index below `n`.
///
/// Relies on rand::random_range: a value drawn from the half-open range
/// below `n`, which is non-empty since `n >= 1`.
#[verifier::external_body]
fn rand_below(n: usize) -> (r: usize)
    requires
        n >= 1,
    ensures
        r < n,
{
    rand::random_range(0..n)
}

/// Chooses uniformly at random among the playable columns.
pub struct RandomBot;

impl Bot for RandomBot {
    fn make_move(&self, board: &Board, _player_number: u8) -> (r: Option<usize>) {
        let mut valid_cols: Vec<usize> = Vec::new();
        let mut col: usize = 0;
        while col < 7
            invariant
                col <= 7,
                forall|i: int|
                    0 <= i < valid_cols@.len() ==> board.can_play_spec(
                        #[trigger] valid_cols@[i] as int,
                    ),
                forall|k: int|
                    0 <= k < col && #[trigger] board.can_play_spec(k) ==> valid_cols@.contains(
                        k as usize,
                    ),
            decreases 7 - col,
        {
            if board.can_play_column(col) {
                let ghost pre = valid_cols@;
                valid_cols.push(col);
                proof {
                    assert forall|k: int|
                        0 <= k < col + 1 && #[trigger] board.can_play_spec(
                            k,
                        ) implies valid_cols@.contains(k as usize) by {
                        if k < col {
                            let i = choose|i: int|
                                0 <= i < pre.len() && #[trigger] pre[i] == k as usize;
                            assert(valid_cols@[i] == k as usize);
                        } else {
                            assert(valid_cols@[valid_cols@.len() - 1] == col);
                        }
                    }
                }
            }
            col = col + 1;
        }
        if valid_cols.len() == 0 {
            proof {
                if exists|c: int| 0 <= c < 7 && board.can_play_spec(c) {
                    let w = choose|c: int| 0 <= c < 7 && board.can_play_spec(c);
                    assert(valid_cols@.contains(w as usize));
                }
            }
            None
        } else {
            let i = rand_below(valid_cols.len());
            let c = valid_cols[i];
            Some(c)
        }
    }
}

/// Chooses through the tree search, after encoding the board from the moving
/// player's perspective.
pub struct MctsBot {
    mcts: MCTS,
}

impl MctsBot {
    /// The search configuration this chooser runs with.
    pub closed spec fn config(self) -> MCTS {
        self.mcts
    }

    /// A chooser with four workers, ten playouts per leaf, an exploration
    /// constant of 1.414, and the given per-worker iteration budget.
    pub fn new(iterations: u32) -> (r: MctsBot)
        requires
            1 <= iterations <= 5_000_000,
        ensures
            r.config().exploration_milli_spec() == 1414,
            r.config().num_threads_spec() == 4,
            r.config().iterations_spec() == iterations,
            r.config().n_simulations_spec() == 10,
    {
        MctsBot { mcts: MCTS::new(1414, 4, iterations, 10) }
    }
}

impl Bot for MctsBot {
    fn make_move(&self, board: &Board, player_number: u8) -> (r: Option<usize>) {
        let bb = BitBoard::from_board(board, player_number);
        proof {
            assert forall|c: int| 0 <= c < 7 implies (#[trigger] board.can_play_spec(c)
                == bb.legal(c)) by {
                crate::board::lemma_can_play_height(*board, c);
            }
        }
        if bb.is_full() {
            proof {
                if exists|c: int| 0 <= c < 7 && board.can_play_spec(c) {
                    let w = choose|c: int| 0 <= c < 7 && board.can_play_spec(c);
                    assert(bb.legal(w));
                }
            }
            return None;
        }
        proof {
            let w = choose|c: int| 0 <= c < 7 && bb.heights[c] < 6;
            assert(bb.legal(w));
            assert(board.can_play_spec(w));
        }
        let mv = self.mcts.search(bb);
        Some(mv)
    }
}

} // verus!
