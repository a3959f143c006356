//! The search driver: fans independent worker trees out across a thread
//! pool, runs a fixed iteration budget in each, merges the per-move visit
//! counts, and picks the most-visited playable column; a position with an
//! immediate winning move is decided without searching.

pub mod node;

use vstd::prelude::*;
use crate::bitboard::BitBoard;
use crate::mcts::node::{Node, RootNode, action_visits, child_sum, iterate, lemma_visits_for_nonneg, lemma_visits_for_push, lemma_visits_for_update, visits_for};
use rayon::iter::IntoParallelIterator;
use rayon::iter::ParallelIterator;

verus! {

/// Grows one worker's private tree: `iterations` search iterations from a
/// fresh root at `board`, each backing up `n_simulations` playouts. The
/// returned tree's root-level children carry exactly
/// `iterations * n_simulations` visits in total.
pub fn search_worker(board: &BitBoard, iterations: u32, n_simulations: u32, c_milli: u64) -> (root:
    Node)
    requires
        board.inv(),
        exists|c: int| board.legal(c),
        1 <= n_simulations,
        1 <= iterations,
        iterations as int * n_simulations as int <= i32::MAX as int,
        c_milli <= 1_000_000,
    ensures
        root.wf(),
        root.board == *board,
        child_sum(root.children@) == iterations as int * n_simulations as int,
        iterations >= 7 ==> forall|a: int|
            #[trigger] board.legal(a) ==> visits_for(root.children@, a) >= n_simulations as int,
{
    let mut root = Node::new(*board, None, None, true);
    let ghost l0 = root.untried_moves@.len() as int;
    let mut k: u32 = 0;
    while k < iterations
        invariant
            root.wf(),
            root.board == *board,
            board.inv(),
            exists|c: int| board.legal(c),
            root.result is None,
            1 <= n_simulations,
            k <= iterations,
            iterations as int * n_simulations as int <= i32::MAX as int,
            c_milli <= 1_000_000,
            root.visits as int == k as int * n_simulations as int,
            child_sum(root.children@) == k as int * n_simulations as int,
            0 <= l0 <= 7,
            root.untried_moves@.len() as int == (if l0 - k as int >= 0 {
                l0 - k as int
            } else {
                0int
            }),
            forall|a: int|
                #[trigger] board.legal(a) ==> (root.untried_moves@.contains(a as usize)
                    || visits_for(root.children@, a) >= n_simulations as int),
        decreases iterations - k,
    {
        proof {
            assert((k as int + 1) * n_simulations as int <= iterations as int
                * n_simulations as int) by (nonlinear_arith)
                requires
                    k as int + 1 <= iterations as int,
                    n_simulations as int >= 1,
            ;
            assert((k as int + 1) * n_simulations as int == k as int * n_simulations as int
                + n_simulations as int) by (nonlinear_arith);
        }
        let ghost pre = root;
        let _reward = iterate(&mut root, c_milli, n_simulations);
        proof {
            if pre.untried_moves@.len() > 0 {
                let ch = root.children@.last();
                let a0 = ch.action->0;
                assert forall|a: int| #[trigger] board.legal(a) implies (
                root.untried_moves@.contains(a as usize) || visits_for(root.children@, a)
                    >= n_simulations as int) by {
                    lemma_visits_for_push(pre.children@, ch, a);
                    lemma_visits_for_nonneg(pre.children@, a);
                    assert(visits_for(root.children@, a) == visits_for(pre.children@, a)
                        + action_visits(ch, a));
                    if a == a0 as int {
                        assert(action_visits(ch, a) == n_simulations as int);
                    } else {
                        if pre.untried_moves@.contains(a as usize) {
                            assert(root.untried_moves@.contains(a as usize));
                        }
                    }
                }
            } else if pre.children@.len() == 0 {
                let w = choose|c: int| board.legal(c);
                assert(pre.untried_moves@.contains(w as usize) || visits_for(pre.children@, w)
                    >= n_simulations as int);
                assert(false);
            } else {
                let i = choose|i: int|
                    {
                        &&& 0 <= i < pre.children@.len()
                        &&& #[trigger] root.children@ =~= pre.children@.update(
                            i,
                            root.children@[i],
                        )
                        &&& root.children@[i].visits == pre.children@[i].visits + n_simulations
                        &&& root.children@[i].action == pre.children@[i].action
                    };
                assert forall|a: int| #[trigger] board.legal(a) implies (
                root.untried_moves@.contains(a as usize) || visits_for(root.children@, a)
                    >= n_simulations as int) by {
                    lemma_visits_for_update(pre.children@, i, root.children@[i], a);
                    assert(action_visits(root.children@[i], a) >= action_visits(
                        pre.children@[i],
                        a,
                    ));
                    assert(visits_for(root.children@, a) >= visits_for(pre.children@, a));
                    assert(pre.untried_moves@.contains(a as usize) || visits_for(pre.children@, a)
                        >= n_simulations as int);
                }
            }
        }
        k = k + 1;
    }
    proof {
        if iterations >= 7 {
            assert(root.untried_moves@.len() == 0);
            assert forall|a: int| #[trigger] board.legal(a) implies visits_for(
                root.children@,
                a,
            ) >= n_simulations as int by {
                assert(!root.untried_moves@.contains(a as usize));
            }
        }
    }
    root
}

/// Runs `n_workers` independent workers over the same position.
///
/// Relies on rayon's into_par_iter, map and collect: the collected vector
/// holds, in order, the closure's result for each of the `n_workers` inputs;
/// the closure only calls the verified `search_worker`, so each element meets
/// that function's postconditions.
#[verifier::external_body]
fn run_workers(
    board: &BitBoard,
    n_workers: usize,
    iterations: u32,
    n_simulations: u32,
    c_milli: u64,
) -> (r: Vec<Node>)
    requires
        board.inv(),
        exists|c: int| board.legal(c),
        1 <= n_simulations,
        1 <= iterations,
        iterations as int * n_simulations as int <= i32::MAX as int,
        c_milli <= 1_000_000,
    ensures
        r@.len() == n_workers,
        forall|i: int|
            0 <= i < r@.len() ==> {
                let t = #[trigger] r@[i];
                &&& t.wf()
                &&& t.board == *board
                &&& child_sum(t.children@) == iterations as int * n_simulations as int
                &&& (iterations >= 7 ==> forall|a: int|
                    #[trigger] board.legal(a) ==> visits_for(t.children@, a)
                        >= n_simulations as int)
            },
{
    (0..n_workers).into_par_iter().map(
        |_| search_worker(board, iterations, n_simulations, c_milli),
    ).collect()
}

/// Configuration of one search: the exploration constant in thousandths,
/// the worker count, the per-worker iteration budget, and the number of
/// playouts per expanded leaf.
pub struct MCTS {
    exploration_milli: u64,
    num_threads: usize,
    iterations: u32,
    n_simulations: u32,
}

impl MCTS {
    #[verifier::type_invariant]
    spec fn config_ok(self) -> bool {
        &&& 1 <= self.num_threads
        &&& 1 <= self.iterations
        &&& 1 <= self.n_simulations
        &&& self.exploration_milli <= 1_000_000
        &&& self.num_threads as int * self.iterations as int * self.n_simulations as int
            <= i32::MAX as int
    }

    pub closed spec fn exploration_milli_spec(self) -> u64 {
        self.exploration_milli
    }

    pub closed spec fn num_threads_spec(self) -> usize {
        self.num_threads
    }

    pub closed spec fn iterations_spec(self) -> u32 {
        self.iterations
    }

    pub closed spec fn n_simulations_spec(self) -> u32 {
        self.n_simulations
    }

    /// Total simulation budget of one search call.
    pub open spec fn total_budget(self) -> int {
        self.num_threads_spec() as int * self.iterations_spec() as int
            * self.n_simulations_spec() as int
    }

    pub fn new(exploration_milli: u64, num_threads: usize, iterations: u32, n_simulations: u32) -> (
        r: MCTS)
        requires
            1 <= num_threads,
            1 <= iterations,
            1 <= n_simulations,
            exploration_milli <= 1_000_000,
            num_threads as int * iterations as int * n_simulations as int <= i32::MAX as int,
        ensures
            r.exploration_milli_spec() == exploration_milli,
            r.num_threads_spec() == num_threads,
            r.iterations_spec() == iterations,
            r.n_simulations_spec() == n_simulations,
    {
        MCTS { exploration_milli, num_threads, iterations, n_simulations }
    }

    /// Runs the full parallel search and returns the merged aggregator: its
    /// per-move tallies sum to exactly `workers * iterations * playouts`.
    pub fn run_search(&self, board: BitBoard) -> (root: RootNode)
        requires
            board.inv(),
            exists|c: int| board.legal(c),
        ensures
            root.inv(),
            root.board == board,
            root.tally_total() == self.total_budget(),
            self.iterations_spec() >= 7 ==> forall|a: int|
                #[trigger] board.legal(a) ==> root.move_visits[a] as int
                    >= self.n_simulations_spec() as int,
    {
        proof {
            use_type_invariant(self);
        }
        let mut root = RootNode::new(board);
        proof {
            assert(self.iterations_spec() as int * self.n_simulations_spec() as int
                <= self.num_threads_spec() as int * self.iterations_spec() as int
                * self.n_simulations_spec() as int) by (nonlinear_arith)
                requires
                    self.num_threads_spec() as int >= 1,
                    self.iterations_spec() as int >= 1,
                    self.n_simulations_spec() as int >= 1,
            ;
        }
        let trees = run_workers(
            &board,
            self.num_threads,
            self.iterations,
            self.n_simulations,
            self.exploration_milli,
        );
        let ghost per_worker = self.iterations as int * self.n_simulations as int;
        let mut i: usize = 0;
        while i < trees.len()
            invariant
                trees@.len() == self.num_threads_spec(),
                self.config_ok(),
                per_worker == self.iterations_spec() as int * self.n_simulations_spec() as int,
                forall|j: int|
                    0 <= j < trees@.len() ==> {
                        let t = #[trigger] trees@[j];
                        &&& t.wf()
                        &&& t.board == board
                        &&& child_sum(t.children@) == per_worker
                        &&& (self.iterations_spec() >= 7 ==> forall|a: int|
                            #[trigger] board.legal(a) ==> visits_for(t.children@, a)
                                >= self.n_simulations_spec() as int)
                    },
                i <= trees@.len(),
                root.inv(),
                root.board == board,
                root.tally_total() == i as int * per_worker,
                (self.iterations_spec() >= 7 && i >= 1) ==> forall|a: int|
                    #[trigger] board.legal(a) ==> root.move_visits[a] as int
                        >= self.n_simulations_spec() as int,
            decreases trees@.len() - i,
        {
            proof {
                assert((i as int + 1) * per_worker == i as int * per_worker + per_worker)
                    by (nonlinear_arith);
                assert((i as int + 1) * per_worker <= self.num_threads_spec() as int * per_worker)
                    by (nonlinear_arith)
                    requires
                        i as int + 1 <= self.num_threads_spec() as int,
                        per_worker >= 0,
                ;
                assert(self.num_threads_spec() as int * per_worker == self.total_budget())
                    by (nonlinear_arith)
                    requires
                        per_worker == self.iterations_spec() as int
                            * self.n_simulations_spec() as int,
                ;
                assert(trees@[i as int].wf());
            }
            root.merge_thread_results(&trees[i]);
            i = i + 1;
        }
        proof {
            assert(root.tally_total() == self.num_threads_spec() as int * per_worker);
            assert(self.num_threads_spec() as int * per_worker == self.total_budget())
                by (nonlinear_arith)
                requires
                    per_worker == self.iterations_spec() as int * self.n_simulations_spec() as int,
            ;
        }
        root
    }

    /// Chooses a column for the player to move in `board`: an immediately
    /// winning column when one exists (the lowest such), else the playable
    /// column whose merged visit count is highest (the lowest on a tie).
    pub fn search(&self, board: BitBoard) -> (mv: usize)
        requires
            board.inv(),
            exists|c: int| board.legal(c),
        ensures
            board.legal(mv as int),
            (exists|c: int| board.legal(c) && board.would_win(c)) ==> board.would_win(mv as int)
                && (forall|c: int| board.legal(c) && board.would_win(c) ==> mv <= c),
    {
        let mut c: usize = 0;
        while c < 7
            invariant
                c <= 7,
                board.inv(),
                forall|k: int| 0 <= k < c ==> !(board.legal(k) && #[trigger] board.would_win(k)),
            decreases 7 - c,
        {
            if board.heights[c] < 6 {
                if board.is_winning_move(c) {
                    return c;
                }
            }
            proof {
                assert(!(board.legal(c as int) && board.would_win(c as int)));
            }
            c = c + 1;
        }
        let root = self.run_search(board);
        root.get_best_move()
    }
}

} // verus!
