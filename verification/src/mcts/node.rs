//! Search-tree nodes: UCB1 selection in fixed-point arithmetic, expansion
//! with immediate terminal detection, random playouts, and the root-level
//! move-to-visit-count aggregator that worker trees are merged into.

use vstd::prelude::*;
use crate::bitboard::BitBoard;

verus! {

broadcast use vstd::array::group_array_axioms;

/// Draws a uniformly random index below `n`.
///
/// Relies on fastrand::usize: a value drawn from the half-open range below
/// `n`, which is non-empty since `n >= 1`.
#[verifier::external_body]
fn random_below(n: usize) -> (r: usize)
    requires
        n >= 1,
    ensures
        r < n,
{
    fastrand::usize(..n)
}

/// Floor of the base-two logarithm; 0 below 2.
pub open spec fn spec_log2(n: int) -> int
    decreases n,
{
    if n <= 1 {
        0
    } else {
        1 + spec_log2(n / 2)
    }
}

pub open spec fn pow2(k: int) -> int
    decreases k,
{
    if k <= 0 {
        1
    } else {
        2 * pow2(k - 1)
    }
}

proof fn lemma_log2_nonneg(n: int)
    ensures
        spec_log2(n) >= 0,
    decreases n,
{
    if n > 1 {
        lemma_log2_nonneg(n / 2);
    }
}

proof fn lemma_log2_lt_pow(n: int, k: int)
    requires
        k >= 1,
        0 <= n,
        n < pow2(k),
    ensures
        spec_log2(n) <= k - 1,
    decreases k,
{
    if n > 1 {
        assert(pow2(k) == 2 * pow2(k - 1));
        lemma_log2_lt_pow(n / 2, k - 1);
    }
}

/// Integer square root: the largest `r` with `r * r <= n`.
pub open spec fn spec_isqrt(n: int) -> int
    decreases n,
{
    if n <= 0 {
        0
    } else {
        let r = spec_isqrt(n - 1);
        if (r + 1) * (r + 1) <= n {
            r + 1
        } else {
            r
        }
    }
}

proof fn lemma_isqrt_bounds(n: int)
    requires
        n >= 0,
    ensures
        spec_isqrt(n) >= 0,
        spec_isqrt(n) * spec_isqrt(n) <= n,
        (spec_isqrt(n) + 1) * (spec_isqrt(n) + 1) > n,
    decreases n,
{
    if n > 0 {
        lemma_isqrt_bounds(n - 1);
        let r = spec_isqrt(n - 1);
        if (r + 1) * (r + 1) <= n {
            assert((r + 2) * (r + 2) > n) by (nonlinear_arith)
                requires
                    (r + 1) * (r + 1) > n - 1,
                    (r + 1) * (r + 1) <= n,
                    r >= 0,
            ;
        }
    }
}

proof fn lemma_isqrt_unique(n: int, a: int)
    requires
        n >= 0,
        a >= 0,
        a * a <= n,
        (a + 1) * (a + 1) > n,
    ensures
        a == spec_isqrt(n),
{
    lemma_isqrt_bounds(n);
    let r = spec_isqrt(n);
    assert(a == r) by (nonlinear_arith)
        requires
            a >= 0,
            r >= 0,
            a * a <= n,
            (a + 1) * (a + 1) > n,
            r * r <= n,
            (r + 1) * (r + 1) > n,
    ;
}

/// Floor of the base-two logarithm of `n`.
fn log2_floor(n: u32) -> (r: u32)
    ensures
        r as int == spec_log2(n as int),
        r <= 31,
{
    proof {
        reveal_with_fuel(pow2, 34);
        assert(pow2(32) == 0x1_0000_0000);
        lemma_log2_lt_pow(n as int, 32);
    }
    let mut x = n;
    let mut r: u32 = 0;
    while x >= 2
        invariant
            spec_log2(n as int) == r + spec_log2(x as int),
            spec_log2(n as int) <= 31,
            r <= 31,
        decreases x,
    {
        proof {
            lemma_log2_nonneg(x as int / 2);
        }
        x = x / 2;
        r = r + 1;
    }
    r
}

/// Integer square root of `x`.
fn isqrt64(x: u64) -> (r: u64)
    ensures
        r as int == spec_isqrt(x as int),
{
    if x == 0 {
        return 0;
    }
    let mut lo: u64 = 0;
    let mut hi: u64 = 0x1_0000_0000;
    proof {
        assert((0x1_0000_0000u64 as int) * (0x1_0000_0000u64 as int) > x as int);
    }
    while hi - lo > 1
        invariant
            lo < hi,
            hi <= 0x1_0000_0000,
            (lo as int) * (lo as int) <= x as int,
            (hi as int) * (hi as int) > x as int,
        decreases hi - lo,
    {
        let mid = lo + (hi - lo) / 2;
        proof {
            assert(lo < mid < hi);
            assert((mid as int) * (mid as int) <= 0xFFFF_FFFFint * 0xFFFF_FFFFint)
                by (nonlinear_arith)
                requires
                    0 <= mid as int <= 0xFFFF_FFFFint,
            ;
        }
        if mid * mid <= x {
            lo = mid;
        } else {
            hi = mid;
        }
    }
    proof {
        lemma_isqrt_unique(x as int, lo as int);
    }
    lo
}

/// The UCB1 selection score in fixed-point arithmetic, scaled by 10000.
/// An unvisited child scores highest, forcing its first visit. Otherwise the
/// score adds an exploitation term, the child's shifted win ratio
/// `(signed wins + visits) / visits`, and an exploration bonus
/// `c * sqrt(ln(parent visits) / visits)` with `ln` approximated through the
/// base-two logarithm; `maximizing` says whether the selecting parent plays
/// the perspective side, and flips the sign of the win ratio when not.
pub open spec fn spec_score(
    maximizing: bool,
    parent_visits: u32,
    child_visits: u32,
    child_wins: i32,
    c_milli: u64,
) -> int {
    if child_visits == 0 {
        u64::MAX as int
    } else {
        let v = child_visits as int;
        let signed = if maximizing {
            child_wins as int
        } else {
            -(child_wins as int)
        };
        let exploit = (signed + v) * 10000 / v;
        let inner = (693 * spec_log2(parent_visits as int) * 10000 * 10000) / (1000
            * child_visits as int);
        let explore = (c_milli as int) * spec_isqrt(inner) / 1000;
        exploit + explore
    }
}

proof fn lemma_ascending_below7(s: Seq<usize>)
    requires
        forall|i: int, j: int| 0 <= i < j < s.len() ==> s[i] < s[j],
        forall|i: int| 0 <= i < s.len() ==> s[i] < 7,
    ensures
        s.len() <= 7,
{
    if s.len() >= 8 {
        assert(s[0] < s[1] && s[1] < s[2] && s[2] < s[3] && s[3] < s[4] && s[4] < s[5] && s[5]
            < s[6] && s[6] < s[7]);
        assert(s[7] < 7);
    }
}

/// One tree node: the position it stands for, its accumulated statistics,
/// the moves not yet expanded, and its children.
pub struct Node {
    pub board: BitBoard,
    pub visits: u32,
    pub wins: i32,
    pub action: Option<usize>,
    pub children: Vec<Node>,
    pub untried_moves: Vec<usize>,
    pub result: Option<i32>,
    /// True when the player to move in `board` is the perspective player, so
    /// that selection at this node maximizes the children's win ratios.
    pub maximizing: bool,
}

/// Sum of the direct children's visit counters.
pub open spec fn child_sum(s: Seq<Node>) -> int
    decreases s.len(),
{
    if s.len() == 0 {
        0
    } else {
        child_sum(s.drop_last()) + s.last().visits
    }
}

pub proof fn lemma_child_sum_nonneg(s: Seq<Node>)
    ensures
        child_sum(s) >= 0,
    decreases s.len(),
{
    if s.len() > 0 {
        lemma_child_sum_nonneg(s.drop_last());
    }
}

pub proof fn lemma_child_sum_push(s: Seq<Node>, n: Node)
    ensures
        child_sum(s.push(n)) == child_sum(s) + n.visits,
{
    assert(s.push(n).drop_last() =~= s);
    assert(s.push(n).last() == n);
}

pub proof fn lemma_child_sum_update(s: Seq<Node>, i: int, n: Node)
    requires
        0 <= i < s.len(),
    ensures
        child_sum(s.update(i, n)) == child_sum(s) - s[i].visits + n.visits,
    decreases s.len(),
{
    let t = s.update(i, n);
    if i == s.len() - 1 {
        assert(t.drop_last() =~= s.drop_last());
        assert(t.last() == n);
    } else {
        assert(t.drop_last() =~= s.drop_last().update(i, n));
        assert(t.last() == s.last());
        lemma_child_sum_update(s.drop_last(), i, n);
    }
}

pub proof fn lemma_child_sum_elem(s: Seq<Node>, i: int)
    requires
        0 <= i < s.len(),
    ensures
        s[i].visits <= child_sum(s),
    decreases s.len(),
{
    if i == s.len() - 1 {
        lemma_child_sum_nonneg(s.drop_last());
    } else {
        lemma_child_sum_elem(s.drop_last(), i);
    }
}

impl Node {
    /// Well-formed tree: boards are valid, untried moves are legal, counters
    /// are consistent (a node's reward magnitude never exceeds its visits and
    /// its children's visits sum to no more than its own), terminal results
    /// are signed game outcomes, and every child stands one legal move deeper
    /// with the scoring side flipped.
    pub open spec fn wf(self) -> bool
        decreases self,
    {
        &&& self.board.inv()
        &&& match self.result {
            Some(v) => -1 <= v <= 1,
            None => true,
        }
        &&& -(self.visits as int) <= self.wins as int <= self.visits as int
        &&& child_sum(self.children@) <= self.visits as int
        &&& forall|i: int|
            0 <= i < self.untried_moves@.len() ==> self.board.legal(
                #[trigger] self.untried_moves@[i] as int,
            )
        &&& forall|i: int, j: int|
            0 <= i < j < self.untried_moves@.len() ==> self.untried_moves@[i]
                != self.untried_moves@[j]
        &&& ((exists|c: int| self.board.legal(c)) ==> self.untried_moves@.len()
            + self.children@.len() > 0)
        &&& forall|i: int|
            0 <= i < self.children@.len() ==> {
                let ch = #[trigger] self.children@[i];
                &&& ch.wf()
                &&& ch.action matches Some(a) && self.board.legal(a as int) && ch.board
                    == self.board.moved(a as int)
                &&& ch.maximizing == !self.maximizing
            }
    }

    pub fn new(board: BitBoard, action: Option<usize>, result: Option<i32>, maximizing: bool) -> (n:
        Node)
        requires
            board.inv(),
            match result {
                Some(v) => -1 <= v <= 1,
                None => true,
            },
        ensures
            n.wf(),
            n.board == board,
            n.action == action,
            n.result == result,
            n.maximizing == maximizing,
            n.visits == 0,
            n.wins == 0int,
            n.children@.len() == 0,
            forall|c: int| 0 <= c < 7 ==> (board.legal(c) <==> n.untried_moves@.contains(c as usize)),
            n.untried_moves@.len() <= 7,
    {
        let untried_moves = board.get_valid_moves();
        let n = Node {
            board,
            visits: 0,
            wins: 0,
            action,
            children: Vec::new(),
            untried_moves,
            result,
            maximizing,
        };
        proof {
            assert forall|c: int| 0 <= c < 7 implies (board.legal(c)
                <==> n.untried_moves@.contains(c as usize)) by {
                if n.untried_moves@.contains(c as usize) {
                    let i = choose|i: int|
                        0 <= i < n.untried_moves@.len() && #[trigger] n.untried_moves@[i]
                            == c as usize;
                    assert(board.legal(n.untried_moves@[i] as int));
                }
            }
            if exists|c: int| board.legal(c) {
                let c = choose|c: int| board.legal(c);
                assert(n.untried_moves@.contains(c as usize));
            }
            lemma_ascending_below7(n.untried_moves@);
        }
        n
    }

    /// Adds one backpropagation step: `n_simulations` more visits carrying a
    /// summed reward of `wins`.
    pub fn update(&mut self, wins: i32, n_simulations: u32)
        requires
            old(self).visits + n_simulations <= i32::MAX as u32,
            -(n_simulations as int) <= wins as int <= n_simulations as int,
            -(old(self).visits as int) <= old(self).wins as int <= old(self).visits as int,
        ensures
            final(self).visits == old(self).visits + n_simulations,
            final(self).wins as int == old(self).wins as int + wins as int,
            final(self).board == old(self).board,
            final(self).action == old(self).action,
            final(self).result == old(self).result,
            final(self).maximizing == old(self).maximizing,
            final(self).children == old(self).children,
            final(self).untried_moves == old(self).untried_moves,
    {
        self.visits = self.visits + n_simulations;
        self.wins = self.wins + wins;
    }

    /// The UCB1 score of `child` as seen from this node, scaled by 10000.
    pub fn ucb1(&self, child: &Node, c_milli: u64) -> (s: u64)
        requires
            -(child.visits as int) <= child.wins as int <= child.visits as int,
            child.visits <= i32::MAX as u32,
            c_milli <= 1_000_000,
        ensures
            s as int == spec_score(self.maximizing, self.visits, child.visits, child.wins, c_milli),
    {
        if child.visits == 0 {
            return u64::MAX;
        }
        let v: u64 = child.visits as u64;
        let signed: i64 = if self.maximizing {
            child.wins as i64
        } else {
            -(child.wins as i64)
        };
        let num: u64 = (signed + v as i64) as u64;
        let exploit: u64 = num * 10000 / v;
        let lg: u32 = log2_floor(self.visits);
        let numerator: u64 = 693u64 * (lg as u64) * 10000 * 10000;
        let denominator: u64 = 1000 * (child.visits as u64);
        let inner: u64 = numerator / denominator;
        proof {
            assert(numerator <= 2_148_300_000_000u64);
            assert(inner as int <= numerator as int) by (nonlinear_arith)
                requires
                    denominator as int >= 1,
                    inner as int == numerator as int / denominator as int,
                    numerator as int >= 0,
            ;
        }
        let root: u64 = isqrt64(inner);
        proof {
            lemma_isqrt_bounds(inner as int);
            assert(spec_isqrt(inner as int) * spec_isqrt(inner as int) <= inner as int);
            assert(root as int <= 2_000_000int) by (nonlinear_arith)
                requires
                    root as int >= 0,
                    (root as int) * (root as int) <= inner as int,
                    inner as int <= 2_148_300_000_000int,
            ;
            assert(c_milli as int * root as int <= 2_000_000_000_000int) by (nonlinear_arith)
                requires
                    0 <= c_milli as int <= 1_000_000int,
                    0 <= root as int <= 2_000_000int,
            ;
        }
        let explore: u64 = c_milli * root / 1000;
        proof {
            assert(exploit as int <= num as int * 10000) by (nonlinear_arith)
                requires
                    exploit as int == num as int * 10000 / (v as int),
                    v as int >= 1,
                    num as int >= 0,
            ;
        }
        exploit + explore
    }

    /// The index of the child with the highest selection score; among equal
    /// scores the child whose move index is lowest wins.
    pub fn get_best_child_index(&self, c_milli: u64) -> (idx: usize)
        requires
            self.wf(),
            self.children@.len() > 0,
            self.visits <= i32::MAX as u32,
            c_milli <= 1_000_000,
        ensures
            idx < self.children@.len(),
            forall|j: int|
                0 <= j < self.children@.len() ==> spec_score(
                    self.maximizing,
                    self.visits,
                    (#[trigger] self.children@[j]).visits,
                    self.children@[j].wins,
                    c_milli,
                ) <= spec_score(
                    self.maximizing,
                    self.visits,
                    self.children@[idx as int].visits,
                    self.children@[idx as int].wins,
                    c_milli,
                ),
            forall|j: int|
                0 <= j < self.children@.len() && spec_score(
                    self.maximizing,
                    self.visits,
                    (#[trigger] self.children@[j]).visits,
                    self.children@[j].wins,
                    c_milli,
                ) == spec_score(
                    self.maximizing,
                    self.visits,
                    self.children@[idx as int].visits,
                    self.children@[idx as int].wins,
                    c_milli,
                ) ==> self.children@[idx as int].action->0 <= self.children@[j].action->0,
    {
        proof {
            assert(self.children@[0].wf());
            lemma_child_sum_elem(self.children@, 0);
            lemma_child_sum_nonneg(self.children@);
        }
        let mut best: usize = 0;
        let mut best_score: u64 = self.ucb1(&self.children[0], c_milli);
        let mut best_action: usize = match self.children[0].action {
            Some(a) => a,
            None => 0,
        };
        let mut j: usize = 1;
        while j < self.children.len()
            invariant
                self.wf(),
                self.visits <= i32::MAX as u32,
                c_milli <= 1_000_000,
                1 <= j <= self.children@.len(),
                best < j,
                best_score as int == spec_score(
                    self.maximizing,
                    self.visits,
                    self.children@[best as int].visits,
                    self.children@[best as int].wins,
                    c_milli,
                ),
                best_action == self.children@[best as int].action->0,
                forall|k: int|
                    0 <= k < j ==> spec_score(
                        self.maximizing,
                        self.visits,
                        (#[trigger] self.children@[k]).visits,
                        self.children@[k].wins,
                        c_milli,
                    ) <= best_score as int,
                forall|k: int|
                    0 <= k < j && spec_score(
                        self.maximizing,
                        self.visits,
                        (#[trigger] self.children@[k]).visits,
                        self.children@[k].wins,
                        c_milli,
                    ) == best_score as int ==> best_action <= self.children@[k].action->0,
            decreases self.children@.len() - j,
        {
            proof {
                assert(self.children@[j as int].wf());
                assert(self.children@[j as int].action is Some);
                lemma_child_sum_elem(self.children@, j as int);
                lemma_child_sum_nonneg(self.children@);
            }
            let sc = self.ucb1(&self.children[j], c_milli);
            let aj = match self.children[j].action {
                Some(a) => a,
                None => 0,
            };
            if sc > best_score || (sc == best_score && aj < best_action) {
                best = j;
                best_score = sc;
                best_action = aj;
            }
            j = j + 1;
        }
        best
    }

    /// Expands one untried move, chosen at random: plays it on a copy of the
    /// board and appends the child, marked terminal at once when the move
    /// wins (a signed result for the side that played it) or fills the board
    /// (a draw).
    pub fn expand(&mut self) -> (idx: usize)
        requires
            old(self).wf(),
            old(self).untried_moves@.len() > 0,
        ensures
            final(self).wf(),
            final(self).board == old(self).board,
            final(self).action == old(self).action,
            final(self).result == old(self).result,
            final(self).maximizing == old(self).maximizing,
            final(self).visits == old(self).visits,
            final(self).wins == old(self).wins,
            idx == final(self).children@.len() - 1,
            final(self).children@.len() == old(self).children@.len() + 1,
            final(self).children@ =~= old(self).children@.push(final(self).children@[idx as int]),
            final(self).untried_moves@.len() == old(self).untried_moves@.len() - 1,
            child_sum(final(self).children@) == child_sum(old(self).children@),
            ({
                let ch = final(self).children@[idx as int];
                &&& ch.visits == 0
                &&& ch.wins == 0i32
                &&& ch.maximizing == !old(self).maximizing
                &&& ch.action matches Some(a) && old(self).board.legal(a as int) && ch.board
                    == old(self).board.moved(a as int) && old(self).untried_moves@.contains(a) && (
                forall|m: usize|
                    final(self).untried_moves@.contains(m) <==> (old(self).untried_moves@.contains(
                        m,
                    ) && m != a)) && (old(self).board.would_win(a as int) ==> ch.result == Some(
                    if old(self).maximizing {
                        1i32
                    } else {
                        -1i32
                    },
                )) && (!old(self).board.would_win(a as int) ==> (ch.result == if !(exists|c: int|
                    ch.board.legal(c)) {
                    Some(0i32)
                } else {
                    None
                }))
            }),
    {
        let pick = random_below(self.untried_moves.len());
        let action = self.untried_moves.swap_remove(pick);
        proof {
            let oldu = old(self).untried_moves@;
            let newu = self.untried_moves@;
            assert(oldu[pick as int] == action);
            assert(self.board.legal(action as int));
            assert(oldu.contains(action));
            assert(newu =~= oldu.update(pick as int, oldu.last()).drop_last());
            assert forall|m: usize| #[trigger] newu.contains(m) implies (oldu.contains(m) && m
                != action) by {
                let i = choose|i: int| 0 <= i < newu.len() && #[trigger] newu[i] == m;
                if i == pick as int {
                    assert(oldu[oldu.len() - 1] == m);
                    assert(oldu[pick as int] != oldu[oldu.len() - 1]);
                } else {
                    assert(oldu[i] == m);
                    if i < pick as int {
                        assert(oldu[i] != oldu[pick as int]);
                    } else {
                        assert(oldu[pick as int] != oldu[i]);
                    }
                }
            }
            assert forall|m: usize| oldu.contains(m) && m != action implies newu.contains(m) by {
                let j = choose|j: int| 0 <= j < oldu.len() && #[trigger] oldu[j] == m;
                if j == oldu.len() - 1 {
                    if (pick as int) < oldu.len() - 1 {
                        assert(newu[pick as int] == m);
                    } else {
                        assert(oldu[pick as int] == m);
                    }
                } else {
                    assert(newu[j] == m);
                }
            }
        }
        let winning = self.board.is_winning_move(action);
        let mut board2 = self.board;
        let ok = board2.make_move(action);
        let full = board2.is_full();
        proof {
            if exists|c: int| board2.legal(c) {
                let w = choose|c: int| board2.legal(c);
                assert(0 <= w < 7 && board2.heights[w] < 6);
            }
            if exists|c: int| 0 <= c < 7 && board2.heights[c] < 6 {
                let w = choose|c: int| 0 <= c < 7 && board2.heights[c] < 6;
                assert(board2.legal(w));
            }
            assert(full == !(exists|c: int| board2.legal(c)));
        }
        let result: Option<i32> = if winning {
            if self.maximizing {
                Some(1)
            } else {
                Some(-1)
            }
        } else if full {
            Some(0)
        } else {
            None
        };
        let child = Node::new(board2, Some(action), result, !self.maximizing);
        let ghost chg = child;
        let ghost pre_children = self.children@;
        self.children.push(child);
        proof {
            lemma_child_sum_push(pre_children, chg);
            assert forall|i: int| 0 <= i < self.untried_moves@.len() implies self.board.legal(
                #[trigger] self.untried_moves@[i] as int,
            ) by {
                if i < old(self).untried_moves@.len() - 1 && i != pick as int {
                    assert(self.untried_moves@[i] == old(self).untried_moves@[i]);
                } else if i == pick as int && i < old(self).untried_moves@.len() - 1 {
                    assert(self.untried_moves@[i] == old(self).untried_moves@[
                        old(self).untried_moves@.len() - 1]);
                }
            }
            assert forall|i: int| 0 <= i < self.children@.len() implies {
                let ch = #[trigger] self.children@[i];
                &&& ch.wf()
                &&& ch.action matches Some(a) && self.board.legal(a as int) && ch.board
                    == self.board.moved(a as int)
                &&& ch.maximizing == !self.maximizing
            } by {
                if i < pre_children.len() {
                    assert(self.children@[i] == pre_children[i]);
                    assert(old(self).wf());
                } else {
                    assert(self.children@[i] == chg);
                }
            }
            assert(final(self).children@ =~= pre_children.push(chg));
        }
        self.children.len() - 1
    }

    pub fn is_fully_expanded(&self) -> (r: bool)
        ensures
            r == (self.untried_moves@.len() == 0),
    {
        self.untried_moves.len() == 0
    }

    pub fn is_terminal(&self) -> (r: bool)
        ensures
            r == (self.result is Some),
    {
        self.result.is_some()
    }

    /// Runs `n_simulations` random playouts from this node's position and
    /// sums the signed outcomes for the perspective player.
    pub fn simulate(&self, n_simulations: u32) -> (r: i32)
        requires
            self.board.inv(),
            n_simulations <= i32::MAX as u32,
        ensures
            -(n_simulations as int) <= r as int <= n_simulations as int,
            !(exists|c: int| self.board.legal(c)) ==> r == 0,
            ((exists|c: int| self.board.legal(c)) && (forall|c: int|
                self.board.legal(c) ==> #[trigger] self.board.would_win(c))) ==> r as int == (
            if self.maximizing {
                n_simulations as int
            } else {
                -(n_simulations as int)
            }),
    {
        let mut total: i32 = 0;
        let mut i: u32 = 0;
        while i < n_simulations
            invariant
                i <= n_simulations,
                n_simulations <= i32::MAX as u32,
                self.board.inv(),
                -(i as int) <= total as int <= i as int,
                !(exists|c: int| self.board.legal(c)) ==> total == 0,
                ((exists|c: int| self.board.legal(c)) && (forall|c: int|
                    self.board.legal(c) ==> #[trigger] self.board.would_win(c))) ==> total as int
                    == (if self.maximizing {
                    i as int
                } else {
                    -(i as int)
                }),
            decreases n_simulations - i,
        {
            let outcome = playout(self.board, self.maximizing);
            total = total + outcome;
            i = i + 1;
        }
        total
    }
}

/// One search iteration: descends by UCB1 selection through fully expanded
/// non-terminal nodes, expands one move (or reuses a terminal result, or
/// simulates in place when no move exists), runs the playouts, and adds the
/// reward to every node on the path, the new leaf included. Each iteration
/// adds exactly `n_sims` visits to the node and, when the node is
/// non-terminal with a legal move, to exactly one of its children.
pub fn iterate(node: &mut Node, c_milli: u64, n_sims: u32) -> (reward: i32)
    requires
        old(node).wf(),
        1 <= n_sims,
        old(node).visits + n_sims <= i32::MAX as u32,
        c_milli <= 1_000_000,
    ensures
        final(node).wf(),
        final(node).board == old(node).board,
        final(node).action == old(node).action,
        final(node).maximizing == old(node).maximizing,
        final(node).result == old(node).result,
        final(node).visits == old(node).visits + n_sims,
        final(node).wins as int == old(node).wins as int + reward as int,
        -(n_sims as int) <= reward as int <= n_sims as int,
        (old(node).result is None && (exists|c: int| old(node).board.legal(c))) ==> child_sum(
            final(node).children@,
        ) == child_sum(old(node).children@) + n_sims,
        (old(node).result is Some || !(exists|c: int| old(node).board.legal(c))) ==> child_sum(
            final(node).children@,
        ) == child_sum(old(node).children@),
        old(node).result matches Some(v) ==> reward as int == v * n_sims as int
            && final(node).children@ == old(node).children@
            && final(node).untried_moves@ == old(node).untried_moves@,
        (old(node).result is None && old(node).untried_moves@.len() == 0)
            ==> final(node).untried_moves@ == old(node).untried_moves@,
        (old(node).result is None && old(node).untried_moves@.len() > 0) ==> {
            let ch = final(node).children@.last();
            &&& final(node).children@ =~= old(node).children@.push(ch)
            &&& ch.visits == n_sims
            &&& ch.wins == reward
            &&& ch.action matches Some(a) && old(node).untried_moves@.contains(a) && (forall|
                m: usize,
            |
                final(node).untried_moves@.contains(m) <==> (old(node).untried_moves@.contains(m)
                    && m != a))
            &&& final(node).untried_moves@.len() == old(node).untried_moves@.len() - 1
        },
        (old(node).result is None && old(node).untried_moves@.len() == 0
            && old(node).children@.len() == 0) ==> final(node).children@ == old(node).children@,
        (old(node).result is None && old(node).untried_moves@.len() == 0
            && old(node).children@.len() > 0) ==> exists|i: int|
            {
                &&& 0 <= i < old(node).children@.len()
                &&& #[trigger] final(node).children@ =~= old(node).children@.update(
                    i,
                    final(node).children@[i],
                )
                &&& final(node).children@[i].visits == old(node).children@[i].visits + n_sims
                &&& final(node).children@[i].wins as int == old(node).children@[i].wins as int
                    + reward as int
                &&& final(node).children@[i].action == old(node).children@[i].action
                &&& final(node).children@[i].result == old(node).children@[i].result
                &&& final(node).children@[i].board == old(node).children@[i].board
            },
    decreases 42 - node.board.total_stones(),
{
    if let Some(res) = node.result {
        let reward: i32 = if res == 1 {
            n_sims as i32
        } else if res == -1 {
            -(n_sims as i32)
        } else {
            0
        };
        proof {
            assert(-1 <= res <= 1);
            if res == 1 {
                assert(1int * (n_sims as int) == n_sims as int) by (nonlinear_arith);
            } else if res == -1 {
                assert((-1int) * (n_sims as int) == -(n_sims as int)) by (nonlinear_arith);
            } else {
                assert(0int * (n_sims as int) == 0int) by (nonlinear_arith);
            }
        }
        node.update(reward, n_sims);
        return reward;
    }
    if !node.is_fully_expanded() {
        let idx = node.expand();
        let ghost mid = *node;
        let reward = if let Some(res) = node.children[idx].result {
            proof {
                assert(node.children@[idx as int].wf());
            }
            if res == 1 {
                n_sims as i32
            } else if res == -1 {
                -(n_sims as i32)
            } else {
                0
            }
        } else {
            proof {
                assert(node.children@[idx as int].wf());
            }
            node.children[idx].simulate(n_sims)
        };
        let ghost chpre = node.children@[idx as int];
        let child = &mut node.children[idx];
        child.update(reward, n_sims);
        proof {
            let chpost = node.children@[idx as int];
            lemma_child_sum_update(mid.children@, idx as int, chpost);
            assert(node.children@ =~= mid.children@.update(idx as int, chpost));
            assert(chpost.wf());
            assert forall|i: int| 0 <= i < node.children@.len() implies {
                let ch = #[trigger] node.children@[i];
                &&& ch.wf()
                &&& ch.action matches Some(a) && node.board.legal(a as int) && ch.board
                    == node.board.moved(a as int)
                &&& ch.maximizing == !node.maximizing
            } by {
                if i != idx as int {
                    assert(node.children@[i] == mid.children@[i]);
                    assert(mid.wf());
                }
            }
        }
        node.update(reward, n_sims);
        proof {
            assert(child_sum(final(node).children@) == child_sum(old(node).children@)
                + n_sims as int);
        }
        return reward;
    }
    if node.children.len() == 0 {
        proof {
            assert(!(exists|c: int| node.board.legal(c)));
        }
        let reward = node.simulate(n_sims);
        node.update(reward, n_sims);
        return reward;
    }
    let idx = node.get_best_child_index(c_milli);
    let ghost pre = *node;
    let ghost chpre = node.children@[idx as int];
    proof {
        assert(chpre.wf());
        lemma_child_sum_elem(pre.children@, idx as int);
        lemma_child_sum_nonneg(pre.children@);
        assert(chpre.board == pre.board.moved(chpre.action->0 as int));
        assert(chpre.board.total_stones() == pre.board.total_stones() + 1);
    }
    let child = &mut node.children[idx];
    let reward = iterate(child, c_milli, n_sims);
    proof {
        let chpost = node.children@[idx as int];
        lemma_child_sum_update(pre.children@, idx as int, chpost);
        assert(node.children@ =~= pre.children@.update(idx as int, chpost));
        assert forall|i: int| 0 <= i < node.children@.len() implies {
            let ch = #[trigger] node.children@[i];
            &&& ch.wf()
            &&& ch.action matches Some(a) && node.board.legal(a as int) && ch.board
                == node.board.moved(a as int)
            &&& ch.maximizing == !node.maximizing
        } by {
            if i != idx as int {
                assert(node.children@[i] == pre.children@[i]);
                assert(pre.wf());
            }
        }
    }
    node.update(reward, n_sims);
    reward
}

/// One random playout to the end of the game: +1 when the perspective player
/// wins, -1 when the other side does, 0 for a draw; `mover_is_perspective`
/// says whether the player to move in `board` is the perspective player.
/// A position with no legal move is a draw at once, and one where every
/// legal move wins is decided for the mover before any random draw.
fn playout(board: BitBoard, mover_is_perspective: bool) -> (r: i32)
    requires
        board.inv(),
    ensures
        -1 <= r <= 1,
        !(exists|c: int| board.legal(c)) ==> r == 0,
        ((exists|c: int| board.legal(c)) && (forall|c: int|
            board.legal(c) ==> #[trigger] board.would_win(c))) ==> r == (if mover_is_perspective {
            1i32
        } else {
            -1i32
        }),
{
    let first_moves = board.get_valid_moves();
    if first_moves.len() == 0 {
        proof {
            if exists|c: int| board.legal(c) {
                let w = choose|c: int| board.legal(c);
                assert(first_moves@.contains(w as usize));
            }
        }
        return 0;
    }
    let first_mv = first_moves[random_below(first_moves.len())];
    proof {
        assert(board.legal(first_moves@[0] as int));
        assert(board.legal(first_mv as int));
    }
    if board.is_winning_move(first_mv) {
        return if mover_is_perspective {
            1
        } else {
            -1
        };
    }
    // The mover's chosen move does not win: the all-moves-win case is settled,
    // and the rest of the game carries only the outcome bounds.
    let mut b = board;
    b.make_move(first_mv);
    let mut mover = !mover_is_perspective;
    loop
        invariant
            b.inv(),
            board.legal(first_mv as int),
            !board.would_win(first_mv as int),
        decreases 42 - b.total_stones(),
    {
        let moves = b.get_valid_moves();
        if moves.len() == 0 {
            return 0;
        }
        let mv = moves[random_below(moves.len())];
        if b.is_winning_move(mv) {
            return if mover {
                1
            } else {
                -1
            };
        }
        let ghost pre = b;
        let ok = b.make_move(mv);
        proof {
            assert(ok);
            assert(b.total_stones() == pre.total_stones() + 1);
            assert(forall|c: int| 0 <= c < 7 ==> #[trigger] b.heights[c] <= 6);
        }
        mover = !mover;
    }
}


/// The visits one node contributes to the tally of move `a`.
pub open spec fn action_visits(n: Node, a: int) -> int {
    match n.action {
        Some(x) => if x as int == a {
            n.visits as int
        } else {
            0
        },
        None => 0,
    }
}

/// Visits attributed to root move `a` among the children of a worker tree.
pub open spec fn visits_for(s: Seq<Node>, a: int) -> int
    decreases s.len(),
{
    if s.len() == 0 {
        0
    } else {
        visits_for(s.drop_last(), a) + action_visits(s.last(), a)
    }
}

pub proof fn lemma_visits_for_nonneg(s: Seq<Node>, a: int)
    ensures
        visits_for(s, a) >= 0,
    decreases s.len(),
{
    if s.len() > 0 {
        lemma_visits_for_nonneg(s.drop_last(), a);
    }
}

pub proof fn lemma_visits_for_push(s: Seq<Node>, n: Node, a: int)
    ensures
        visits_for(s.push(n), a) == visits_for(s, a) + action_visits(n, a),
{
    assert(s.push(n).drop_last() =~= s);
    assert(s.push(n).last() == n);
}

pub proof fn lemma_visits_for_update(s: Seq<Node>, i: int, n: Node, a: int)
    requires
        0 <= i < s.len(),
    ensures
        visits_for(s.update(i, n), a) == visits_for(s, a) - action_visits(s[i], a)
            + action_visits(n, a),
    decreases s.len(),
{
    let t = s.update(i, n);
    if i == s.len() - 1 {
        assert(t.drop_last() =~= s.drop_last());
        assert(t.last() == n);
    } else {
        assert(t.drop_last() =~= s.drop_last().update(i, n));
        assert(t.last() == s.last());
        lemma_visits_for_update(s.drop_last(), i, n, a);
    }
}

proof fn lemma_child_sum_take_step(s: Seq<Node>, i: int)
    requires
        0 <= i < s.len(),
    ensures
        child_sum(s.take(i + 1)) == child_sum(s.take(i)) + s[i].visits,
        forall|a: int| #[trigger] visits_for(s.take(i + 1), a) == visits_for(s.take(i), a) + match s[i].action {
            Some(x) => if x as int == a {
                s[i].visits as int
            } else {
                0
            },
            None => 0,
        },
{
    assert(s.take(i + 1).drop_last() =~= s.take(i));
    assert(s.take(i + 1).last() == s[i]);
}

proof fn lemma_child_sum_take_le(s: Seq<Node>, i: int)
    requires
        0 <= i <= s.len(),
    ensures
        child_sum(s.take(i)) <= child_sum(s),
    decreases s.len() - i,
{
    if i == s.len() {
        assert(s.take(i) =~= s);
    } else {
        lemma_child_sum_take_step(s, i);
        lemma_child_sum_take_le(s, i + 1);
    }
}

proof fn lemma_visits_for_illegal(s: Seq<Node>, b: BitBoard, a: int)
    requires
        forall|i: int|
            0 <= i < s.len() ==> match (#[trigger] s[i]).action {
                Some(x) => b.legal(x as int),
                None => true,
            },
        !b.legal(a),
    ensures
        visits_for(s, a) == 0,
    decreases s.len(),
{
    if s.len() > 0 {
        assert forall|i: int|
            0 <= i < s.drop_last().len() implies match (#[trigger] s.drop_last()[i]).action {
            Some(x) => b.legal(x as int),
            None => true,
        } by {
            assert(s.drop_last()[i] == s[i]);
        }
        lemma_visits_for_illegal(s.drop_last(), b, a);
        assert(s.last() == s[s.len() - 1]);
    }
}

/// The root-level aggregator: one monotone visit tally per column, merged
/// from the finished worker trees.
pub struct RootNode {
    pub board: BitBoard,
    pub move_visits: [u32; 7],
}

impl RootNode {
    /// Total of the per-move visit tallies.
    pub open spec fn tally_total(self) -> int {
        self.move_visits[0] + self.move_visits[1] + self.move_visits[2] + self.move_visits[3]
            + self.move_visits[4] + self.move_visits[5] + self.move_visits[6]
    }

    /// Well-formed aggregator: the board is valid, the tallies fit their
    /// counter when summed, and unplayable columns have no visits.
    pub open spec fn inv(self) -> bool {
        &&& self.board.inv()
        &&& self.tally_total() <= u32::MAX as int
        &&& forall|c: int| 0 <= c < 7 && !self.board.legal(c) ==> self.move_visits[c] == 0
    }

    pub fn new(board: BitBoard) -> (r: RootNode)
        requires
            board.inv(),
        ensures
            r.inv(),
            r.board == board,
            r.tally_total() == 0,
            forall|c: int| 0 <= c < 7 ==> #[trigger] r.move_visits[c] == 0,
    {
        RootNode { board, move_visits: [0; 7] }
    }

    /// A fresh private tree for one worker, rooted at this position with the
    /// perspective player to move.
    pub fn create_thread_tree(&self) -> (n: Node)
        requires
            self.inv(),
        ensures
            n.wf(),
            n.board == self.board,
            n.action is None,
            n.result is None,
            n.maximizing,
            n.visits == 0,
            n.wins == 0i32,
            n.children@.len() == 0,
            forall|c: int|
                0 <= c < 7 ==> (self.board.legal(c) <==> n.untried_moves@.contains(c as usize)),
    {
        Node::new(self.board, None, None, true)
    }

    /// Adds a finished worker tree's root-level visit counts into the tally.
    pub fn merge_thread_results(&mut self, node: &Node)
        requires
            old(self).inv(),
            node.wf(),
            node.board == old(self).board,
            old(self).tally_total() + child_sum(node.children@) <= u32::MAX as int,
        ensures
            final(self).inv(),
            final(self).board == old(self).board,
            forall|a: int|
                0 <= a < 7 ==> #[trigger] final(self).move_visits[a] as int
                    == old(self).move_visits[a] + visits_for(node.children@, a),
            final(self).tally_total() == old(self).tally_total() + child_sum(node.children@),
    {
        let ghost s = node.children@;
        let mut i: usize = 0;
        proof {
            assert(s.take(0) =~= Seq::<Node>::empty());
        }
        while i < node.children.len()
            invariant
                i <= s.len(),
                s == node.children@,
                node.wf(),
                node.board == old(self).board,
                old(self).inv(),
                old(self).tally_total() + child_sum(s) <= u32::MAX as int,
                self.board == old(self).board,
                forall|a: int|
                    0 <= a < 7 ==> #[trigger] self.move_visits[a] as int
                        == old(self).move_visits[a] + visits_for(s.take(i as int), a),
                self.tally_total() == old(self).tally_total() + child_sum(s.take(i as int)),
            decreases s.len() - i,
        {
            proof {
                lemma_child_sum_take_step(s, i as int);
                lemma_child_sum_take_le(s, i as int + 1);
                assert(node.children@[i as int].wf());
            }
            let ch = &node.children[i];
            if let Some(a) = ch.action {
                proof {
                    assert(old(self).board.legal(a as int));
                }
                self.move_visits[a] = self.move_visits[a] + ch.visits;
            }
            i = i + 1;
        }
        proof {
            assert(s.take(s.len() as int) =~= s);
            assert forall|a: int| 0 <= a < 7 && !self.board.legal(a) implies self.move_visits[a]
                == 0 by {
                assert forall|k: int|
                    0 <= k < s.len() implies match (#[trigger] s[k]).action {
                    Some(x) => old(self).board.legal(x as int),
                    None => true,
                } by {
                    assert(s[k].wf());
                    assert(s[k].action matches Some(x) && node.board.legal(x as int));
                }
                lemma_visits_for_illegal(s, old(self).board, a);
            }
        }
    }

    /// The playable column with the most merged visits; the lowest such
    /// column on a tie.
    pub fn get_best_move(&self) -> (mv: usize)
        requires
            self.inv(),
            exists|c: int| self.board.legal(c),
        ensures
            self.board.legal(mv as int),
            forall|c: int|
                0 <= c < 7 && #[trigger] self.board.legal(c) ==> self.move_visits[c]
                    <= self.move_visits[mv as int],
            forall|c: int|
                0 <= c < 7 && c < mv && #[trigger] self.board.legal(c) ==> self.move_visits[c]
                    < self.move_visits[mv as int],
    {
        let mut best: usize = 7;
        let mut best_v: u32 = 0;
        let mut c: usize = 0;
        while c < 7
            invariant
                c <= 7,
                best <= 7,
                self.inv(),
                forall|k: int|
                    0 <= k < c && best == 7 ==> !(#[trigger] self.board.legal(k)),
                best < 7 ==> best < c && self.board.legal(best as int) && best_v
                    == self.move_visits[best as int],
                forall|k: int|
                    0 <= k < c && best < 7 && #[trigger] self.board.legal(k)
                        ==> self.move_visits[k] <= best_v,
                forall|k: int|
                    0 <= k < best && best < 7 && #[trigger] self.board.legal(k)
                        ==> self.move_visits[k] < best_v,
            decreases 7 - c,
        {
            let ghost oldbest = best;
            let ghost oldv = best_v;
            proof {
                assert(forall|k: int|
                    0 <= k < c && oldbest < 7 && #[trigger] self.board.legal(k)
                        ==> self.move_visits[k] <= oldv);
                assert(forall|k: int|
                    0 <= k < oldbest && oldbest < 7 && #[trigger] self.board.legal(k)
                        ==> self.move_visits[k] < oldv);
                assert(forall|k: int|
                    0 <= k < c && oldbest == 7 ==> !(#[trigger] self.board.legal(k)));
            }
            if self.board.heights[c] < 6 {
                if best == 7 || self.move_visits[c] > best_v {
                    best = c;
                    best_v = self.move_visits[c];
                }
            }
            proof {
                assert forall|k: int|
                    0 <= k < c + 1 && best < 7 && #[trigger] self.board.legal(k) implies self.move_visits[k]
                    <= best_v by {
                    if k < c {
                        assert(self.board.legal(k));
                        if oldbest == 7 {
                            assert(!self.board.legal(k));
                        } else {
                            assert(self.move_visits[k] <= oldv);
                        }
                    }
                }
                assert forall|k: int|
                    0 <= k < best && best < 7 && #[trigger] self.board.legal(k) implies self.move_visits[k]
                    < best_v by {
                    if oldbest < 7 && k < oldbest {
                        assert(self.board.legal(k));
                        assert(self.move_visits[k] < oldv);
                    }
                }
            }
            c = c + 1;
        }
        proof {
            if best == 7 {
                let w = choose|k: int| self.board.legal(k);
                assert(!self.board.legal(w));
            }
        }
        best
    }

    /// Total number of merged visits across all moves.
    pub fn get_total_visits(&self) -> (t: u32)
        requires
            self.inv(),
        ensures
            t as int == self.tally_total(),
    {
        let mut acc: u32 = self.move_visits[0];
        acc = acc + self.move_visits[1];
        acc = acc + self.move_visits[2];
        acc = acc + self.move_visits[3];
        acc = acc + self.move_visits[4];
        acc = acc + self.move_visits[5];
        acc = acc + self.move_visits[6];
        acc
    }
}

} // verus!
