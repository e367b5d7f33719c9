//! Monte-Carlo tree search over the game tree.
//!
//! One iteration selects a node by UCT, expands at most one child, plays a
//! rollout to a terminal outcome, and backpropagates the outcome code.  UCT
//! values are fixed-point integers scaled by `UCT_SCALE`, with an integer
//! square root and a floor logarithm standing in for their real-valued
//! counterparts.

use vstd::arithmetic::div_mod::{lemma_div_is_ordered, lemma_div_multiples_vanish};
use vstd::arithmetic::mul::lemma_mul_inequality;
use vstd::arithmetic::power2::{
    lemma2_to64, lemma2_to64_rest, lemma_pow2_adds, lemma_pow2_strictly_increases, pow2,
};
use vstd::prelude::*;

use rand::Rng;

use crate::board::{
    get_moves, get_status, is_winning, lemma_move_grows, lemma_move_valid,
    lemma_moves_empty_iff_full, lemma_moves_shape, lemma_ones_bound, ones, spec_moves, spec_status,
    valid_state, winning_mask, Status, FULL_GRID,
};
use crate::clock::{elapsed_millis, now_instant};
use crate::tree::{
    arena_extends, backpropagation, flipped, lemma_arena_extends_refl, lemma_arena_extends_trans,
    lemma_on_path_grow, lemma_on_path_same_parents, lemma_on_path_trans, on_path, wf_graph,
    wf_node, wf_stats, Node, VISIT_LIMIT,
};

verus! {

/// Fixed-point scale of UCT values: one point of average outcome is this
/// many steps.
pub const UCT_SCALE: u64 = 65536;

/// The exploration constant `C` of `mean + C * sqrt(log2(N) / n)`.
pub const UCT_C: u64 = 2;

/// floor(log2(n)), with 0 for `n <= 1`.
pub open spec fn spec_log2(n: nat) -> nat
    decreases n,
{
    if n <= 1 {
        0
    } else {
        1 + spec_log2(n / 2)
    }
}

/// Computes floor(log2(n)).
pub fn log2_floor(n: u64) -> (r: u64)
    requires
        n >= 1,
    ensures
        r as nat == spec_log2(n as nat),
        r <= 63,
{
    let mut v: u64 = n;
    let mut r: u64 = 0;
    proof {
        lemma2_to64();
    }
    while v >= 2
        invariant
            v >= 1,
            n >= 1,
            spec_log2(n as nat) == r + spec_log2(v as nat),
            (v as nat) * pow2(r as nat) <= n as nat,
        decreases v,
    {
        proof {
            lemma2_to64();
            lemma2_to64_rest();
            assert(pow2(r as nat) <= (v as nat) * pow2(r as nat)) by (nonlinear_arith)
                requires
                    v >= 1,
                    pow2(r as nat) >= 0,
            ;
            if r >= 64 {
                if r > 64 {
                    lemma_pow2_strictly_increases(64, r as nat);
                }
                assert(pow2(r as nat) >= pow2(64));
                assert(false);
            }
            let v0 = v as nat;
            let r0 = r as nat;
            lemma_pow2_adds(r0, 1);
            assert((v0 / 2) * pow2(r0 + 1) <= v0 * pow2(r0)) by (nonlinear_arith)
                requires
                    v0 >= 2,
                    pow2(r0 + 1) == 2 * pow2(r0),
                    pow2(r0) >= 1,
            ;
        }
        v = v / 2;
        r = r + 1;
    }
    proof {
        lemma2_to64();
        lemma2_to64_rest();
        assert(pow2(r as nat) <= (v as nat) * pow2(r as nat)) by (nonlinear_arith)
            requires
                v >= 1,
                pow2(r as nat) >= 0,
        ;
        if r >= 64 {
            if r > 64 {
                lemma_pow2_strictly_increases(64, r as nat);
            }
            assert(pow2(r as nat) >= pow2(64));
            assert(false);
        }
    }
    r
}

/// `r` is the integer square root of `n`.
pub open spec fn is_isqrt(n: nat, r: nat) -> bool {
    r * r <= n < (r + 1) * (r + 1)
}

/// The integer square root of `n`.
pub open spec fn spec_sqrt(n: nat) -> nat {
    choose|r: nat| is_isqrt(n, r)
}

/// The integer square root exists and `spec_sqrt` denotes it.
pub proof fn lemma_isqrt_exists(n: nat)
    ensures
        is_isqrt(n, spec_sqrt(n)),
    decreases n,
{
    if n == 0 {
        assert((0 as nat) * (0 as nat) == 0 && ((0 as nat) + 1) * ((0 as nat) + 1) == 1)
            by (nonlinear_arith);
        assert(is_isqrt(0, 0));
    } else {
        lemma_isqrt_exists((n - 1) as nat);
        let r = spec_sqrt((n - 1) as nat);
        if (r + 1) * (r + 1) <= n {
            assert(n < (r + 2) * (r + 2)) by (nonlinear_arith)
                requires
                    n - 1 < (r + 1) * (r + 1),
                    (r + 1) * (r + 1) <= n,
            ;
            assert(is_isqrt(n, r + 1));
        } else {
            assert(is_isqrt(n, r));
        }
    }
    assert(exists|r: nat| is_isqrt(n, r));
}

/// At most one integer is the square root of `n`.
pub proof fn lemma_isqrt_unique(n: nat, a: nat, b: nat)
    requires
        is_isqrt(n, a),
        is_isqrt(n, b),
    ensures
        a == b,
{
    if a < b {
        assert(false) by (nonlinear_arith)
            requires
                a < b,
                n < (a + 1) * (a + 1),
                b * b <= n,
        ;
    }
    if b < a {
        assert(false) by (nonlinear_arith)
            requires
                b < a,
                n < (b + 1) * (b + 1),
                a * a <= n,
        ;
    }
}

/// Computes the integer square root by binary search.
pub fn isqrt(n: u64) -> (r: u64)
    ensures
        r as nat == spec_sqrt(n as nat),
        is_isqrt(n as nat, r as nat),
{
    proof {
        lemma_isqrt_exists(n as nat);
    }
    let mut lo: u64 = 0;
    let mut hi: u64 = 0x1_0000_0000;
    while lo + 1 < hi
        invariant
            lo < hi,
            hi <= 0x1_0000_0000,
            (lo as nat) * (lo as nat) <= n as nat,
            (n as nat) < (hi as nat) * (hi as nat),
        decreases hi - lo,
    {
        let mid = lo + (hi - lo) / 2;
        proof {
            let d = (hi - lo) as nat;
            assert(d / 2 >= 1 && d / 2 < d) by (nonlinear_arith)
                requires
                    d >= 2,
            ;
            assert((mid as nat) * (mid as nat) <= 0xFFFFFFFE00000001) by (nonlinear_arith)
                requires
                    mid as nat <= 0xFFFFFFFF,
            ;
        }
        let sq = mid * mid;
        if sq <= n {
            lo = mid;
        } else {
            hi = mid;
        }
    }
    proof {
        assert(hi == lo + 1);
        assert(is_isqrt(n as nat, lo as nat));
        lemma_isqrt_unique(n as nat, lo as nat, spec_sqrt(n as nat));
    }
    lo
}

/// The fixed-point UCT value `score/visits + C * sqrt(log2(pvisits)/visits)`,
/// scaled by `UCT_SCALE`.
pub open spec fn spec_uct(score: u64, visits: u64, pvisits: u64) -> nat {
    (score as nat * UCT_SCALE as nat) / visits as nat + (UCT_C as nat) * spec_sqrt(
        (spec_log2(pvisits as nat) * UCT_SCALE as nat * UCT_SCALE as nat) / visits as nat,
    )
}

/// Computes the fixed-point UCT value of a child with the given statistics
/// under a parent visited `pvisits` times.  The parent has been visited, so
/// the logarithm never sees zero.
pub fn uct_value(score: u64, visits: u64, pvisits: u64) -> (v: u64)
    requires
        visits >= 1,
        pvisits >= 1,
        score <= 2 * visits,
    ensures
        v as nat == spec_uct(score, visits, pvisits),
{
    proof {
        assert((score as u128) * (UCT_SCALE as u128) <= 0xFFFFFFFFFFFFFFFF * 0x10000u128)
            by (nonlinear_arith)
            requires
                score as u128 <= 0xFFFFFFFFFFFFFFFFu128,
        ;
    }
    let num: u128 = (score as u128) * (UCT_SCALE as u128);
    let exploit: u128 = num / (visits as u128);
    proof {
        let s = score as int;
        let vi = visits as int;
        let sc = UCT_SCALE as int;
        lemma_mul_inequality(s, 2 * vi, sc);
        lemma_div_is_ordered(s * sc, 2 * vi * sc, vi);
        lemma_div_multiples_vanish(2 * sc, vi);
        assert(2 * vi * sc == vi * (2 * sc)) by (nonlinear_arith);
        assert((s * sc) / vi <= 2 * sc);
        assert(exploit <= 2 * sc);
    }
    let lg = log2_floor(pvisits);
    let t: u64 = lg * UCT_SCALE * UCT_SCALE / visits;
    proof {
        let a = (lg as nat) * (UCT_SCALE as nat) * (UCT_SCALE as nat);
        assert(a <= 63 * (UCT_SCALE as nat) * (UCT_SCALE as nat)) by (nonlinear_arith)
            requires
                a == (lg as nat) * (UCT_SCALE as nat) * (UCT_SCALE as nat),
                lg <= 63,
        ;
        assert(a / (visits as nat) <= a) by (nonlinear_arith)
            requires
                visits >= 1,
        ;
        assert(t as nat == a / (visits as nat));
        assert(t as nat <= 0x3F00000000);
    }
    let e = isqrt(t);
    proof {
        assert(e as nat * e as nat <= t as nat);
        assert(e as nat <= 0x80000) by (nonlinear_arith)
            requires
                (e as nat) * (e as nat) <= t as nat,
                t as nat <= 0x3F00000000,
        ;
    }
    let v = exploit as u64 + UCT_C * e;
    v
}

/// How rollouts pick among the legal moves.
#[derive(Clone, Copy, PartialEq, Eq, Structural, Debug)]
pub enum RolloutPolicy {
    /// Uniformly at random: the engine's playing policy.
    Random,
    /// Always the first legal move: a deterministic stand-in for tests.
    FirstMove,
}

/// Relies on rand::Rng::gen_range over `0..n`, on rand::thread_rng: the
/// sample lies in the half-open range; it panics only on an empty range,
/// which the precondition rules out.
#[verifier::external_body]
fn random_below(n: usize) -> (r: usize)
    requires
        n >= 1,
    ensures
        r < n,
{
    rand::thread_rng().gen_range(0..n)
}

/// Picks the rollout move index among `n` legal moves.
fn pick_index(policy: &RolloutPolicy, n: usize) -> (r: usize)
    requires
        n >= 1,
    ensures
        r < n,
{
    match policy {
        RolloutPolicy::Random => random_below(n),
        RolloutPolicy::FirstMove => 0,
    }
}

/// The UCT-best entry among the first `i` children, the earliest on ties.
pub open spec fn spec_best_uct(g: Seq<Node>, cs: Seq<usize>, pvisits: u64, i: int) -> usize
    decreases i,
{
    if i <= 1 {
        cs[0]
    } else {
        let prev = spec_best_uct(g, cs, pvisits, i - 1);
        let c = cs[i - 1];
        if spec_uct(g[c as int].score, g[c as int].nb_visit, pvisits) > spec_uct(
            g[prev as int].score,
            g[prev as int].nb_visit,
            pvisits,
        ) {
            c
        } else {
            prev
        }
    }
}

proof fn lemma_best_uct_in(g: Seq<Node>, cs: Seq<usize>, pvisits: u64, i: int)
    requires
        1 <= i <= cs.len(),
    ensures
        exists|k: int| 0 <= k < i && cs[k] == spec_best_uct(g, cs, pvisits, i),
    decreases i,
{
    if i <= 1 {
        assert(cs[0] == spec_best_uct(g, cs, pvisits, i));
    } else {
        lemma_best_uct_in(g, cs, pvisits, i - 1);
        let prev = spec_best_uct(g, cs, pvisits, i - 1);
        if spec_best_uct(g, cs, pvisits, i) == cs[i - 1] {
            assert(0 <= i - 1 < i && cs[i - 1] == spec_best_uct(g, cs, pvisits, i));
        } else {
            let k = choose|k: int| 0 <= k < i - 1 && cs[k] == prev;
            assert(0 <= k < i && cs[k] == spec_best_uct(g, cs, pvisits, i));
        }
    }
}

/// The node has a legal move its children do not cover yet.
pub open spec fn expandable(g: Seq<Node>, i: int) -> bool {
    &&& g[i].status == Status::Playing
    &&& spec_moves(g[i].state.0, g[i].state.1).len() > 0
    &&& g[i].children@.len() < spec_moves(g[i].state.0, g[i].state.1).len()
}

/// Where the UCT descent from `node` stops: the first node on the way down
/// that is terminal, has no legal move, or is not fully expanded; while a
/// node is fully expanded, the descent takes its UCT-best child.
pub open spec fn spec_select(g: Seq<Node>, node: int) -> int
    decreases g.len() - node,
{
    if !(0 <= node < g.len()) {
        node
    } else {
        let n = g[node];
        if n.status != Status::Playing {
            node
        } else if spec_moves(n.state.0, n.state.1).len() == 0 {
            node
        } else if n.children@.len() >= spec_moves(n.state.0, n.state.1).len() {
            let b = spec_best_uct(g, n.children@, n.nb_visit, n.children@.len() as int) as int;
            if node < b < g.len() {
                spec_select(g, b)
            } else {
                node
            }
        } else {
            node
        }
    }
}

/// The UCT descent only ever moves to a child, so the node it stops at
/// lies below its start: the start is on the stop node's parent walk.
pub proof fn lemma_select_on_path(g: Seq<Node>, node: int)
    requires
        wf_graph(g),
        0 <= node < g.len(),
    ensures
        on_path(g, spec_select(g, node), node),
    decreases g.len() - node,
{
    let n = g[node];
    assert(wf_node(g, node));
    if n.status == Status::Playing && spec_moves(n.state.0, n.state.1).len() != 0
        && n.children@.len() >= spec_moves(n.state.0, n.state.1).len() {
        let b = spec_best_uct(g, n.children@, n.nb_visit, n.children@.len() as int) as int;
        lemma_best_uct_in(g, n.children@, n.nb_visit, n.children@.len() as int);
        let k = choose|k: int|
            0 <= k < n.children@.len() && n.children@[k] == spec_best_uct(
                g,
                n.children@,
                n.nb_visit,
                n.children@.len() as int,
            );
        assert(node < n.children@[k] < g.len());
        assert(g[b].parent == Some(node as usize));
        lemma_select_on_path(g, b);
        assert(on_path(g, node, node));
        assert(on_path(g, b, node));
        lemma_on_path_trans(g, spec_select(g, b), b, node);
        assert(spec_select(g, node) == spec_select(g, b));
    }
}

/// Descends from `node` to the UCT-best child while the node is playable
/// and fully expanded; at the stop node, when a legal move is still
/// untried, creates exactly one child for the next move in generator order
/// (with its status computed eagerly) and returns it, else returns the stop
/// node itself.  A node is only fully expanded when it has a child, and
/// every node with a child has been visited, so UCT never sees a zero
/// parent visit count.
pub fn selection(node: usize, graph: &mut Vec<Node>) -> (r: usize)
    requires
        wf_graph(old(graph)@),
        wf_stats(old(graph)@),
        node < old(graph)@.len(),
    ensures
        wf_graph(final(graph)@),
        r < final(graph)@.len(),
        ({
            let g0 = old(graph)@;
            let stop = spec_select(g0, node as int);
            &&& 0 <= stop < g0.len()
            &&& if expandable(g0, stop) {
                let ms = spec_moves(g0[stop].state.0, g0[stop].state.1);
                let cst = ms[g0[stop].children@.len() as int];
                &&& final(graph)@.len() == g0.len() + 1
                &&& r == g0.len()
                &&& final(graph)@[r as int].state == cst
                &&& final(graph)@[r as int].parent == Some(stop as usize)
                &&& final(graph)@[r as int].score == 0
                &&& final(graph)@[r as int].nb_visit == 0
                &&& final(graph)@[r as int].children@.len() == 0
                &&& final(graph)@[r as int].status == spec_status(cst.0, cst.1)
                &&& final(graph)@[stop].children@ == g0[stop].children@.push(r as usize)
                &&& final(graph)@[stop].state == g0[stop].state
                &&& final(graph)@[stop].parent == g0[stop].parent
                &&& final(graph)@[stop].score == g0[stop].score
                &&& final(graph)@[stop].nb_visit == g0[stop].nb_visit
                &&& final(graph)@[stop].status == g0[stop].status
                &&& (forall|i: int| 0 <= i < g0.len() && i != stop ==> final(graph)@[i] == g0[i])
            } else {
                &&& final(graph)@ == g0
                &&& r == stop
            }
        }),
{
    let ghost g0 = graph@;
    let mut cur = node;
    loop
        invariant
            g0 == old(graph)@,
            wf_graph(g0),
            wf_stats(g0),
            graph@ == g0,
            cur < g0.len(),
            node < g0.len(),
            spec_select(g0, node as int) == spec_select(g0, cur as int),
        decreases g0.len() - cur,
    {
        proof {
            assert(wf_node(g0, cur as int));
        }
        let cur_status = graph[cur].status;
        if cur_status != Status::Playing {
            proof {
                assert(spec_select(g0, cur as int) == cur as int);
            }
            return cur;
        }
        let st = graph[cur].state;
        let moves = get_moves(st.0, st.1);
        if moves.len() == 0 {
            proof {
                assert(spec_select(g0, cur as int) == cur as int);
            }
            return cur;
        }
        let ccount = graph[cur].children.len();
        if ccount < moves.len() {
            let child_move = moves[ccount];
            let child = graph.len();
            let cstatus = get_status(child_move.0, child_move.1);
            proof {
                assert(spec_select(g0, cur as int) == cur as int);
                assert(expandable(g0, cur as int));
                lemma_moves_shape(st.0, st.1);
                lemma_move_valid(st.0, st.1, spec_moves(st.0, st.1)[ccount as int]);
            }
            graph.push(
                Node {
                    state: child_move,
                    children: Vec::new(),
                    parent: Some(cur),
                    score: 0,
                    nb_visit: 0,
                    status: cstatus,
                },
            );
            graph[cur].children.push(child);
            proof {
                let gf = graph@;
                assert(gf[cur as int].children@ == g0[cur as int].children@.push(child));
                assert forall|i: int| 0 <= i < gf.len() implies wf_node(gf, i) by {
                    if i < g0.len() {
                        assert(wf_node(g0, i));
                    }
                }
            }
            return child;
        }
        let pv = graph[cur].nb_visit;
        proof {
            assert(g0[cur as int].children@.len() >= 1);
            assert(pv >= g0[cur as int].children@.len());
        }
        let ghost cs = g0[cur as int].children@;
        let mut best = graph[cur].children[0];
        proof {
            assert(cs[0] == best);
            assert(cur < best < g0.len());
            assert(wf_node(g0, best as int));
        }
        let mut bval = uct_value(graph[best].score, graph[best].nb_visit, pv);
        let mut k: usize = 1;
        while k < ccount
            invariant
                wf_graph(g0),
                wf_stats(g0),
                graph@ == g0,
                cur < g0.len(),
                1 <= k <= ccount,
                cs == g0[cur as int].children@,
                ccount == cs.len(),
                pv == g0[cur as int].nb_visit,
                pv >= 1,
                best == spec_best_uct(g0, cs, pv, k as int),
                exists|j: int| 0 <= j < k && cs[j] == best,
                bval as nat == spec_uct(g0[best as int].score, g0[best as int].nb_visit, pv),
            decreases ccount - k,
        {
            proof {
                assert(wf_node(g0, cur as int));
            }
            let c = graph[cur].children[k];
            proof {
                assert(cs[k as int] == c);
                assert(cur < c < g0.len());
                assert(wf_node(g0, c as int));
            }
            let v = uct_value(graph[c].score, graph[c].nb_visit, pv);
            if v > bval {
                best = c;
                bval = v;
            }
            k = k + 1;
        }
        proof {
            assert(best == spec_best_uct(g0, cs, pv, cs.len() as int));
            let j = choose|j: int| 0 <= j < cs.len() && cs[j] == best;
            assert(cur < best < g0.len());
            assert(spec_select(g0, cur as int) == spec_select(g0, best as int));
        }
        cur = best;
    }
}

/// A position where a rollout stops: the player who just moved has won,
/// or the board is full.  (A pre-existing four of the side to move does not
/// stop a rollout; outside degenerate positions it never arises.)
pub open spec fn rollout_over(s: (u64, u64)) -> bool {
    winning_mask(s.1) || s.0 | s.1 == FULL_GRID
}

/// `tr` is a finished playout: every position but the last is live and is
/// followed by one of its legal moves, and the last is where play stops.
pub open spec fn is_rollout(tr: Seq<(u64, u64)>) -> bool {
    &&& tr.len() >= 1
    &&& forall|k: int|
        0 <= k < tr.len() - 1 ==> !rollout_over(#[trigger] tr[k]) && spec_moves(
            tr[k].0,
            tr[k].1,
        ).contains(tr[k + 1])
    &&& rollout_over(tr.last())
}

/// The outcome of a finished playout, seen from its first position: 2 at
/// the end when the player who just moved won, 1 for a full board, flipped
/// once per ply on the way back (win and loss swap, a draw stays).
pub open spec fn rollout_outcome(tr: Seq<(u64, u64)>) -> u64 {
    let code: u64 = if winning_mask(tr.last().1) {
        2u64
    } else {
        1u64
    };
    flipped(code, (tr.len() - 1) as nat)
}

/// Plays legal moves from `(p1, p2)` by the rollout policy until a
/// terminal position, without touching the tree.  The result is the
/// outcome of the playout that was played, relative to the player about to
/// move at `(p1, p2)`: 2 when the player who moved into the terminal
/// position is a winner seen from here, 1 for a draw on a full board, 0
/// for a loss; win and loss flip at every ply.
pub fn simulation(p1: u64, p2: u64, policy: &RolloutPolicy) -> (r: u64)
    requires
        valid_state(p1, p2),
    ensures
        r <= 2,
        winning_mask(p2) ==> r == 2,
        !winning_mask(p2) && p1 | p2 == FULL_GRID ==> r == 1,
        exists|tr: Seq<(u64, u64)>|
            #[trigger] is_rollout(tr) && tr[0] == (p1, p2) && r == rollout_outcome(tr),
{
    if is_winning(p2) {
        proof {
            let tr0 = seq![(p1, p2)];
            assert(is_rollout(tr0) && tr0[0] == (p1, p2) && 2 == rollout_outcome(tr0));
        }
        return 2;
    }
    if p1 | p2 == FULL_GRID {
        proof {
            let tr0 = seq![(p1, p2)];
            assert(is_rollout(tr0) && tr0[0] == (p1, p2) && 1 == rollout_outcome(tr0));
        }
        return 1;
    }
    let mut a = p1;
    let mut b = p2;
    let mut odd_depth = false;
    let ghost mut tr: Seq<(u64, u64)> = seq![(p1, p2)];
    loop
        invariant
            valid_state(a, b),
            !winning_mask(b),
            a | b != FULL_GRID,
            tr.len() >= 1,
            tr[0] == (p1, p2),
            tr.last() == (a, b),
            forall|k: int|
                0 <= k < tr.len() - 1 ==> !rollout_over(#[trigger] tr[k]) && spec_moves(
                    tr[k].0,
                    tr[k].1,
                ).contains(tr[k + 1]),
            odd_depth == ((tr.len() - 1) % 2 == 1),
        decreases 64 - ones(a | b),
    {
        let ghost grid0 = a | b;
        let ghost tr0 = tr;
        let moves = get_moves(a, b);
        proof {
            lemma_moves_empty_iff_full(a, b);
        }
        let k = pick_index(policy, moves.len());
        let m = moves[k];
        proof {
            lemma_moves_shape(a, b);
            lemma_move_grows(a, b, m);
            lemma_ones_bound(m.0 | m.1);
            lemma_ones_bound(grid0);
            assert(spec_moves(a, b).contains(m));
            tr = tr.push(m);
            assert(!rollout_over(tr0.last()));
            assert forall|j: int|
                0 <= j < tr.len() - 1 implies !rollout_over(#[trigger] tr[j]) && spec_moves(
                tr[j].0,
                tr[j].1,
            ).contains(tr[j + 1]) by {
                if j < tr0.len() - 1 {
                    assert(tr[j] == tr0[j] && tr[j + 1] == tr0[j + 1]);
                } else {
                    assert(tr[j] == tr0.last() && tr[j + 1] == m);
                }
            }
        }
        a = m.0;
        b = m.1;
        odd_depth = !odd_depth;
        if is_winning(b) {
            proof {
                assert(rollout_over(tr.last()));
                assert(is_rollout(tr));
                let r0: u64 = if odd_depth {
                    0u64
                } else {
                    2u64
                };
                assert(r0 == rollout_outcome(tr));
            }
            return if odd_depth {
                0
            } else {
                2
            };
        }
        if a | b == FULL_GRID {
            proof {
                assert(rollout_over(tr.last()));
                assert(is_rollout(tr));
                assert(1u64 == rollout_outcome(tr));
            }
            return 1;
        }
    }
}

/// At most this many iterations run within one time budget, so a pass
/// counter can never overflow.
pub const ITERATION_CAP: u64 = 0x100000000;

/// One pass went through `w`: exactly `w` and its ancestors gained one
/// visit, every other node kept its count.
pub open spec fn one_pass_visits(g0: Seq<Node>, gf: Seq<Node>, w: int) -> bool {
    forall|i: int|
        0 <= i < g0.len() ==> #[trigger] gf[i].nb_visit == g0[i].nb_visit + (if on_path(gf, w, i) {
            1nat
        } else {
            0nat
        })
}

/// One search pass: select (and possibly expand), play a rollout from the
/// working node's position, and backpropagate its outcome code.  Exactly
/// the worked node and its ancestors gain one visit, so a node's visit
/// count equals the number of passes that ended at or below it.
pub fn one_iteration(graph: &mut Vec<Node>, root: usize, policy: &RolloutPolicy)
    requires
        wf_graph(old(graph)@),
        wf_stats(old(graph)@),
        root < old(graph)@.len(),
        forall|i: int| 0 <= i < old(graph)@.len() ==> old(graph)@[i].nb_visit < VISIT_LIMIT,
    ensures
        wf_graph(final(graph)@),
        wf_stats(final(graph)@),
        old(graph)@.len() <= final(graph)@.len() <= old(graph)@.len() + 1,
        arena_extends(old(graph)@, final(graph)@),
        forall|i: int|
            0 <= i < old(graph)@.len() ==> #[trigger] final(graph)@[i].nb_visit <= old(graph)@[i].nb_visit + 1,
        final(graph)@[root as int].nb_visit == old(graph)@[root as int].nb_visit + 1,
        forall|i: int|
            old(graph)@.len() <= i < final(graph)@.len() ==> #[trigger] final(graph)@[i].nb_visit
                <= 1,
        exists|w: int| 0 <= w < final(graph)@.len() && #[trigger] one_pass_visits(
            old(graph)@,
            final(graph)@,
            w,
        ),
        old(graph)@[root as int].status == Status::Playing && spec_moves(
            old(graph)@[root as int].state.0,
            old(graph)@[root as int].state.1,
        ).len() > 0 ==> final(graph)@[root as int].children@.len() >= 1,
{
    let ghost g0 = graph@;
    let w = selection(root, graph);
    let ghost g1 = graph@;
    let ghost stop = spec_select(g0, root as int);
    proof {
        assert(wf_node(g1, w as int));
    }
    let st = graph[w].state;
    let outcome = simulation(st.0, st.1, policy);
    proof {
        assert forall|i: int|
            0 <= i < g1.len() && on_path(g1, w as int, i) implies g1[i].nb_visit
            < VISIT_LIMIT by {
            if i < g0.len() {
                assert(g1[i].nb_visit == g0[i].nb_visit);
            } else {
                assert(g1[i].nb_visit == 0);
            }
        }
    }
    backpropagation(w, graph, outcome);
    proof {
        let gf = graph@;
        assert forall|i: int|
            0 <= i < g0.len() implies #[trigger] gf[i].state == g0[i].state && gf[i].parent
            == g0[i].parent && gf[i].status == g0[i].status && g0[i].children@.len()
            <= gf[i].children@.len() by {
            assert(gf[i].state == g1[i].state && gf[i].parent == g1[i].parent && gf[i].status
                == g1[i].status && gf[i].children == g1[i].children);
        }
        assert forall|i: int|
            #![trigger gf[i].nb_visit]
            0 <= i < g0.len() implies gf[i].nb_visit == g0[i].nb_visit + (if on_path(
            gf,
            w as int,
            i,
        ) {
            1nat
        } else {
            0nat
        }) by {
            lemma_on_path_same_parents(g1, gf, w as int, i);
            assert(g1[i].nb_visit == g0[i].nb_visit);
        }
        assert forall|i: int|
            g0.len() <= i < gf.len() implies #[trigger] gf[i].nb_visit <= 1 by {
            assert(g1[i].nb_visit == 0);
        }
        assert(one_pass_visits(g0, gf, w as int));
        // statistics well-formedness is restored once the pass is complete
        assert(on_path(g1, w as int, w as int));
        assert forall|j: int| 0 <= j < g0.len() implies g1[j].nb_visit == g0[j].nb_visit by {
            if expandable(g0, stop) && j != stop {
                assert(g1[j] == g0[j]);
            }
        }
        if expandable(g0, stop) {
            assert(w as int == g0.len());
            assert(g1[w as int].parent == Some(stop as usize));
            assert(on_path(g1, stop, stop));
            assert(on_path(g1, w as int, stop));
            assert(gf[stop].nb_visit == g1[stop].nb_visit + 1);
            assert(gf[w as int].nb_visit == 1);
        }
        assert forall|i: int|
            0 <= i < gf.len() implies #[trigger] gf[i].children@.len() <= gf[i].nb_visit by {
            assert(gf[i].children == g1[i].children);
            if expandable(g0, stop) {
                if i == stop {
                    assert(g1[i].children@.len() == g0[i].children@.len() + 1);
                    assert(g0[i].children@.len() <= g0[i].nb_visit);
                } else if i == w as int {
                    assert(g1[i].children@.len() == 0);
                } else {
                    assert(g1[i] == g0[i]);
                    assert(g0[i].children@.len() <= g0[i].nb_visit);
                    assert(gf[i].nb_visit >= g1[i].nb_visit);
                }
            } else {
                assert(g1[i] == g0[i]);
                assert(g0[i].children@.len() <= g0[i].nb_visit);
                assert(gf[i].nb_visit >= g1[i].nb_visit);
            }
        }
        assert forall|i: int, k: int|
            0 <= i < gf.len() && 0 <= k < gf[i].children@.len() implies gf[#[trigger] gf[i].children@[k] as int].nb_visit
            >= 1 by {
            assert(gf[i].children == g1[i].children);
            let c = gf[i].children@[k] as int;
            assert(wf_node(g1, i));
            assert(0 <= c < g1.len());
            if expandable(g0, stop) && i == stop && k == g0[i].children@.len() {
                assert(g1[i].children@ == g0[i].children@.push(w));
                assert(c == w as int);
                assert(gf[c].nb_visit == 1);
            } else {
                if expandable(g0, stop) {
                    if i == stop {
                        assert(wf_node(g0, i));
                        assert(g1[i].children@ == g0[i].children@.push(w));
                        assert(c == g0[i].children@[k]);
                        assert(g0[g0[i].children@[k] as int].nb_visit >= 1);
                        assert(0 <= c < g0.len());
                    } else if i == w as int {
                        assert(g1[i].children@.len() == 0);
                    } else {
                        assert(g1[i] == g0[i]);
                        assert(wf_node(g0, i));
                        assert(c == g0[i].children@[k]);
                        assert(g0[g0[i].children@[k] as int].nb_visit >= 1);
                        assert(0 <= c < g0.len());
                    }
                } else {
                    assert(g1[i] == g0[i]);
                    assert(wf_node(g0, i));
                    assert(c == g0[i].children@[k]);
                    assert(g0[g0[i].children@[k] as int].nb_visit >= 1);
                    assert(0 <= c < g0.len());
                }
                assert(g1[c].nb_visit >= 1);
                if on_path(g1, w as int, c) {
                    assert(gf[c].nb_visit == g1[c].nb_visit + 1);
                } else {
                    assert(gf[c] == g1[c]);
                }
                assert(gf[c].nb_visit >= g1[c].nb_visit);
            }
        }
        // a playable root with a legal move has a child after the pass
        if g0[root as int].status == Status::Playing && spec_moves(
            g0[root as int].state.0,
            g0[root as int].state.1,
        ).len() > 0 {
            if g0[root as int].children@.len() == 0 {
                assert(stop == root as int);
                assert(expandable(g0, stop));
                assert(g1[root as int].children@.len() == 1);
            }
            assert(gf[root as int].children@.len() >= 1);
        }
        // children lists only grow at the end
        assert forall|i: int|
            0 <= i < g0.len() implies g0[i].children@.is_prefix_of(
            #[trigger] gf[i].children@,
        ) by {
            assert(gf[i].children == g1[i].children);
            if expandable(g0, stop) && i == stop {
                assert(g1[i].children@ == g0[i].children@.push(w));
                assert(g0[i].children@ =~= g1[i].children@.subrange(
                    0,
                    g0[i].children@.len() as int,
                ));
            } else {
                assert(g1[i].children@ == g0[i].children@);
                assert(g0[i].children@ =~= g1[i].children@.subrange(
                    0,
                    g0[i].children@.len() as int,
                ));
            }
        }
        // scores never fall
        assert forall|i: int| 0 <= i < g0.len() implies g0[i].score <= #[trigger] gf[i].score by {
            if expandable(g0, stop) && i != stop {
                assert(g1[i] == g0[i]);
            }
            assert(g1[i].score == g0[i].score);
            if on_path(g1, w as int, i) {
                assert(gf[i].score == g1[i].score + flipped(
                    outcome,
                    crate::tree::path_dist(g1, w as int, i),
                ));
            } else {
                assert(gf[i] == g1[i]);
            }
        }
        // the pass went through the root, which gains exactly one visit
        lemma_select_on_path(g0, root as int);
        assert(on_path(g0, stop, root as int));
        if expandable(g0, stop) {
            lemma_on_path_grow(g0, g1, stop, root as int);
            assert(on_path(g1, w as int, stop));
            lemma_on_path_trans(g1, w as int, stop, root as int);
        } else {
            assert(on_path(g1, w as int, root as int));
        }
        lemma_on_path_same_parents(g1, gf, w as int, root as int);
        assert(on_path(gf, w as int, root as int));
        assert(gf[root as int].nb_visit == g0[root as int].nb_visit + 1);
    }
}

/// The plain average outcome `score / visits`, scaled by `UCT_SCALE`.
pub open spec fn spec_value(score: u64, visits: u64) -> nat {
    (score as nat * UCT_SCALE as nat) / visits as nat
}

/// Computes the scaled average outcome of a node; it never exceeds twice
/// the scale, the code of a sure win.
pub fn avg_value(score: u64, visits: u64) -> (v: u64)
    requires
        visits >= 1,
        score <= 2 * visits,
    ensures
        v as nat == spec_value(score, visits),
        v <= 2 * UCT_SCALE,
{
    proof {
        assert((score as u128) * (UCT_SCALE as u128) <= 0xFFFFFFFFFFFFFFFF * 0x10000u128)
            by (nonlinear_arith)
            requires
                score as u128 <= 0xFFFFFFFFFFFFFFFFu128,
        ;
    }
    let num: u128 = (score as u128) * (UCT_SCALE as u128);
    let v: u128 = num / (visits as u128);
    proof {
        let s = score as int;
        let vi = visits as int;
        let sc = UCT_SCALE as int;
        lemma_mul_inequality(s, 2 * vi, sc);
        lemma_div_is_ordered(s * sc, 2 * vi * sc, vi);
        lemma_div_multiples_vanish(2 * sc, vi);
        assert(2 * vi * sc == vi * (2 * sc)) by (nonlinear_arith);
        assert((s * sc) / vi <= 2 * sc);
    }
    v as u64
}

/// The entry with the greatest average outcome among the first `i`
/// children, the earliest on ties.
pub open spec fn spec_best_avg(g: Seq<Node>, cs: Seq<usize>, i: int) -> usize
    decreases i,
{
    if i <= 1 {
        cs[0]
    } else {
        let prev = spec_best_avg(g, cs, i - 1);
        let c = cs[i - 1];
        if spec_value(g[c as int].score, g[c as int].nb_visit) > spec_value(
            g[prev as int].score,
            g[prev as int].nb_visit,
        ) {
            c
        } else {
            prev
        }
    }
}

/// Picks the root child with the greatest average outcome (no exploration
/// term), the first on ties in creation order; returns its scaled value,
/// its position, and its index, for the caller to reuse as the next root.
pub fn best_move(graph: &Vec<Node>, root: usize) -> (res: (u64, (u64, u64), usize))
    requires
        wf_graph(graph@),
        wf_stats(graph@),
        root < graph@.len(),
        graph@[root as int].children@.len() >= 1,
    ensures
        res.2 == spec_best_avg(
            graph@,
            graph@[root as int].children@,
            graph@[root as int].children@.len() as int,
        ),
        res.2 < graph@.len(),
        graph@[root as int].children@.contains(res.2 as usize),
        res.1 == graph@[res.2 as int].state,
        res.0 as nat == spec_value(graph@[res.2 as int].score, graph@[res.2 as int].nb_visit),
        res.0 <= 2 * UCT_SCALE,
{
    let ghost g = graph@;
    let ghost cs = g[root as int].children@;
    let n = graph[root].children.len();
    proof {
        assert(wf_node(g, root as int));
    }
    let mut best = graph[root].children[0];
    proof {
        assert(cs[0] == best);
        assert(wf_node(g, best as int));
    }
    let mut bval = avg_value(graph[best].score, graph[best].nb_visit);
    let mut k: usize = 1;
    while k < n
        invariant
            wf_graph(g),
            wf_stats(g),
            g == graph@,
            root < g.len(),
            1 <= k <= n,
            cs == g[root as int].children@,
            n == cs.len(),
            best == spec_best_avg(g, cs, k as int),
            exists|j: int| 0 <= j < k && cs[j] == best,
            bval as nat == spec_value(g[best as int].score, g[best as int].nb_visit),
            bval <= 2 * UCT_SCALE,
        decreases n - k,
    {
        proof {
            assert(wf_node(g, root as int));
        }
        let c = graph[root].children[k];
        proof {
            assert(cs[k as int] == c);
            assert(wf_node(g, c as int));
        }
        let v = avg_value(graph[c].score, graph[c].nb_visit);
        if v > bval {
            best = c;
            bval = v;
        }
        k = k + 1;
    }
    proof {
        let j = choose|j: int| 0 <= j < cs.len() && cs[j] == best;
        assert(cs.contains(best));
        assert(wf_node(g, root as int));
    }
    let state = graph[best].state;
    (bval, state, best)
}

/// Runs exactly `iterations` search passes from `root`, then picks the best
/// child by average outcome.  The returned index points at a node holding
/// exactly the returned position, so the caller can make it the next root.
pub fn mcst_iterations(
    graph: Vec<Node>,
    root: usize,
    iterations: u64,
    policy: &RolloutPolicy,
) -> (res: (u64, (u64, u64), Vec<Node>, usize))
    requires
        wf_graph(graph@),
        wf_stats(graph@),
        root < graph@.len(),
        iterations >= 1,
        graph@[root as int].status == Status::Playing,
        forall|i: int| 0 <= i < graph@.len() ==> #[trigger] graph@[i].nb_visit + iterations
            <= VISIT_LIMIT,
    ensures
        wf_graph(res.2@),
        wf_stats(res.2@),
        root < res.2@.len(),
        res.3 < res.2@.len(),
        res.2@[root as int].children@.len() >= 1,
        res.2@[root as int].state == graph@[root as int].state,
        res.2@[res.3 as int].state == res.1,
        res.2@[root as int].children@.contains(res.3 as usize),
        res.3 == spec_best_avg(
            res.2@,
            res.2@[root as int].children@,
            res.2@[root as int].children@.len() as int,
        ),
        res.0 as nat == spec_value(res.2@[res.3 as int].score, res.2@[res.3 as int].nb_visit),
        res.0 <= 2 * UCT_SCALE,
        arena_extends(graph@, res.2@),
        res.2@[root as int].nb_visit == graph@[root as int].nb_visit + iterations,
{
    let ghost gin = graph@;
    let mut g = graph;
    proof {
        assert(wf_node(gin, root as int));
        lemma_moves_empty_iff_full(gin[root as int].state.0, gin[root as int].state.1);
        lemma_arena_extends_refl(gin);
    }
    let mut j: u64 = 0;
    while j < iterations
        invariant
            wf_graph(g@),
            wf_stats(g@),
            root < g@.len(),
            j <= iterations,
            arena_extends(gin, g@),
            g@[root as int].nb_visit == gin[root as int].nb_visit + j,
            g@[root as int].state == gin[root as int].state,
            g@[root as int].status == Status::Playing,
            spec_moves(g@[root as int].state.0, g@[root as int].state.1).len() > 0,
            forall|i: int|
                0 <= i < g@.len() ==> #[trigger] g@[i].nb_visit + (iterations - j) <= VISIT_LIMIT,
            j >= 1 ==> g@[root as int].children@.len() >= 1,
        decreases iterations - j,
    {
        let ghost gpre = g@;
        proof {
            assert(gpre[root as int].nb_visit + (iterations - j) <= VISIT_LIMIT);
        }
        one_iteration(&mut g, root, policy);
        j = j + 1;
        proof {
            lemma_arena_extends_trans(gin, gpre, g@);
            assert forall|i: int|
                0 <= i < g@.len() implies #[trigger] g@[i].nb_visit + (iterations - j)
                <= VISIT_LIMIT by {
                if i < gpre.len() {
                    assert(g@[i].nb_visit <= gpre[i].nb_visit + 1);
                } else {
                    assert(g@[i].nb_visit <= 1);
                }
            }
        }
    }
    let (value, state, best) = best_move(&g, root);
    (value, state, g, best)
}

/// Searches from `root` until the time budget (in milliseconds) has run
/// out, the deadline checked only at iteration boundaries, with at least
/// one pass and at most `ITERATION_CAP` passes; then picks the best child
/// by average outcome.  The returned index points at a node holding exactly
/// the returned position, so the caller can make it the next root.
pub fn mcst(graph: Vec<Node>, root: usize, time: u64, policy: &RolloutPolicy) -> (res: (
    u64,
    (u64, u64),
    Vec<Node>,
    usize,
))
    requires
        wf_graph(graph@),
        wf_stats(graph@),
        root < graph@.len(),
        graph@[root as int].status == Status::Playing,
        forall|i: int| 0 <= i < graph@.len() ==> #[trigger] graph@[i].nb_visit + ITERATION_CAP
            <= VISIT_LIMIT,
    ensures
        wf_graph(res.2@),
        wf_stats(res.2@),
        root < res.2@.len(),
        res.3 < res.2@.len(),
        res.2@[root as int].children@.len() >= 1,
        res.2@[root as int].state == graph@[root as int].state,
        res.2@[res.3 as int].state == res.1,
        res.2@[root as int].children@.contains(res.3 as usize),
        res.3 == spec_best_avg(
            res.2@,
            res.2@[root as int].children@,
            res.2@[root as int].children@.len() as int,
        ),
        res.0 as nat == spec_value(res.2@[res.3 as int].score, res.2@[res.3 as int].nb_visit),
        res.0 <= 2 * UCT_SCALE,
        arena_extends(graph@, res.2@),
        graph@[root as int].nb_visit < res.2@[root as int].nb_visit <= graph@[root as int].nb_visit
            + ITERATION_CAP,
{
    let ghost gin = graph@;
    let mut g = graph;
    proof {
        assert(wf_node(gin, root as int));
        lemma_moves_empty_iff_full(gin[root as int].state.0, gin[root as int].state.1);
        lemma_arena_extends_refl(gin);
    }
    let start = now_instant();
    let mut count: u64 = 0;
    loop
        invariant_except_break
            count < ITERATION_CAP,
        invariant
            wf_graph(g@),
            wf_stats(g@),
            root < g@.len(),
            count <= ITERATION_CAP,
            arena_extends(gin, g@),
            g@[root as int].nb_visit == gin[root as int].nb_visit + count,
            g@[root as int].state == gin[root as int].state,
            g@[root as int].status == Status::Playing,
            spec_moves(g@[root as int].state.0, g@[root as int].state.1).len() > 0,
            forall|i: int|
                0 <= i < g@.len() ==> #[trigger] g@[i].nb_visit + (ITERATION_CAP - count)
                    <= VISIT_LIMIT,
            count >= 1 ==> g@[root as int].children@.len() >= 1,
        ensures
            count >= 1,
        decreases ITERATION_CAP - count,
    {
        let ghost gpre = g@;
        proof {
            assert(gpre[root as int].nb_visit + (ITERATION_CAP - count) <= VISIT_LIMIT);
        }
        one_iteration(&mut g, root, policy);
        count = count + 1;
        proof {
            lemma_arena_extends_trans(gin, gpre, g@);
            assert forall|i: int|
                0 <= i < g@.len() implies #[trigger] g@[i].nb_visit + (ITERATION_CAP - count)
                <= VISIT_LIMIT by {
                if i < gpre.len() {
                    assert(g@[i].nb_visit <= gpre[i].nb_visit + 1);
                } else {
                    assert(g@[i].nb_visit <= 1);
                }
            }
        }
        if count >= ITERATION_CAP {
            break ;
        }
        if elapsed_millis(&start) >= time {
            break ;
        }
    }
    let (value, state, best) = best_move(&g, root);
    (value, state, g, best)
}

} // verus!
