//! The game tree: an append-only arena of nodes addressed by index.
//!
//! Parent and child links are plain indices into one owning vector, which
//! breaks the otherwise cyclic parent/child graph; a child always has a
//! larger index than its parent, so every walk towards the root terminates.

use vstd::prelude::*;

use crate::board::{get_status, spec_status, valid_state, Status};

verus! {

/// Visit counts stay below this bound, so that one more search pass can
/// never overflow a node's statistics.
pub const VISIT_LIMIT: u64 = 0x4000000000000000;

/// One node of the search tree.
pub struct Node {
    /// The position this node stands for.
    pub state: (u64, u64),
    /// Indices of the children, in the move generator's order.
    pub children: Vec<usize>,
    /// Index of the parent; `None` for the original root.
    pub parent: Option<usize>,
    /// Accumulated rollout outcomes, each in `0..=2`.
    pub score: u64,
    /// How many backpropagation passes went through this node.
    pub nb_visit: u64,
    /// The position's terminal status, computed when the node was made.
    pub status: Status,
}

/// Structural well-formedness of one node: links point inside the arena
/// and towards larger indices, a child's parent field names this node, and
/// the statistics and the cached status are consistent with the position.
pub open spec fn wf_node(g: Seq<Node>, i: int) -> bool {
    &&& (g[i].parent matches Some(p) ==> p < i)
    &&& (forall|k: int|
        0 <= k < g[i].children@.len() ==> i < #[trigger] g[i].children@[k] < g.len())
    &&& (forall|k: int|
        0 <= k < g[i].children@.len() ==> g[#[trigger] g[i].children@[k] as int].parent == Some(
            i as usize,
        ))
    &&& g[i].score <= 2 * g[i].nb_visit
    &&& valid_state(g[i].state.0, g[i].state.1)
    &&& g[i].status == spec_status(g[i].state.0, g[i].state.1)
}

/// Structural well-formedness of the whole arena.
pub open spec fn wf_graph(g: Seq<Node>) -> bool {
    &&& g.len() >= 1
    &&& forall|i: int| 0 <= i < g.len() ==> #[trigger] wf_node(g, i)
}

/// Statistics well-formedness, as it holds between search iterations:
/// every child has been visited at least once, and a node has been visited
/// at least once per child (each expansion ends one pass through it), so
/// UCT never sees a zero visit count.
pub open spec fn wf_stats(g: Seq<Node>) -> bool {
    &&& forall|i: int| 0 <= i < g.len() ==> #[trigger] g[i].children@.len() <= g[i].nb_visit
    &&& forall|i: int, k: int|
        0 <= i < g.len() && 0 <= k < g[i].children@.len() ==> g[#[trigger] g[i].children@[k] as int].nb_visit
            >= 1
}

/// `i` lies on the parent walk that starts at `node` (inclusive) and ends
/// at a node without a parent.
pub open spec fn on_path(g: Seq<Node>, node: int, i: int) -> bool
    decreases node,
{
    if i == node {
        true
    } else if 0 <= node < g.len() {
        match g[node].parent {
            Some(p) => if (p as int) < node {
                on_path(g, p as int, i)
            } else {
                false
            },
            None => false,
        }
    } else {
        false
    }
}

/// How many steps the parent walk from `node` takes to reach `i`.
pub open spec fn path_dist(g: Seq<Node>, node: int, i: int) -> nat
    decreases node,
{
    if i == node {
        0
    } else if 0 <= node < g.len() {
        match g[node].parent {
            Some(p) => if (p as int) < node {
                1 + path_dist(g, p as int, i)
            } else {
                0
            },
            None => 0,
        }
    } else {
        0
    }
}

/// The outcome code seen from the other player: win and loss swap, a draw
/// stays a draw.
pub open spec fn flip(s: u64) -> u64 {
    if s <= 2 {
        (2 - s) as u64
    } else {
        s
    }
}

/// `s` flipped once per ply of distance `d`.
pub open spec fn flipped(s: u64, d: nat) -> u64 {
    if d % 2 == 0 {
        s
    } else {
        flip(s)
    }
}

/// The parent walk only ever visits indices at or below its start.
pub proof fn lemma_on_path_le(g: Seq<Node>, node: int, i: int)
    requires
        on_path(g, node, i),
    ensures
        i <= node,
    decreases node,
{
    if i != node && 0 <= node < g.len() {
        match g[node].parent {
            Some(p) => {
                if (p as int) < node {
                    lemma_on_path_le(g, p as int, i);
                }
            },
            None => {},
        }
    }
}

/// The parent walk concatenates: what lies on the walk from `y`, and `y`
/// itself, lies on the walk from any `x` whose walk reaches `y`.
pub proof fn lemma_on_path_trans(g: Seq<Node>, x: int, y: int, z: int)
    requires
        on_path(g, x, y),
        on_path(g, y, z),
    ensures
        on_path(g, x, z),
    decreases x,
{
    if x != y {
        match g[x].parent {
            Some(p) => {
                if (p as int) < x {
                    lemma_on_path_trans(g, p as int, y, z);
                }
            },
            None => {},
        }
    }
}

/// The parent walk from a node of the shorter arena is unchanged in a
/// longer arena whose parent links agree on the shorter one's nodes.
pub proof fn lemma_on_path_grow(g1: Seq<Node>, g2: Seq<Node>, node: int, i: int)
    requires
        g1.len() <= g2.len(),
        node < g1.len(),
        forall|j: int| 0 <= j < g1.len() ==> g1[j].parent == #[trigger] g2[j].parent,
    ensures
        on_path(g1, node, i) == on_path(g2, node, i),
    decreases node,
{
    if i != node && 0 <= node < g1.len() {
        match g1[node].parent {
            Some(p) => {
                if (p as int) < node {
                    lemma_on_path_grow(g1, g2, p as int, i);
                }
            },
            None => {},
        }
    }
}

/// A prefix of a prefix is a prefix.
pub proof fn lemma_prefix_trans(a: Seq<usize>, b: Seq<usize>, c: Seq<usize>)
    requires
        a.is_prefix_of(b),
        b.is_prefix_of(c),
    ensures
        a.is_prefix_of(c),
{
    assert forall|k: int| 0 <= k < a.len() implies a[k] == c[k] by {
        assert(a[k] == b[k]);
        assert(b[k] == c[k]);
    }
    assert(a =~= c.subrange(0, a.len() as int));
}

/// The parent walk is unchanged between two arenas whose parent links agree.
pub proof fn lemma_on_path_same_parents(g1: Seq<Node>, g2: Seq<Node>, node: int, i: int)
    requires
        g1.len() == g2.len(),
        forall|j: int| 0 <= j < g1.len() ==> g1[j].parent == #[trigger] g2[j].parent,
    ensures
        on_path(g1, node, i) == on_path(g2, node, i),
        path_dist(g1, node, i) == path_dist(g2, node, i),
    decreases node,
{
    if i != node && 0 <= node < g1.len() {
        match g1[node].parent {
            Some(p) => {
                if (p as int) < node {
                    lemma_on_path_same_parents(g1, g2, p as int, i);
                }
            },
            None => {},
        }
    }
}

/// The search only grows the arena: `g2` keeps every node of `g1` at its
/// index with its position, parent link and status, only appends to its
/// children list, and never lowers its visit count or its score.
pub open spec fn arena_extends(g1: Seq<Node>, g2: Seq<Node>) -> bool {
    &&& g1.len() <= g2.len()
    &&& forall|i: int| 0 <= i < g1.len() ==> #[trigger] g2[i].state == g1[i].state
    &&& forall|i: int| 0 <= i < g1.len() ==> #[trigger] g2[i].parent == g1[i].parent
    &&& forall|i: int| 0 <= i < g1.len() ==> #[trigger] g2[i].status == g1[i].status
    &&& forall|i: int|
        0 <= i < g1.len() ==> g1[i].children@.is_prefix_of(#[trigger] g2[i].children@)
    &&& forall|i: int| 0 <= i < g1.len() ==> g1[i].nb_visit <= #[trigger] g2[i].nb_visit
    &&& forall|i: int| 0 <= i < g1.len() ==> g1[i].score <= #[trigger] g2[i].score
}

/// An arena extends itself.
pub proof fn lemma_arena_extends_refl(g: Seq<Node>)
    ensures
        arena_extends(g, g),
{
    assert forall|i: int|
        0 <= i < g.len() implies g[i].children@.is_prefix_of(#[trigger] g[i].children@) by {
        assert(g[i].children@ =~= g[i].children@.subrange(0, g[i].children@.len() as int));
    }
}

/// Extending twice extends.
pub proof fn lemma_arena_extends_trans(g1: Seq<Node>, g2: Seq<Node>, g3: Seq<Node>)
    requires
        arena_extends(g1, g2),
        arena_extends(g2, g3),
    ensures
        arena_extends(g1, g3),
{
    assert forall|i: int|
        0 <= i < g1.len() implies g1[i].children@.is_prefix_of(#[trigger] g3[i].children@) by {
        lemma_prefix_trans(g1[i].children@, g2[i].children@, g3[i].children@);
    }
}

/// Makes the arena holding only the empty-board root node.
pub fn init_graph() -> (g: Vec<Node>)
    ensures
        g@.len() == 1,
        wf_graph(g@),
        wf_stats(g@),
        g@[0].state == (0u64, 0u64),
        g@[0].children@.len() == 0,
        g@[0].parent is None,
        g@[0].score == 0,
        g@[0].nb_visit == 0,
        g@[0].status == Status::Playing,
{
    proof {
        assert(0u64 & 0b11111110111111101111111011111110111111101111111u64 == 0u64) by (bit_vector);
        assert(0u64 & 0u64 == 0u64) by (bit_vector);
        assert(0u64 & (0u64 >> 1) & (0u64 >> 2) & (0u64 >> 3) == 0) by (bit_vector);
        assert(0u64 & (0u64 >> 8) & (0u64 >> 16) & (0u64 >> 24) == 0) by (bit_vector);
        assert(0u64 & (0u64 >> 9) & (0u64 >> 18) & (0u64 >> 27) == 0) by (bit_vector);
        assert(0u64 & (0u64 >> 7) & (0u64 >> 14) & (0u64 >> 21) == 0) by (bit_vector);
        assert(0u64 | 0u64 == 0u64) by (bit_vector);
        assert(spec_status(0u64, 0u64) == Status::Playing);
    }
    let status = get_status(0, 0);
    let mut graph: Vec<Node> = Vec::new();
    graph.push(
        Node {
            state: (0, 0),
            children: Vec::new(),
            parent: None,
            score: 0,
            nb_visit: 0,
            status,
        },
    );
    graph
}

/// Adds one visit and the outcome `score` to the node, then walks up the
/// parent links, flipping the outcome at every ply, until the walk reaches
/// a node without a parent.  Exactly the nodes on that walk change, each
/// by one visit: a node's visit count equals the number of passes that
/// ended at or below it.
pub fn backpropagation(node: usize, graph: &mut Vec<Node>, score: u64)
    requires
        wf_graph(old(graph)@),
        node < old(graph)@.len(),
        score <= 2,
        forall|i: int|
            0 <= i < old(graph)@.len() && on_path(old(graph)@, node as int, i) ==> old(graph)@[i].nb_visit < VISIT_LIMIT,
    ensures
        final(graph)@.len() == old(graph)@.len(),
        wf_graph(final(graph)@),
        forall|i: int|
            0 <= i < final(graph)@.len() ==> #[trigger] final(graph)@[i].state == old(graph)@[i].state,
        forall|i: int|
            0 <= i < final(graph)@.len() ==> #[trigger] final(graph)@[i].parent == old(graph)@[i].parent,
        forall|i: int|
            0 <= i < final(graph)@.len() ==> #[trigger] final(graph)@[i].status == old(graph)@[i].status,
        forall|i: int|
            0 <= i < final(graph)@.len() ==> #[trigger] final(graph)@[i].children == old(graph)@[i].children,
        forall|i: int|
            0 <= i < final(graph)@.len() && !on_path(old(graph)@, node as int, i) ==> final(graph)@[i] == old(graph)@[i],
        forall|i: int|
            0 <= i < final(graph)@.len() && on_path(old(graph)@, node as int, i)
                ==> #[trigger] final(graph)@[i].nb_visit == old(graph)@[i].nb_visit + 1,
        forall|i: int|
            0 <= i < final(graph)@.len() && on_path(old(graph)@, node as int, i)
                ==> #[trigger] final(graph)@[i].score == old(graph)@[i].score + flipped(
                score,
                path_dist(old(graph)@, node as int, i),
            ),
    decreases node,
{
    let ghost g0 = graph@;
    proof {
        assert(on_path(g0, node as int, node as int));
    }
    proof {
        assert(wf_node(g0, node as int));
    }
    let v = graph[node].nb_visit;
    let sc = graph[node].score;
    graph[node].nb_visit = v + 1;
    graph[node].score = sc + score;
    let ghost g1 = graph@;
    proof {
        assert forall|i: int| 0 <= i < g1.len() implies wf_node(g1, i) by {
            assert(wf_node(g0, i));
        }
    }
    let p_opt = graph[node].parent;
    match p_opt {
        Some(p) => {
            proof {
                assert(wf_node(g0, node as int));
                assert((p as int) < node as int);
                assert forall|i: int|
                    0 <= i < g1.len() && on_path(g1, p as int, i) implies g1[i].nb_visit
                    < VISIT_LIMIT by {
                    lemma_on_path_same_parents(g1, g0, p as int, i);
                    lemma_on_path_le(g0, p as int, i);
                    assert(on_path(g0, node as int, i));
                }
            }
            backpropagation(p, graph, 2 - score);
            proof {
                let gf = graph@;
                assert(g0[node as int].parent == Some(p));
                assert forall|i: int|
                    #![trigger gf[i].nb_visit]
                    #![trigger gf[i].score]
                    0 <= i < gf.len() && on_path(g0, node as int, i) implies gf[i].nb_visit
                    == g0[i].nb_visit + 1 && gf[i].score == g0[i].score + flipped(
                    score,
                    path_dist(g0, node as int, i),
                ) by {
                    lemma_on_path_same_parents(g1, g0, p as int, i);
                    if i == node as int {
                        if on_path(g0, p as int, i) {
                            lemma_on_path_le(g0, p as int, i);
                        }
                        assert(!on_path(g1, p as int, i));
                        assert(gf[i] == g1[i]);
                        assert(path_dist(g0, node as int, i) == 0);
                        assert(flipped(score, 0) == score);
                    } else {
                        assert(on_path(g0, p as int, i));
                        assert(on_path(g1, p as int, i));
                        assert(gf[i].nb_visit == g1[i].nb_visit + 1);
                        assert(gf[i].score == g1[i].score + flipped(
                            (2 - score) as u64,
                            path_dist(g1, p as int, i),
                        ));
                        assert(g1[i] == g0[i]);
                        assert(path_dist(g0, node as int, i) == 1 + path_dist(g0, p as int, i));
                        let d = path_dist(g0, p as int, i);
                        assert(flip(score) == 2 - score);
                        assert((d + 1) % 2 == 0 <==> d % 2 == 1);
                        assert(flipped(score, d + 1) == flipped((2 - score) as u64, d));
                    }
                }
                assert forall|i: int|
                    0 <= i < gf.len() && !on_path(g0, node as int, i) implies gf[i] == g0[i] by {
                    lemma_on_path_same_parents(g1, g0, p as int, i);
                }
                assert forall|i: int|
                    0 <= i < gf.len() implies #[trigger] gf[i].state == g0[i].state by {
                    assert(gf[i].state == g1[i].state);
                }
                assert forall|i: int|
                    0 <= i < gf.len() implies #[trigger] gf[i].parent == g0[i].parent by {
                    assert(gf[i].parent == g1[i].parent);
                }
                assert forall|i: int|
                    0 <= i < gf.len() implies #[trigger] gf[i].status == g0[i].status by {
                    assert(gf[i].status == g1[i].status);
                }
                assert forall|i: int|
                    0 <= i < gf.len() implies #[trigger] gf[i].children == g0[i].children by {
                    assert(gf[i].children == g1[i].children);
                }
            }
        },
        None => {
            proof {
                assert forall|i: int|
                    0 <= i < g1.len() && on_path(g0, node as int, i) implies i == node as int by {
                    if i != node as int {
                        assert(!on_path(g0, node as int, i));
                    }
                }
                assert(path_dist(g0, node as int, node as int) == 0);
                assert(flipped(score, 0) == score);
                assert(g1[node as int].nb_visit == g0[node as int].nb_visit + 1);
                assert(g1[node as int].score == g0[node as int].score + score);
            }
        },
    }
}

/// The first child of `root` (in creation order) holding position `s`.
pub open spec fn find_child_from(g: Seq<Node>, cs: Seq<usize>, k: int, s: (u64, u64)) -> Option<
    usize,
>
    decreases cs.len() - k,
{
    if k < 0 || k >= cs.len() {
        None
    } else if 0 <= cs[k] < g.len() && g[cs[k] as int].state == s {
        Some(cs[k])
    } else {
        find_child_from(g, cs, k + 1, s)
    }
}

/// The first child of `root` holding position `s`, if any.
pub open spec fn find_child(g: Seq<Node>, root: int, s: (u64, u64)) -> Option<usize> {
    find_child_from(g, g[root].children@, 0, s)
}

/// Moves the root to follow a real move to position `state`: to the first
/// child already holding that position, keeping the whole subtree and its
/// accumulated statistics; when no child holds it, the root node's position
/// and status are overwritten in place and its stale statistics and
/// children are kept.
pub fn advance_root(graph: &mut Vec<Node>, root: usize, state: (u64, u64)) -> (r: usize)
    requires
        wf_graph(old(graph)@),
        wf_stats(old(graph)@),
        root < old(graph)@.len(),
        valid_state(state.0, state.1),
    ensures
        wf_graph(final(graph)@),
        wf_stats(final(graph)@),
        r < final(graph)@.len(),
        final(graph)@.len() == old(graph)@.len(),
        final(graph)@[r as int].state == state,
        match find_child(old(graph)@, root as int, state) {
            Some(c) => r == c && final(graph)@ == old(graph)@,
            None => r == root && final(graph)@[root as int].status == spec_status(state.0, state.1)
                && final(graph)@[root as int].children == old(graph)@[root as int].children
                && final(graph)@[root as int].parent == old(graph)@[root as int].parent
                && final(graph)@[root as int].score == old(graph)@[root as int].score
                && final(graph)@[root as int].nb_visit == old(graph)@[root as int].nb_visit && (
            forall|i: int|
                0 <= i < final(graph)@.len() && i != root as int ==> final(graph)@[i] == old(graph)@[i]),
        },
{
    let ghost g0 = graph@;
    let ghost cs = graph@[root as int].children@;
    let n = graph[root].children.len();
    let mut k: usize = 0;
    while k < n
        invariant
            wf_graph(g0),
            graph@ == g0,
            root < g0.len(),
            n == cs.len(),
            cs == g0[root as int].children@,
            k <= n,
            wf_stats(g0),
            find_child(g0, root as int, state) == find_child_from(g0, cs, k as int, state),
        decreases n - k,
    {
        let c = graph[root].children[k];
        proof {
            assert(wf_node(g0, root as int));
            assert(cs[k as int] == c);
        }
        if graph[c].state.0 == state.0 && graph[c].state.1 == state.1 {
            assert(find_child(g0, root as int, state) == Some(c));
            return c;
        }
        k = k + 1;
    }
    assert(find_child(g0, root as int, state) is None);
    let status = get_status(state.0, state.1);
    graph[root].state = state;
    graph[root].status = status;
    proof {
        let gf = graph@;
        assert forall|i: int| 0 <= i < gf.len() implies wf_node(gf, i) by {
            assert(wf_node(g0, i));
        }
        assert forall|i: int| 0 <= i < gf.len() implies #[trigger] gf[i].children@.len()
            <= gf[i].nb_visit by {
            assert(g0[i].children@.len() <= g0[i].nb_visit);
        }
        assert forall|i: int, k2: int|
            0 <= i < gf.len() && 0 <= k2 < gf[i].children@.len() implies gf[#[trigger] gf[i].children@[k2] as int].nb_visit
            >= 1 by {
            assert(wf_node(g0, i));
            assert(g0[i].children@[k2] == gf[i].children@[k2]);
            assert(g0[g0[i].children@[k2] as int].nb_visit >= 1);
        }
    }
    root
}

} // verus!
