//! A snapshot of the scene tree, and its depth-first walk.
//!
//! Nodes are numbered by their place in `SceneGraph::nodes`. A child number
//! that names no node stands for a child that was removed from the tree while
//! the snapshot was taken: the walk treats it as absent.
use vstd::prelude::*;
use crate::geometry::{Aabb, WorldTransform};

verus! {

/// One node of the tree: its children in order, and what it carries.
#[derive(Clone, Debug)]
pub struct SceneNode {
    pub children: Vec<usize>,
    /// The local bounding box of the node's geometry, if it has any.
    pub geometry: Option<Aabb>,
    /// The node's world transform, if the host has computed it yet.
    pub transform: Option<WorldTransform>,
}

#[derive(Clone, Debug)]
pub struct SceneGraph {
    pub nodes: Vec<SceneNode>,
}

pub open spec fn node_count(g: SceneGraph) -> int {
    g.nodes@.len() as int
}

pub open spec fn children_of(g: SceneGraph, p: usize) -> Seq<usize> {
    g.nodes@[p as int].children@
}

/// `c` is listed among the children of node `p`.
pub open spec fn is_child(g: SceneGraph, p: usize, c: usize) -> bool {
    &&& p < node_count(g)
    &&& exists|k: int| 0 <= k < children_of(g, p).len() && #[trigger] children_of(g, p)[k] == c
}

/// Node `n` appears in the walk `order`.
pub open spec fn visits(order: Seq<(usize, usize)>, n: usize) -> bool {
    exists|i: int| 0 <= i < order.len() && #[trigger] order[i].0 == n
}

/// Entry `i` of `order` is a child of an earlier entry, one level below it.
pub open spec fn has_parent_before(g: SceneGraph, order: Seq<(usize, usize)>, i: int) -> bool {
    exists|k: int|
        0 <= k < i && #[trigger] is_child(g, order[k].0, order[i].0) && order[i].1 == order[k].1 + 1
}

/// `order` is a walk of `g` from `start`: pairs of a node and its depth, the
/// start first at depth 0, each node once, each later node a child of an
/// earlier one and one level below it, and every existing child of a visited
/// node visited too. So the walk holds exactly the nodes reachable from
/// `start`, and nothing where `start` names no node.
pub open spec fn is_walk(g: SceneGraph, start: usize, order: Seq<(usize, usize)>) -> bool {
    &&& start >= node_count(g) ==> order.len() == 0
    &&& start < node_count(g) ==> order.len() > 0 && order[0] == (start, 0usize)
    &&& forall|i: int| 0 <= i < order.len() ==> #[trigger] order[i].0 < node_count(g)
    &&& forall|i: int, j: int| 0 <= i < j < order.len() ==> order[i].0 != order[j].0
    &&& forall|i: int| 0 < i < order.len() ==> #[trigger] has_parent_before(g, order, i)
    &&& forall|i: int, c: usize|
        0 <= i < order.len() && #[trigger] is_child(g, order[i].0, c) && c < node_count(g)
            ==> visits(order, c)
}

pub open spec fn count_marked(s: Seq<bool>) -> nat
    decreases s.len(),
{
    if s.len() == 0 {
        0
    } else {
        count_marked(s.drop_last()) + if s.last() {
            1nat
        } else {
            0nat
        }
    }
}

proof fn lemma_count_bound(s: Seq<bool>)
    ensures
        count_marked(s) <= s.len(),
    decreases s.len(),
{
    if s.len() > 0 {
        lemma_count_bound(s.drop_last());
    }
}

proof fn lemma_count_set(s: Seq<bool>, i: int)
    requires
        0 <= i < s.len(),
        !s[i],
    ensures
        count_marked(s.update(i, true)) == count_marked(s) + 1,
    decreases s.len(),
{
    let t = s.update(i, true);
    if i == s.len() - 1 {
        assert(t.drop_last() =~= s.drop_last());
    } else {
        assert(t.drop_last() =~= s.drop_last().update(i, true));
        lemma_count_set(s.drop_last(), i);
    }
}

spec fn in_stack(st: Seq<(usize, usize, usize)>, k: usize) -> bool {
    exists|j: int| 0 <= j < st.len() && #[trigger] st[j].0 == k
}

/// What holds between the rounds of the walk: `out` is what was emitted,
/// `st` the pending nodes with their depth and the place of their parent in
/// `out`, `vis` the nodes in either.
spec fn walk_state(
    g: SceneGraph,
    start: usize,
    out: Seq<(usize, usize)>,
    st: Seq<(usize, usize, usize)>,
    vis: Seq<bool>,
) -> bool {
    let n = node_count(g);
    &&& start < n
    &&& vis.len() == n
    &&& count_marked(vis) == out.len() + st.len()
    &&& forall|k: usize| k < n ==> (#[trigger] vis[k as int] <==> visits(out, k) || in_stack(st, k))
    &&& forall|i: int| 0 <= i < out.len() ==> #[trigger] out[i].0 < n && out[i].1 <= i
    &&& forall|j: int| 0 <= j < st.len() ==> #[trigger] st[j].0 < n && st[j].1 <= out.len()
    &&& forall|i: int, j: int| 0 <= i < j < out.len() ==> out[i].0 != out[j].0
    &&& forall|i: int, j: int| 0 <= i < j < st.len() ==> st[i].0 != st[j].0
    &&& forall|i: int, j: int| 0 <= i < out.len() && 0 <= j < st.len() ==> out[i].0 != st[j].0
    &&& out.len() > 0 ==> out[0] == (start, 0usize)
    &&& out.len() == 0 ==> st == seq![(start, 0usize, 0usize)]
    &&& forall|i: int| 0 < i < out.len() ==> #[trigger] has_parent_before(g, out, i)
    &&& out.len() > 0 ==> forall|j: int|
        0 <= j < st.len() ==> {
            let p = #[trigger] st[j].2;
            &&& p < out.len()
            &&& is_child(g, out[p as int].0, st[j].0)
            &&& st[j].1 == out[p as int].1 + 1
        }
}

/// Every existing child of the first `m` emitted nodes is marked in `vis`.
spec fn closed_upto(g: SceneGraph, out: Seq<(usize, usize)>, vis: Seq<bool>, m: int) -> bool {
    forall|i: int, c: usize|
        0 <= i < m && #[trigger] is_child(g, out[i].0, c) && c < node_count(g) ==> vis[c as int]
}

/// The pending list and the met nodes after the children of a node, taken
/// from index `j - 1` down to 0, are pushed: each child that names a node not
/// met yet is pushed with `depth + 1` and the place `idx` of its parent in the
/// emitted list, and is then met. Taking them from the last one down leaves
/// the first child on top.
pub open spec fn push_children(
    g: SceneGraph,
    ch: Seq<usize>,
    depth: usize,
    idx: usize,
    j: int,
    st: Seq<(usize, usize, usize)>,
    seen: Seq<bool>,
) -> (Seq<(usize, usize, usize)>, Seq<bool>)
    decreases j,
{
    if j <= 0 {
        (st, seen)
    } else {
        let c = ch[j - 1];
        if c < node_count(g) && !seen[c as int] {
            push_children(
                g,
                ch,
                depth,
                idx,
                j - 1,
                st.push((c, (depth + 1) as usize, idx)),
                seen.update(c as int, true),
            )
        } else {
            push_children(g, ch, depth, idx, j - 1, st, seen)
        }
    }
}

/// One round of the depth-first walk on the state (emitted pairs, pending
/// nodes, met nodes): the top pending node is emitted and its children are
/// pushed. With nothing pending the state stays as it is.
pub open spec fn walk_step(
    g: SceneGraph,
    s: (Seq<(usize, usize)>, Seq<(usize, usize, usize)>, Seq<bool>),
) -> (Seq<(usize, usize)>, Seq<(usize, usize, usize)>, Seq<bool>) {
    if s.1.len() == 0 {
        s
    } else {
        let top = s.1.last();
        let out = s.0.push((top.0, top.1));
        let ch = children_of(g, top.0);
        let pushed = push_children(
            g,
            ch,
            top.1,
            (out.len() - 1) as usize,
            ch.len() as int,
            s.1.drop_last(),
            s.2,
        );
        (out, pushed.0, pushed.1)
    }
}

pub open spec fn walk_steps(
    g: SceneGraph,
    s: (Seq<(usize, usize)>, Seq<(usize, usize, usize)>, Seq<bool>),
    k: nat,
) -> (Seq<(usize, usize)>, Seq<(usize, usize, usize)>, Seq<bool>)
    decreases k,
{
    if k == 0 {
        s
    } else {
        walk_step(g, walk_steps(g, s, (k - 1) as nat))
    }
}

/// The walk's state before its first round: `start` pending at depth 0, and
/// met.
pub open spec fn walk_start(g: SceneGraph, start: usize) -> (
    Seq<(usize, usize)>,
    Seq<(usize, usize, usize)>,
    Seq<bool>,
) {
    (
        Seq::empty(),
        seq![(start, 0usize, 0usize)],
        Seq::new(node_count(g) as nat, |k: int| k == start),
    )
}

/// The depth-first preorder from `start`: a node, then the subtree of each of
/// its children in the order the node lists them, a node met before being
/// left out. Each round emits a node, so as many rounds as there are nodes
/// finish the walk.
pub open spec fn preorder(g: SceneGraph, start: usize) -> Seq<(usize, usize)> {
    if start >= node_count(g) {
        Seq::empty()
    } else {
        walk_steps(g, walk_start(g, start), node_count(g) as nat).0
    }
}

proof fn lemma_walk_finished(
    g: SceneGraph,
    s: (Seq<(usize, usize)>, Seq<(usize, usize, usize)>, Seq<bool>),
    k: nat,
    m: nat,
)
    requires
        k <= m,
        walk_steps(g, s, k).1.len() == 0,
    ensures
        walk_steps(g, s, m) == walk_steps(g, s, k),
    decreases m,
{
    if m > k {
        lemma_walk_finished(g, s, k, (m - 1) as nat);
    }
}

/// Depth-first walk of the tree below `start`, in preorder, children in the
/// order the node lists them. Each reachable node comes once, with its depth
/// below `start`.
pub fn walk(g: &SceneGraph, start: usize) -> (r: Vec<(usize, usize)>)
    ensures
        r@ == preorder(*g, start),
        is_walk(*g, start, r@),
{
    let n = g.nodes.len();
    let mut out: Vec<(usize, usize)> = Vec::new();
    if start >= n {
        return out;
    }
    let mut vis: Vec<bool> = Vec::new();
    while vis.len() < n
        invariant
            vis.len() <= n,
            forall|k: int| 0 <= k < vis.len() ==> !vis@[k],
            count_marked(vis@) == 0,
        decreases n - vis.len(),
    {
        let ghost before = vis@;
        vis.push(false);
        assert(vis@.drop_last() =~= before);
    }
    proof {
        lemma_count_set(vis@, start as int);
    }
    vis[start] = true;
    let mut st: Vec<(usize, usize, usize)> = Vec::new();
    st.push((start, 0, 0));
    assert(st@ =~= seq![(start, 0usize, 0usize)]);
    assert(st@[0].0 == start);
    assert(in_stack(st@, start));
    assert(walk_state(*g, start, out@, st@, vis@));
    assert(vis@ =~= walk_start(*g, start).2);
    assert((out@, st@, vis@) == walk_steps(*g, walk_start(*g, start), 0));
    while st.len() > 0
        invariant
            n == node_count(*g),
            walk_state(*g, start, out@, st@, vis@),
            closed_upto(*g, out@, vis@, out@.len() as int),
            (out@, st@, vis@) == walk_steps(*g, walk_start(*g, start), out@.len() as nat),
        decreases n - count_marked(vis@) + st.len(),
    {
        proof {
            lemma_count_bound(vis@);
        }
        let ghost st_before = st@;
        let ghost prev = (out@, st@, vis@);
        let top = st.pop().unwrap();
        let (node, depth, parent) = top;
        assert(top == st_before[st_before.len() - 1]);
        let ghost out_before = out@;
        out.push((node, depth));
        let idx: usize = out.len() - 1;
        assert(out@[idx as int] == (node, depth));
        assert(forall|j: int| 0 <= j < st@.len() ==> st@[j] == st_before[j]);
        assert(forall|i: int| 0 <= i < idx ==> out@[i] == out_before[i]);
        assert forall|k: usize| k < n implies (#[trigger] vis@[k as int] <==> visits(out@, k)
            || in_stack(st@, k)) by {
            if vis@[k as int] {
                if visits(out_before, k) {
                    let i = choose|i: int| 0 <= i < out_before.len() && #[trigger] out_before[i].0 == k;
                    assert(out@[i].0 == k);
                } else {
                    let j = choose|j: int| 0 <= j < st_before.len() && #[trigger] st_before[j].0 == k;
                    if j == st_before.len() - 1 {
                        assert(out@[idx as int].0 == k);
                    } else {
                        assert(st@[j].0 == k);
                    }
                }
            }
            if visits(out@, k) {
                let i = choose|i: int| 0 <= i < out@.len() && #[trigger] out@[i].0 == k;
                if i < idx {
                    assert(out_before[i].0 == k);
                } else {
                    assert(st_before[st_before.len() - 1].0 == k);
                }
            }
            if in_stack(st@, k) {
                let j = choose|j: int| 0 <= j < st@.len() && #[trigger] st@[j].0 == k;
                assert(st_before[j].0 == k);
            }
        }
        assert forall|i: int| 0 < i < out@.len() implies #[trigger] has_parent_before(*g, out@, i) by {
            if i < idx {
                assert(has_parent_before(*g, out_before, i));
                let k = choose|k: int|
                    0 <= k < i && #[trigger] is_child(*g, out_before[k].0, out_before[i].0)
                        && out_before[i].1 == out_before[k].1 + 1;
                assert(is_child(*g, out@[k].0, out@[i].0));
            } else {
                let p = st_before[st_before.len() - 1].2;
                assert(is_child(*g, out@[p as int].0, out@[i].0));
            }
        }
        assert(walk_state(*g, start, out@, st@, vis@));
        let children = &g.nodes[node].children;
        let mut j: usize = children.len();
        let ghost target = push_children(*g, children@, depth, idx, children@.len() as int, st@, vis@);
        assert(walk_step(*g, prev) == (out@, target.0, target.1));
        while j > 0
            invariant
                push_children(*g, children@, depth, idx, j as int, st@, vis@) == target,
                n == node_count(*g),
                idx == out@.len() - 1,
                out@[idx as int].0 == node,
                out@[idx as int].1 == depth,
                node < n,
                children@ == children_of(*g, node),
                j <= children@.len(),
                walk_state(*g, start, out@, st@, vis@),
                closed_upto(*g, out@, vis@, idx as int),
                forall|k: int|
                    j <= k < children@.len() && #[trigger] children@[k] < n ==> vis@[children@[k] as int],
            decreases j,
        {
            j = j - 1;
            let c = children[j];
            if c < n && !vis[c] {
                proof {
                    lemma_count_set(vis@, c as int);
                    lemma_count_bound(vis@.update(c as int, true));
                }
                let ghost vis_before = vis@;
                let ghost st_prev = st@;
                vis[c] = true;
                st.push((c, depth + 1, idx));
                assert(forall|jj: int| 0 <= jj < st_prev.len() ==> st@[jj] == st_prev[jj]);
                assert(st@[st_prev.len() as int] == (c, (depth + 1) as usize, idx));
                assert(is_child(*g, node, c));
                assert forall|k: usize| k < n implies (#[trigger] vis@[k as int] <==> visits(
                    out@,
                    k,
                ) || in_stack(st@, k)) by {
                    if k == c {
                        assert(st@[st_prev.len() as int].0 == k);
                    } else {
                        assert(vis@[k as int] == vis_before[k as int]);
                        if in_stack(st_prev, k) {
                            let jj = choose|jj: int| 0 <= jj < st_prev.len() && #[trigger] st_prev[jj].0 == k;
                            assert(st@[jj].0 == k);
                        }
                        if in_stack(st@, k) {
                            let jj = choose|jj: int| 0 <= jj < st@.len() && #[trigger] st@[jj].0 == k;
                            assert(st_prev[jj].0 == k);
                        }
                    }
                }
                assert forall|i: int| 0 <= i < out@.len() implies out@[i].0 != c by {
                    assert(visits(out@, out@[i].0));
                }
                assert forall|jj: int| 0 <= jj < st_prev.len() implies st_prev[jj].0 != c by {
                    assert(in_stack(st_prev, st_prev[jj].0));
                }
                assert(walk_state(*g, start, out@, st@, vis@));
            }
        }
        assert((st@, vis@) == target);
        assert(closed_upto(*g, out@, vis@, out@.len() as int)) by {
            assert forall|i: int, c: usize|
                0 <= i < out@.len() && #[trigger] is_child(*g, out@[i].0, c) && c < node_count(*g)
                    implies vis@[c as int] by {
                if i == idx {
                    let k = choose|k: int|
                        0 <= k < children_of(*g, node).len() && #[trigger] children_of(*g, node)[k]
                            == c;
                    assert(children@[k] == c);
                }
            }
        }
    }
    assert forall|i: int, c: usize|
        0 <= i < out@.len() && #[trigger] is_child(*g, out@[i].0, c) && c < node_count(*g)
            implies visits(out@, c) by {
        assert(vis@[c as int]);
    }
    proof {
        lemma_count_bound(vis@);
        lemma_walk_finished(*g, walk_start(*g, start), out@.len() as nat, n as nat);
    }
    out
}

} // verus!
