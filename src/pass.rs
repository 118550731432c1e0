//! The aggregation pass over one scene root: walk the tree below it, classify
//! each descendant, resolve the boxes of those with geometry, fold them into
//! the scene aggregate, and name the nodes to mark.
use vstd::prelude::*;
use crate::aggregate::{aggregate, scene_aggregate};
use crate::geometry::{
    Aabb, WorldTransform, has_valid_extents, resolution_fits, resolve, resolved_box,
};
use crate::ledger::{Ledger, with_marks};
use crate::scene::{SceneGraph, is_walk, node_count, walk};

verus! {

/// What a descendant is to the pass.
#[derive(Clone, Copy, Debug, PartialEq, Eq, Structural)]
pub enum NodeClass {
    /// Not marked, with a local box and a world transform.
    WithGeometry(Aabb, WorldTransform),
    /// Not marked, with no geometry.
    WithoutGeometry,
    /// Already marked by an earlier pass.
    Marked,
    /// Not marked, with geometry but no world transform yet: left for a later pass.
    MissingTransform,
}

/// Everything one pass over one scene root found.
#[derive(Clone, Debug)]
pub struct PassOutcome {
    /// The scene aggregate, if the root was not yet processed and some
    /// descendant contributed a box.
    pub aggregate: Option<Aabb>,
    /// The walk from the root: each reachable node with its depth; empty where
    /// the pass skipped the root.
    pub visited: Vec<(usize, usize)>,
    /// The nodes to mark: none where no aggregate was made, else the root and
    /// every visited descendant that was not marked yet and did not lack its
    /// transform.
    pub to_mark: Vec<usize>,
    /// Descendants with geometry but no world transform.
    pub missing_transform: Vec<usize>,
    /// Descendants whose box was rejected: a negative half-extent, or a world
    /// box outside 64-bit coordinates.
    pub rejected: Vec<usize>,
}

pub open spec fn class_of(g: SceneGraph, l: Set<usize>, id: usize) -> NodeClass {
    let n = g.nodes@[id as int];
    if l.contains(id) {
        NodeClass::Marked
    } else {
        match (n.geometry, n.transform) {
            (None, _) => NodeClass::WithoutGeometry,
            (Some(_), None) => NodeClass::MissingTransform,
            (Some(b), Some(xf)) => NodeClass::WithGeometry(b, xf),
        }
    }
}

/// The world box that node `id` gives to the aggregate, if any.
pub open spec fn contribution(g: SceneGraph, l: Set<usize>, id: usize) -> Option<Aabb> {
    match class_of(g, l, id) {
        NodeClass::WithGeometry(b, xf) => if has_valid_extents(b) && resolution_fits(b, xf) {
            Some(resolved_box(b, xf))
        } else {
            None
        },
        _ => None,
    }
}

pub open spec fn contributions(g: SceneGraph, l: Set<usize>, ids: Seq<usize>) -> Seq<Aabb> {
    ids.filter_map(|id: usize| contribution(g, l, id))
}

pub open spec fn nodes_to_mark(g: SceneGraph, l: Set<usize>, ids: Seq<usize>) -> Seq<usize> {
    ids.filter(|id: usize| class_of(g, l, id) is WithGeometry || class_of(g, l, id) is WithoutGeometry)
}

pub open spec fn nodes_missing_transform(g: SceneGraph, l: Set<usize>, ids: Seq<usize>) -> Seq<
    usize,
> {
    ids.filter(|id: usize| class_of(g, l, id) == NodeClass::MissingTransform)
}

pub open spec fn nodes_rejected(g: SceneGraph, l: Set<usize>, ids: Seq<usize>) -> Seq<usize> {
    ids.filter(
        |id: usize| class_of(g, l, id) is WithGeometry && contribution(g, l, id) is None,
    )
}

/// The nodes of a walk below its start.
pub open spec fn descendants(order: Seq<(usize, usize)>) -> Seq<usize> {
    if order.len() == 0 {
        Seq::empty()
    } else {
        order.drop_first().map_values(|p: (usize, usize)| p.0)
    }
}

/// The pass leaves `root` alone: it names no node, or it is already marked.
pub open spec fn pass_skips(g: SceneGraph, l: Set<usize>, root: usize) -> bool {
    root >= node_count(g) || l.contains(root)
}

pub open spec fn pass_aggregate(
    g: SceneGraph,
    l: Set<usize>,
    root: usize,
    order: Seq<(usize, usize)>,
) -> Option<Aabb> {
    if pass_skips(g, l, root) {
        None
    } else {
        scene_aggregate(contributions(g, l, descendants(order)))
    }
}

pub open spec fn pass_marks(
    g: SceneGraph,
    l: Set<usize>,
    root: usize,
    order: Seq<(usize, usize)>,
) -> Seq<usize> {
    if pass_aggregate(g, l, root, order) is None {
        Seq::empty()
    } else {
        seq![root] + nodes_to_mark(g, l, descendants(order))
    }
}

/// `r` is what a pass over `root` finds in `g` with the marks `l`.
pub open spec fn is_pass_outcome(g: SceneGraph, l: Set<usize>, root: usize, r: PassOutcome) -> bool {
    &&& pass_skips(g, l, root) ==> r.visited@.len() == 0
    &&& !pass_skips(g, l, root) ==> is_walk(g, root, r.visited@)
    &&& r.aggregate == pass_aggregate(g, l, root, r.visited@)
    &&& r.to_mark@ == pass_marks(g, l, root, r.visited@)
    &&& r.missing_transform@ == nodes_missing_transform(g, l, descendants(r.visited@))
    &&& r.rejected@ == nodes_rejected(g, l, descendants(r.visited@))
}

proof fn lemma_lists_empty(g: SceneGraph, l: Set<usize>, s: Seq<usize>)
    requires
        s.len() == 0,
    ensures
        contributions(g, l, s) == Seq::<Aabb>::empty(),
        nodes_to_mark(g, l, s) == Seq::<usize>::empty(),
        nodes_missing_transform(g, l, s) == Seq::<usize>::empty(),
        nodes_rejected(g, l, s) == Seq::<usize>::empty(),
{
    reveal(Seq::filter);
    assert(s =~= Seq::<usize>::empty());
}

proof fn lemma_lists_step(g: SceneGraph, l: Set<usize>, s: Seq<usize>)
    requires
        s.len() > 0,
    ensures
        contributions(g, l, s) == match contribution(g, l, s.last()) {
            Some(b) => contributions(g, l, s.drop_last()).push(b),
            None => contributions(g, l, s.drop_last()),
        },
        nodes_to_mark(g, l, s) == if class_of(g, l, s.last()) is WithGeometry || class_of(
            g,
            l,
            s.last(),
        ) is WithoutGeometry {
            nodes_to_mark(g, l, s.drop_last()).push(s.last())
        } else {
            nodes_to_mark(g, l, s.drop_last())
        },
        nodes_missing_transform(g, l, s) == if class_of(g, l, s.last())
            == NodeClass::MissingTransform {
            nodes_missing_transform(g, l, s.drop_last()).push(s.last())
        } else {
            nodes_missing_transform(g, l, s.drop_last())
        },
        nodes_rejected(g, l, s) == if class_of(g, l, s.last()) is WithGeometry && contribution(
            g,
            l,
            s.last(),
        ) is None {
            nodes_rejected(g, l, s.drop_last()).push(s.last())
        } else {
            nodes_rejected(g, l, s.drop_last())
        },
{
    reveal(Seq::filter);
    match contribution(g, l, s.last()) {
        Some(b) => {
            assert(contributions(g, l, s) =~= contributions(g, l, s.drop_last()).push(b));
        },
        None => {},
    }
}

/// Classifies node `id` for the pass.
pub fn classify(g: &SceneGraph, ledger: &Ledger, id: usize) -> (r: NodeClass)
    requires
        id < node_count(*g),
    ensures
        r == class_of(*g, ledger@, id),
{
    if ledger.is_marked(id) {
        return NodeClass::Marked;
    }
    let node = &g.nodes[id];
    match (node.geometry, node.transform) {
        (None, _) => NodeClass::WithoutGeometry,
        (Some(_), None) => NodeClass::MissingTransform,
        (Some(b), Some(xf)) => NodeClass::WithGeometry(b, xf),
    }
}

/// One aggregation pass over the scene below `root`, reading the marks of
/// `ledger` and changing nothing.
pub fn aggregation_pass(g: &SceneGraph, ledger: &Ledger, root: usize) -> (r: PassOutcome)
    ensures
        is_pass_outcome(*g, ledger@, root, r),
{
    let ghost l = ledger@;
    if root >= g.nodes.len() || ledger.is_marked(root) {
        let r = PassOutcome {
            aggregate: None,
            visited: Vec::new(),
            to_mark: Vec::new(),
            missing_transform: Vec::new(),
            rejected: Vec::new(),
        };
        assert(descendants(r.visited@) =~= Seq::<usize>::empty());
        proof {
            lemma_lists_empty(*g, l, descendants(r.visited@));
        }
        return r;
    }
    let visited = walk(g, root);
    let ghost ds = descendants(visited@);
    let mut boxes: Vec<Aabb> = Vec::new();
    let mut marks: Vec<usize> = Vec::new();
    let mut missing: Vec<usize> = Vec::new();
    let mut rejected: Vec<usize> = Vec::new();
    let mut i: usize = 1;
    assert(ds.take(0) =~= Seq::<usize>::empty());
    proof {
        lemma_lists_empty(*g, l, ds.take(0));
    }
    while i < visited.len()
        invariant
            is_walk(*g, root, visited@),
            visited@.len() > 0,
            ds == descendants(visited@),
            l == ledger@,
            1 <= i <= visited@.len(),
            boxes@ == contributions(*g, l, ds.take(i - 1)),
            marks@ == nodes_to_mark(*g, l, ds.take(i - 1)),
            missing@ == nodes_missing_transform(*g, l, ds.take(i - 1)),
            rejected@ == nodes_rejected(*g, l, ds.take(i - 1)),
        decreases visited.len() - i,
    {
        let id = visited[i].0;
        assert(ds[i - 1] == id);
        assert(ds.take(i as int).last() == id);
        assert(ds.take(i as int).drop_last() =~= ds.take(i - 1));
        proof {
            lemma_lists_step(*g, l, ds.take(i as int));
        }
        match classify(g, ledger, id) {
            NodeClass::Marked => {},
            NodeClass::WithoutGeometry => {
                marks.push(id);
            },
            NodeClass::MissingTransform => {
                missing.push(id);
            },
            NodeClass::WithGeometry(b, xf) => {
                marks.push(id);
                match resolve(&b, &xf) {
                    Ok(w) => {
                        boxes.push(w);
                    },
                    Err(_) => {
                        rejected.push(id);
                    },
                }
            },
        }
        i = i + 1;
    }
    assert(ds.take(i - 1) =~= ds);
    let agg = aggregate(&boxes);
    let mut to_mark: Vec<usize> = Vec::new();
    if agg.is_some() {
        to_mark.push(root);
        to_mark.append(&mut marks);
        assert(to_mark@ =~= pass_marks(*g, l, root, visited@));
    }
    PassOutcome { aggregate: agg, visited, to_mark, missing_transform: missing, rejected }
}

/// One aggregation pass over the scene below `root`, with its marks written
/// into `ledger`.
pub fn run_pass(g: &SceneGraph, ledger: &mut Ledger, root: usize) -> (r: PassOutcome)
    ensures
        is_pass_outcome(*g, old(ledger)@, root, r),
        final(ledger)@ == with_marks(old(ledger)@, r.to_mark@),
{
    let r = aggregation_pass(g, ledger, root);
    ledger.mark_all(&r.to_mark);
    r
}

proof fn lemma_no_contributions(g: SceneGraph, l: Set<usize>, s: Seq<usize>)
    requires
        forall|j: int| 0 <= j < s.len() ==> #[trigger] contribution(g, l, s[j]) is None,
    ensures
        contributions(g, l, s) == Seq::<Aabb>::empty(),
    decreases s.len(),
{
    if s.len() == 0 {
        lemma_lists_empty(g, l, s);
    } else {
        lemma_lists_step(g, l, s);
        assert(contribution(g, l, s[s.len() - 1]) is None);
        lemma_no_contributions(g, l, s.drop_last());
    }
}

proof fn lemma_one_contribution(g: SceneGraph, l: Set<usize>, s: Seq<usize>, k: int)
    requires
        0 <= k < s.len(),
        contribution(g, l, s[k]) is Some,
        forall|j: int| 0 <= j < s.len() && j != k ==> #[trigger] contribution(g, l, s[j]) is None,
    ensures
        contributions(g, l, s) == seq![contribution(g, l, s[k])->0],
    decreases s.len(),
{
    lemma_lists_step(g, l, s);
    let p = s.drop_last();
    if k == s.len() - 1 {
        assert forall|j: int| 0 <= j < p.len() implies #[trigger] contribution(g, l, p[j]) is None by {
            assert(contribution(g, l, s[j]) is None);
        }
        lemma_no_contributions(g, l, p);
        assert(contributions(g, l, s) =~= seq![contribution(g, l, s[k])->0]);
    } else {
        assert(contribution(g, l, s[s.len() - 1]) is None);
        assert forall|j: int| 0 <= j < p.len() && j != k implies #[trigger] contribution(
            g,
            l,
            p[j],
        ) is None by {
            assert(contribution(g, l, s[j]) is None);
        }
        lemma_one_contribution(g, l, p, k);
    }
}

/// A scene in which no descendant gives a box (none has geometry, or each
/// one with geometry is marked, lacks its transform or is rejected) yields
/// no aggregate and no marks: the ledger stays as it was, and the root stays
/// eligible for a later pass.
pub proof fn lemma_empty_scene_yields_nothing(
    g: SceneGraph,
    l: Set<usize>,
    root: usize,
    order: Seq<(usize, usize)>,
)
    requires
        forall|j: int|
            0 <= j < descendants(order).len() ==> #[trigger] contribution(
                g,
                l,
                descendants(order)[j],
            ) is None,
    ensures
        pass_aggregate(g, l, root, order) is None,
        pass_marks(g, l, root, order) == Seq::<usize>::empty(),
        with_marks(l, pass_marks(g, l, root, order)) == l,
{
    lemma_no_contributions(g, l, descendants(order));
    assert(with_marks(l, Seq::<usize>::empty()) =~= l);
}

/// A scene with exactly one descendant that gives a box has that box, the
/// descendant's resolved world box, as its aggregate.
pub proof fn lemma_single_contributor_is_aggregate(
    g: SceneGraph,
    l: Set<usize>,
    root: usize,
    order: Seq<(usize, usize)>,
    k: int,
)
    requires
        !pass_skips(g, l, root),
        0 <= k < descendants(order).len(),
        contribution(g, l, descendants(order)[k]) is Some,
        forall|j: int|
            0 <= j < descendants(order).len() && j != k ==> #[trigger] contribution(
                g,
                l,
                descendants(order)[j],
            ) is None,
    ensures
        pass_aggregate(g, l, root, order) == contribution(g, l, descendants(order)[k]),
{
    let b = contribution(g, l, descendants(order)[k])->0;
    lemma_one_contribution(g, l, descendants(order), k);
    crate::aggregate::lemma_single_box_aggregate(b);
}

/// A pass that made an aggregate marks its root; so, with those marks
/// written, any later pass over the same root makes no aggregate, names
/// nothing to mark, and leaves the ledger as it is.
pub proof fn lemma_processed_root_is_skipped(
    g: SceneGraph,
    l: Set<usize>,
    root: usize,
    order: Seq<(usize, usize)>,
    later: Seq<(usize, usize)>,
)
    requires
        pass_aggregate(g, l, root, order) is Some,
    ensures
        pass_skips(g, with_marks(l, pass_marks(g, l, root, order)), root),
        pass_aggregate(g, with_marks(l, pass_marks(g, l, root, order)), root, later) is None,
        pass_marks(g, with_marks(l, pass_marks(g, l, root, order)), root, later) == Seq::<
            usize,
        >::empty(),
        with_marks(
            with_marks(l, pass_marks(g, l, root, order)),
            pass_marks(g, with_marks(l, pass_marks(g, l, root, order)), root, later),
        ) == with_marks(l, pass_marks(g, l, root, order)),
{
    let marks = pass_marks(g, l, root, order);
    let l2 = with_marks(l, marks);
    assert(marks[0] == root);
    assert(l2.contains(root));
    assert(with_marks(l2, Seq::<usize>::empty()) =~= l2);
}

} // verus!
