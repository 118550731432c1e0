//! Folding the world boxes of one scene into a single scene aggregate.
//!
//! On each axis on its own, the aggregate takes the largest half-extent among
//! the boxes, and the center coordinate of the box that holds it; where boxes
//! tie, the first one met keeps the axis. This is a "largest representative
//! extent" policy, not the tight union of the boxes: the result may cover more
//! or less than the union, depending on where the winning centers lie.
//!
//! No orientation is tracked: world boxes are axis-aligned, so the aggregate
//! is a center and half-extents only, and carries no rotation taken from the
//! winning boxes.
use vstd::prelude::*;
use crate::geometry::{Aabb, Vec3};

verus! {

/// One coordinate of `v`: axis 0 is x, 1 is y, 2 is z.
pub open spec fn coord(v: Vec3, axis: int) -> i64 {
    if axis == 0 {
        v.x
    } else if axis == 1 {
        v.y
    } else {
        v.z
    }
}

/// `acc` with every axis on which `b` has a strictly larger half-extent taken
/// over from `b` (center coordinate and half-extent together).
pub open spec fn combine(acc: Aabb, b: Aabb) -> Aabb {
    let (ac, ah, bc, bh) = (acc.center, acc.half_extents, b.center, b.half_extents);
    Aabb {
        center: Vec3 {
            x: if bh.x > ah.x { bc.x } else { ac.x },
            y: if bh.y > ah.y { bc.y } else { ac.y },
            z: if bh.z > ah.z { bc.z } else { ac.z },
        },
        half_extents: Vec3 {
            x: if bh.x > ah.x { bh.x } else { ah.x },
            y: if bh.y > ah.y { bh.y } else { ah.y },
            z: if bh.z > ah.z { bh.z } else { ah.z },
        },
    }
}

/// The boxes of `s` combined in order, starting from the first.
pub open spec fn fold_boxes(s: Seq<Aabb>) -> Aabb
    decreases s.len(),
{
    if s.len() <= 1 {
        s[0]
    } else {
        combine(fold_boxes(s.drop_last()), s.last())
    }
}

/// The scene aggregate of a sequence of world boxes; none for no boxes.
pub open spec fn scene_aggregate(s: Seq<Aabb>) -> Option<Aabb> {
    if s.len() == 0 {
        None
    } else {
        Some(fold_boxes(s))
    }
}

/// Box `w` of `s` wins `axis`: no box has a larger half-extent there, and
/// every box before it has a smaller one.
pub open spec fn is_axis_winner(s: Seq<Aabb>, axis: int, w: int) -> bool {
    &&& 0 <= w < s.len()
    &&& forall|i: int|
        0 <= i < s.len() ==> #[trigger] coord(s[i].half_extents, axis) <= coord(
            s[w].half_extents,
            axis,
        )
    &&& forall|i: int|
        0 <= i < w ==> #[trigger] coord(s[i].half_extents, axis) < coord(s[w].half_extents, axis)
}

fn combine_boxes(acc: Aabb, b: Aabb) -> (r: Aabb)
    ensures
        r == combine(acc, b),
{
    let (ac, ah, bc, bh) = (acc.center, acc.half_extents, b.center, b.half_extents);
    let (cx, hx) = if bh.x > ah.x {
        (bc.x, bh.x)
    } else {
        (ac.x, ah.x)
    };
    let (cy, hy) = if bh.y > ah.y {
        (bc.y, bh.y)
    } else {
        (ac.y, ah.y)
    };
    let (cz, hz) = if bh.z > ah.z {
        (bc.z, bh.z)
    } else {
        (ac.z, ah.z)
    };
    Aabb { center: Vec3 { x: cx, y: cy, z: cz }, half_extents: Vec3 { x: hx, y: hy, z: hz } }
}

/// Folds the world boxes of one scene into its aggregate; `None` where there
/// are no boxes, so that no aggregate is made for an empty scene.
pub fn aggregate(boxes: &Vec<Aabb>) -> (r: Option<Aabb>)
    ensures
        r == scene_aggregate(boxes@),
{
    if boxes.len() == 0 {
        return None;
    }
    let mut acc: Aabb = boxes[0];
    let mut i: usize = 1;
    assert(boxes@.subrange(0, 1).drop_last().len() == 0);
    while i < boxes.len()
        invariant
            1 <= i <= boxes.len(),
            acc == fold_boxes(boxes@.subrange(0, i as int)),
        decreases boxes.len() - i,
    {
        let ghost prefix = boxes@.subrange(0, i as int);
        acc = combine_boxes(acc, boxes[i]);
        i = i + 1;
        assert(boxes@.subrange(0, i as int).drop_last() =~= prefix);
    }
    assert(boxes@.subrange(0, boxes.len() as int) =~= boxes@);
    Some(acc)
}

proof fn lemma_fold_axis_winner(s: Seq<Aabb>, axis: int)
    requires
        s.len() > 0,
        0 <= axis < 3,
    ensures
        exists|w: int|
            is_axis_winner(s, axis, w) && coord(fold_boxes(s).half_extents, axis) == coord(
                s[w].half_extents,
                axis,
            ) && coord(fold_boxes(s).center, axis) == coord(s[w].center, axis),
    decreases s.len(),
{
    if s.len() == 1 {
        assert(is_axis_winner(s, axis, 0));
    } else {
        let p = s.drop_last();
        lemma_fold_axis_winner(p, axis);
        let w = choose|w: int|
            is_axis_winner(p, axis, w) && coord(fold_boxes(p).half_extents, axis) == coord(
                p[w].half_extents,
                axis,
            ) && coord(fold_boxes(p).center, axis) == coord(p[w].center, axis);
        let n = s.len() - 1;
        assert(forall|i: int| 0 <= i < n ==> s[i] == p[i]);
        if coord(s[n].half_extents, axis) > coord(fold_boxes(p).half_extents, axis) {
            assert forall|i: int| 0 <= i < s.len() implies #[trigger] coord(
                s[i].half_extents,
                axis,
            ) <= coord(s[n].half_extents, axis) by {
                if i < n {
                    assert(coord(p[i].half_extents, axis) <= coord(p[w].half_extents, axis));
                }
            }
            assert(is_axis_winner(s, axis, n));
        } else {
            assert forall|i: int| 0 <= i < s.len() implies #[trigger] coord(
                s[i].half_extents,
                axis,
            ) <= coord(s[w].half_extents, axis) by {
                if i < n {
                    assert(coord(p[i].half_extents, axis) <= coord(p[w].half_extents, axis));
                }
            }
            assert forall|i: int| 0 <= i < w implies #[trigger] coord(s[i].half_extents, axis)
                < coord(s[w].half_extents, axis) by {
                assert(coord(p[i].half_extents, axis) < coord(p[w].half_extents, axis));
            }
            assert(is_axis_winner(s, axis, w));
        }
    }
}

/// On every axis, the aggregate of a non-empty sequence of boxes takes its
/// half-extent and its center coordinate from one box, the first among those
/// with the largest half-extent on that axis.
pub proof fn lemma_aggregate_takes_axis_winner(s: Seq<Aabb>, axis: int)
    requires
        s.len() > 0,
        0 <= axis < 3,
    ensures
        scene_aggregate(s) is Some,
        exists|w: int|
            is_axis_winner(s, axis, w) && coord(scene_aggregate(s)->0.half_extents, axis) == coord(
                s[w].half_extents,
                axis,
            ) && coord(scene_aggregate(s)->0.center, axis) == coord(s[w].center, axis),
{
    lemma_fold_axis_winner(s, axis);
}

/// On every axis, the aggregate's half-extent is the largest half-extent of
/// the boxes on that axis: no box exceeds it and some box reaches it.
pub proof fn lemma_aggregate_half_extent_is_max(s: Seq<Aabb>, axis: int)
    requires
        s.len() > 0,
        0 <= axis < 3,
    ensures
        scene_aggregate(s) is Some,
        forall|i: int|
            0 <= i < s.len() ==> #[trigger] coord(s[i].half_extents, axis) <= coord(
                scene_aggregate(s)->0.half_extents,
                axis,
            ),
        exists|i: int|
            0 <= i < s.len() && #[trigger] coord(s[i].half_extents, axis) == coord(
                scene_aggregate(s)->0.half_extents,
                axis,
            ),
{
    lemma_fold_axis_winner(s, axis);
}

/// The aggregate of a single box is that box.
pub proof fn lemma_single_box_aggregate(b: Aabb)
    ensures
        scene_aggregate(seq![b]) == Some(b),
{
}

} // verus!
