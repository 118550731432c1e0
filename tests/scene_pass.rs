use bevy_scene_tools::gate::{GateState, LoadStatus};
use bevy_scene_tools::geometry::{Aabb, Vec3, WorldTransform, LINEAR_ONE};
use bevy_scene_tools::ledger::Ledger;
use bevy_scene_tools::pass::{aggregation_pass, classify, run_pass, NodeClass};
use bevy_scene_tools::scene::{walk, SceneGraph, SceneNode};
use bevy_scene_tools::tick::run_tick;

fn bx(c: (i64, i64, i64), h: (i64, i64, i64)) -> Aabb {
    Aabb {
        center: Vec3 { x: c.0, y: c.1, z: c.2 },
        half_extents: Vec3 { x: h.0, y: h.1, z: h.2 },
    }
}

/// `b` in world-box units.
fn fine(b: Aabb) -> Aabb {
    let d = LINEAR_ONE as i64;
    let (c, h) = (b.center, b.half_extents);
    Aabb {
        center: Vec3 { x: d * c.x, y: d * c.y, z: d * c.z },
        half_extents: Vec3 { x: d * h.x, y: d * h.y, z: d * h.z },
    }
}

fn node(children: Vec<usize>) -> SceneNode {
    SceneNode { children, geometry: None, transform: None }
}

fn mesh(children: Vec<usize>, b: Aabb, t: (i64, i64, i64)) -> SceneNode {
    SceneNode {
        children,
        geometry: Some(b),
        transform: Some(WorldTransform::from_translation(Vec3 { x: t.0, y: t.1, z: t.2 })),
    }
}

/// 0 -> [1, 2], 1 -> [3], 2 -> [4, 9 (removed)]; 3 and 4 carry boxes.
fn two_mesh_scene() -> SceneGraph {
    SceneGraph {
        nodes: vec![
            node(vec![1, 2]),
            node(vec![3]),
            node(vec![4, 9]),
            mesh(vec![], bx((0, 0, 0), (1, 5, 1)), (10, 0, 0)),
            mesh(vec![], bx((0, 0, 0), (3, 2, 1)), (0, 20, 0)),
        ],
    }
}

#[test]
fn walk_is_preorder_with_depths() {
    let g = two_mesh_scene();
    assert_eq!(walk(&g, 0), vec![(0, 0), (1, 1), (3, 2), (2, 1), (4, 2)]);
    assert_eq!(walk(&g, 2), vec![(2, 0), (4, 1)]);
    assert_eq!(walk(&g, 4), vec![(4, 0)]);
    assert_eq!(walk(&g, 7), vec![]);
}

#[test]
fn walk_visits_shared_child_once() {
    let g = SceneGraph { nodes: vec![node(vec![1, 2]), node(vec![2]), node(vec![0])] };
    assert_eq!(walk(&g, 0), vec![(0, 0), (1, 1), (2, 1)]);
}

#[test]
fn classify_covers_all_kinds() {
    let mut g = two_mesh_scene();
    g.nodes[4].transform = None;
    let mut ledger = Ledger::new();
    ledger.mark(1);
    assert_eq!(classify(&g, &ledger, 0), NodeClass::WithoutGeometry);
    assert_eq!(classify(&g, &ledger, 1), NodeClass::Marked);
    assert_eq!(classify(&g, &ledger, 4), NodeClass::MissingTransform);
    match classify(&g, &ledger, 3) {
        NodeClass::WithGeometry(b, _) => assert_eq!(b, bx((0, 0, 0), (1, 5, 1))),
        other => panic!("unexpected class {:?}", other),
    }
}

#[test]
fn scene_without_geometry_yields_nothing() {
    let g = SceneGraph { nodes: vec![node(vec![1, 2]), node(vec![]), node(vec![])] };
    let mut ledger = Ledger::new();
    let r = run_pass(&g, &mut ledger, 0);
    assert_eq!(r.aggregate, None);
    assert!(r.to_mark.is_empty());
    assert!(!ledger.is_marked(0));
    assert!(!ledger.is_marked(1));
}

#[test]
fn single_mesh_scene_is_its_world_box() {
    let g = SceneGraph {
        nodes: vec![node(vec![1]), mesh(vec![], bx((1, 2, 3), (4, 5, 6)), (10, 20, 30))],
    };
    let ledger = Ledger::new();
    let r = aggregation_pass(&g, &ledger, 0);
    assert_eq!(r.aggregate, Some(fine(bx((11, 22, 33), (4, 5, 6)))));
    assert_eq!(r.to_mark, vec![0, 1]);
}

#[test]
fn aggregate_takes_axis_maxima_of_descendants() {
    let g = two_mesh_scene();
    let ledger = Ledger::new();
    let r = aggregation_pass(&g, &ledger, 0);
    assert_eq!(r.aggregate, Some(fine(bx((0, 0, 0), (3, 5, 1)))));
    assert_eq!(r.to_mark, vec![0, 1, 3, 2, 4]);
    assert!(r.missing_transform.is_empty());
    assert!(r.rejected.is_empty());
}

#[test]
fn second_pass_is_a_no_op() {
    let g = two_mesh_scene();
    let mut ledger = Ledger::new();
    let first = run_pass(&g, &mut ledger, 0);
    assert!(first.aggregate.is_some());
    for id in [0usize, 1, 2, 3, 4] {
        assert!(ledger.is_marked(id));
    }
    let second = run_pass(&g, &mut ledger, 0);
    assert_eq!(second.aggregate, None);
    assert!(second.to_mark.is_empty());
    assert!(second.visited.is_empty());
}

#[test]
fn missing_transform_is_reported_and_left_unmarked() {
    let mut g = two_mesh_scene();
    g.nodes[4].transform = None;
    let mut ledger = Ledger::new();
    let r = run_pass(&g, &mut ledger, 0);
    assert_eq!(r.aggregate, Some(fine(bx((10, 0, 0), (1, 5, 1)))));
    assert_eq!(r.missing_transform, vec![4]);
    assert!(ledger.is_marked(3));
    assert!(!ledger.is_marked(4));
}

#[test]
fn negative_box_is_rejected_not_aggregated() {
    let mut g = two_mesh_scene();
    g.nodes[3].geometry = Some(bx((0, 0, 0), (-1, 100, 100)));
    let ledger = Ledger::new();
    let r = aggregation_pass(&g, &ledger, 0);
    assert_eq!(r.rejected, vec![3]);
    assert_eq!(r.aggregate, Some(fine(bx((0, 20, 0), (3, 2, 1)))));
}

#[test]
fn marked_descendant_does_not_contribute() {
    let g = two_mesh_scene();
    let mut ledger = Ledger::new();
    ledger.mark(4);
    let r = aggregation_pass(&g, &ledger, 0);
    assert_eq!(r.aggregate, Some(fine(bx((10, 0, 0), (1, 5, 1)))));
    assert_eq!(r.to_mark, vec![0, 1, 3, 2]);
}

#[test]
fn missing_root_is_skipped() {
    let g = two_mesh_scene();
    let ledger = Ledger::new();
    let r = aggregation_pass(&g, &ledger, 42);
    assert_eq!(r.aggregate, None);
    assert!(r.visited.is_empty());
}

#[test]
fn closed_gate_runs_no_pass() {
    let g = two_mesh_scene();
    let mut ledger = Ledger::new();
    let statuses = vec![LoadStatus::Loaded, LoadStatus::Failed, LoadStatus::Loaded];
    let r = run_tick(GateState::Loading, &statuses, &g, &mut ledger, &vec![0]);
    assert_eq!(r.step.state, GateState::Loading);
    assert!(r.step.load_failed);
    assert!(r.passes.is_empty());
    assert!(!ledger.is_marked(0));
}

#[test]
fn open_gate_runs_each_root_once() {
    let g = two_mesh_scene();
    let mut ledger = Ledger::new();
    let statuses = vec![LoadStatus::Loaded; 3];
    let r = run_tick(GateState::Loading, &statuses, &g, &mut ledger, &vec![2, 0, 2]);
    assert!(r.step.opened);
    assert_eq!(r.passes.len(), 3);
    assert_eq!(r.passes[0].aggregate, Some(fine(bx((0, 20, 0), (3, 2, 1)))));
    assert_eq!(r.passes[1].aggregate, Some(fine(bx((10, 0, 0), (1, 5, 1)))));
    assert_eq!(r.passes[2].aggregate, None);
    assert!(ledger.is_marked(0) && ledger.is_marked(3));
}
