use bevy_scene_tools::geometry::{resolve, Aabb, ResolveError, Row, Vec3, WorldTransform, LINEAR_ONE};

fn v(x: i64, y: i64, z: i64) -> Vec3 {
    Vec3 { x, y, z }
}

fn bx(c: Vec3, h: Vec3) -> Aabb {
    Aabb { center: c, half_extents: h }
}

fn corners(b: &Aabb) -> Vec<[i128; 3]> {
    let mut out = Vec::new();
    for sx in [-1i128, 1] {
        for sy in [-1i128, 1] {
            for sz in [-1i128, 1] {
                out.push([
                    b.center.x as i128 + sx * b.half_extents.x as i128,
                    b.center.y as i128 + sy * b.half_extents.y as i128,
                    b.center.z as i128 + sz * b.half_extents.z as i128,
                ]);
            }
        }
    }
    out
}

fn image_axis(r: Row, t: i64, p: [i128; 3]) -> i128 {
    r.x as i128 * p[0] + r.y as i128 * p[1] + r.z as i128 * p[2] + LINEAR_ONE as i128 * t as i128
}

fn world_axes(xf: &WorldTransform, w: &Aabb) -> [(Row, i64, i64, i64); 3] {
    [
        (xf.row_x, xf.translation.x, w.center.x, w.half_extents.x),
        (xf.row_y, xf.translation.y, w.center.y, w.half_extents.y),
        (xf.row_z, xf.translation.z, w.center.z, w.half_extents.z),
    ]
}

fn assert_encloses(local: &Aabb, xf: &WorldTransform, w: &Aabb) {
    for p in corners(local) {
        for (r, t, c, h) in world_axes(xf, w) {
            let img = image_axis(r, t, p);
            assert!(c as i128 - h as i128 <= img);
            assert!(img <= c as i128 + h as i128);
        }
    }
}

fn assert_tight(local: &Aabb, xf: &WorldTransform, w: &Aabb) {
    for (r, t, c, h) in world_axes(xf, w) {
        let images: Vec<i128> = corners(local).into_iter().map(|p| image_axis(r, t, p)).collect();
        assert_eq!(*images.iter().max().unwrap(), c as i128 + h as i128);
        assert_eq!(*images.iter().min().unwrap(), c as i128 - h as i128);
    }
}

/// `b` in world-box units.
fn fine(b: Aabb) -> Aabb {
    let d = LINEAR_ONE as i64;
    bx(
        v(d * b.center.x, d * b.center.y, d * b.center.z),
        v(d * b.half_extents.x, d * b.half_extents.y, d * b.half_extents.z),
    )
}

#[test]
fn identity_keeps_box() {
    let b = bx(v(1, -2, 3), v(4, 5, 6));
    assert_eq!(resolve(&b, &WorldTransform::identity()), Ok(fine(b)));
}

#[test]
fn translation_moves_center_only() {
    let b = bx(v(1, -2, 3), v(4, 5, 6));
    let xf = WorldTransform::from_translation(v(10, 20, -30));
    assert_eq!(resolve(&b, &xf), Ok(fine(bx(v(11, 18, -27), v(4, 5, 6)))));
}

#[test]
fn flat_axis_stays_flat_under_identity() {
    let b = bx(v(7, 8, 9), v(2, 0, 3));
    let w = resolve(&b, &WorldTransform::identity()).unwrap();
    assert_eq!(w.half_extents.y, 0);
    assert_eq!(w, fine(b));
}

#[test]
fn point_stays_point_under_any_transform() {
    let xf = WorldTransform {
        row_x: Row { x: LINEAR_ONE / 2, y: 12345, z: -777 },
        row_y: Row { x: 46341, y: -46341, z: 3 },
        row_z: Row { x: -1, y: 0, z: 3 * LINEAR_ONE },
        translation: v(5, -6, 7),
    };
    let b = bx(v(3, 0, 0), v(0, 0, 0));
    let w = resolve(&b, &xf).unwrap();
    assert_eq!(w.half_extents, v(0, 0, 0));
    assert_eq!(w.center, v(LINEAR_ONE as i64 * 3 / 2 + 5 * LINEAR_ONE as i64, 46341 * 3 - 6 * LINEAR_ONE as i64, -3 + 7 * LINEAR_ONE as i64));
}

#[test]
fn quarter_turn_swaps_extents() {
    // A quarter turn about z: world x = -local y, world y = local x.
    let xf = WorldTransform {
        row_x: Row { x: 0, y: -LINEAR_ONE, z: 0 },
        row_y: Row { x: LINEAR_ONE, y: 0, z: 0 },
        row_z: Row { x: 0, y: 0, z: LINEAR_ONE },
        translation: v(0, 0, 0),
    };
    let b = bx(v(1, 2, 3), v(4, 5, 6));
    let w = resolve(&b, &xf).unwrap();
    assert_eq!(w, fine(bx(v(-2, 1, 3), v(5, 4, 6))));
    assert_encloses(&b, &xf, &w);
    assert_tight(&b, &xf, &w);
}

#[test]
fn non_uniform_scale_scales_extents() {
    let xf = WorldTransform {
        row_x: Row { x: 2 * LINEAR_ONE, y: 0, z: 0 },
        row_y: Row { x: 0, y: 3 * LINEAR_ONE, z: 0 },
        row_z: Row { x: 0, y: 0, z: LINEAR_ONE },
        translation: v(1, 1, 1),
    };
    let b = bx(v(1, 1, 1), v(1, 2, 3));
    assert_eq!(resolve(&b, &xf), Ok(fine(bx(v(3, 4, 2), v(2, 6, 3)))));
}

#[test]
fn half_scale_is_exact() {
    // x scaled by one half: the image of [2, 4] is [1, 2], center 1.5.
    let xf = WorldTransform {
        row_x: Row { x: LINEAR_ONE / 2, y: 0, z: 0 },
        row_y: Row { x: 0, y: LINEAR_ONE, z: 0 },
        row_z: Row { x: 0, y: 0, z: LINEAR_ONE },
        translation: v(0, 0, 0),
    };
    let b = bx(v(3, 0, 0), v(1, 1, 1));
    let w = resolve(&b, &xf).unwrap();
    let d = LINEAR_ONE as i64;
    assert_eq!(w, bx(v(3 * d / 2, 0, 0), v(d / 2, d, d)));
    assert_eq!(w.center.x - w.half_extents.x, d);
    assert_eq!(w.center.x + w.half_extents.x, 2 * d);
    assert_encloses(&b, &xf, &w);
    assert_tight(&b, &xf, &w);
}

#[test]
fn eighth_turn_encloses_corners() {
    // About 45 degrees about z, with a non-uniform scale and a translation.
    let c = 46341;
    let xf = WorldTransform {
        row_x: Row { x: c, y: -c, z: 0 },
        row_y: Row { x: c, y: c, z: 0 },
        row_z: Row { x: 0, y: 0, z: 2 * LINEAR_ONE },
        translation: v(100, -50, 7),
    };
    let b = bx(v(10, 3, -4), v(10, 4, 1));
    let w = resolve(&b, &xf).unwrap();
    assert_encloses(&b, &xf, &w);
    assert_tight(&b, &xf, &w);
    assert_eq!(w.half_extents.x, 46341 * 14);
    assert_eq!(w.half_extents.z, 2 * LINEAR_ONE as i64);
}

#[test]
fn random_transforms_enclose_corners() {
    let mut seed: u64 = 0x9e37_79b9_7f4a_7c15;
    let mut next = move |m: i64| -> i64 {
        seed ^= seed << 13;
        seed ^= seed >> 7;
        seed ^= seed << 17;
        (seed % (2 * m as u64 + 1)) as i64 - m
    };
    for _ in 0..200 {
        let row = |n: &mut dyn FnMut(i64) -> i64| Row {
            x: n(200_000) as i32,
            y: n(200_000) as i32,
            z: n(200_000) as i32,
        };
        let xf = WorldTransform {
            row_x: row(&mut next),
            row_y: row(&mut next),
            row_z: row(&mut next),
            translation: v(next(1000), next(1000), next(1000)),
        };
        let b = bx(
            v(next(1000), next(1000), next(1000)),
            v(next(50).abs(), next(50).abs(), next(50).abs()),
        );
        let w = resolve(&b, &xf).unwrap();
        assert!(w.half_extents.x >= 0 && w.half_extents.y >= 0 && w.half_extents.z >= 0);
        assert_encloses(&b, &xf, &w);
        assert_tight(&b, &xf, &w);
    }
}

#[test]
fn negative_extent_is_rejected() {
    let b = bx(v(0, 0, 0), v(1, -1, 1));
    assert_eq!(resolve(&b, &WorldTransform::identity()), Err(ResolveError::NegativeExtent));
}

#[test]
fn overflowing_result_is_rejected() {
    let limit = i64::MAX / LINEAR_ONE as i64;
    let inside = bx(v(limit, 0, 0), v(0, 0, 0));
    assert_eq!(resolve(&inside, &WorldTransform::identity()), Ok(fine(inside)));
    let outside = bx(v(limit + 1, 0, 0), v(0, 0, 0));
    assert_eq!(resolve(&outside, &WorldTransform::identity()), Err(ResolveError::OutOfRange));
    let xf = WorldTransform::from_translation(v(1, 0, 0));
    assert_eq!(resolve(&inside, &xf), Err(ResolveError::OutOfRange));
}
