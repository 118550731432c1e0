//! Points, boxes and transforms in fixed-point integer coordinates, and the
//! resolver that carries a local bounding box into world space.
//!
//! Local boxes and translations are integers in some length unit chosen by
//! the host. A transform's linear part holds integers in units of
//! `1 / LINEAR_ONE`. World boxes are kept in units of `1 / LINEAR_ONE` of the
//! length unit, so that the resolver never rounds: a world coordinate `w`
//! stands for the length `w / LINEAR_ONE`.
use vstd::prelude::*;

verus! {

/// Denominator of the entries of a transform's linear part, and of the
/// coordinates of a world box: an entry `m` stands for the real factor
/// `m / LINEAR_ONE`.
pub const LINEAR_ONE: i32 = 65536;

/// A point or a vector, one integer per axis.
#[derive(Clone, Copy, Debug, PartialEq, Eq, Structural)]
pub struct Vec3 {
    pub x: i64,
    pub y: i64,
    pub z: i64,
}

/// One row of a transform's linear part (rotation times scale): how much each
/// local axis contributes to one world axis, in units of `1 / LINEAR_ONE`.
#[derive(Clone, Copy, Debug, PartialEq, Eq, Structural)]
pub struct Row {
    pub x: i32,
    pub y: i32,
    pub z: i32,
}

/// A node's world transform: `world = linear * local / LINEAR_ONE + translation`.
#[derive(Clone, Copy, Debug, PartialEq, Eq, Structural)]
pub struct WorldTransform {
    pub row_x: Row,
    pub row_y: Row,
    pub row_z: Row,
    pub translation: Vec3,
}

/// An axis-aligned box: a center and a half-extent on each axis.
#[derive(Clone, Copy, Debug, PartialEq, Eq, Structural)]
pub struct Aabb {
    pub center: Vec3,
    pub half_extents: Vec3,
}

/// Why a local box could not be carried into world space.
#[derive(Clone, Copy, Debug, PartialEq, Eq, Structural)]
pub enum ResolveError {
    /// The local box has a negative half-extent on some axis.
    NegativeExtent,
    /// The world box does not fit in 64-bit coordinates.
    OutOfRange,
}

pub open spec fn abs(v: int) -> int {
    if v < 0 {
        -v
    } else {
        v
    }
}

pub open spec fn in_i64(v: int) -> bool {
    i64::MIN <= v <= i64::MAX
}

/// A row applied to a vector.
pub open spec fn row_dot(r: Row, v: Vec3) -> int {
    r.x * v.x + r.y * v.y + r.z * v.z
}

/// The row with every entry made non-negative, applied to a vector.
pub open spec fn row_abs_dot(r: Row, v: Vec3) -> int {
    abs(r.x as int) * v.x + abs(r.y as int) * v.y + abs(r.z as int) * v.z
}

/// World center on the axis of row `r`, in units of `1 / LINEAR_ONE`: the
/// local center mapped by the row, plus the translation.
pub open spec fn axis_center(r: Row, t: i64, c: Vec3) -> int {
    row_dot(r, c) + LINEAR_ONE * t
}

/// World half-extent on the axis of row `r`, in units of `1 / LINEAR_ONE`:
/// the sum over local axes of the entry's magnitude times the local
/// half-extent.
pub open spec fn axis_half(r: Row, h: Vec3) -> int {
    row_abs_dot(r, h)
}

pub open spec fn axis_fits(r: Row, t: i64, c: Vec3, h: Vec3) -> bool {
    in_i64(axis_center(r, t, c)) && in_i64(axis_half(r, h))
}

pub open spec fn has_valid_extents(b: Aabb) -> bool {
    b.half_extents.x >= 0 && b.half_extents.y >= 0 && b.half_extents.z >= 0
}

/// The world box of `b` under `xf` has coordinates that fit in 64 bits.
pub open spec fn resolution_fits(b: Aabb, xf: WorldTransform) -> bool {
    &&& axis_fits(xf.row_x, xf.translation.x, b.center, b.half_extents)
    &&& axis_fits(xf.row_y, xf.translation.y, b.center, b.half_extents)
    &&& axis_fits(xf.row_z, xf.translation.z, b.center, b.half_extents)
}

/// `w` is the world box of the local box `b` under `xf`.
pub open spec fn is_resolution(b: Aabb, xf: WorldTransform, w: Aabb) -> bool {
    &&& w.center.x == axis_center(xf.row_x, xf.translation.x, b.center)
    &&& w.center.y == axis_center(xf.row_y, xf.translation.y, b.center)
    &&& w.center.z == axis_center(xf.row_z, xf.translation.z, b.center)
    &&& w.half_extents.x == axis_half(xf.row_x, b.half_extents)
    &&& w.half_extents.y == axis_half(xf.row_y, b.half_extents)
    &&& w.half_extents.z == axis_half(xf.row_z, b.half_extents)
}

/// The world box of `b` under `xf`, where it fits in 64 bits.
pub open spec fn resolved_box(b: Aabb, xf: WorldTransform) -> Aabb {
    Aabb {
        center: Vec3 {
            x: axis_center(xf.row_x, xf.translation.x, b.center) as i64,
            y: axis_center(xf.row_y, xf.translation.y, b.center) as i64,
            z: axis_center(xf.row_z, xf.translation.z, b.center) as i64,
        },
        half_extents: Vec3 {
            x: axis_half(xf.row_x, b.half_extents) as i64,
            y: axis_half(xf.row_y, b.half_extents) as i64,
            z: axis_half(xf.row_z, b.half_extents) as i64,
        },
    }
}

proof fn lemma_product_bound(a: i32, b: i64)
    ensures
        -0x4000_0000_0000_0000_0000_0000 <= a * b <= 0x4000_0000_0000_0000_0000_0000,
{
    assert(-0x4000_0000_0000_0000_0000_0000 <= a * b <= 0x4000_0000_0000_0000_0000_0000)
        by (nonlinear_arith)
        requires
            -0x8000_0000 <= a <= 0x8000_0000,
            -0x8000_0000_0000_0000 <= b <= 0x8000_0000_0000_0000,
    ;
}

proof fn lemma_abs_product_bound(a: i32, b: i64)
    requires
        b >= 0,
    ensures
        0 <= abs(a as int) * b <= 0x4000_0000_0000_0000_0000_0000,
        b == 0 ==> abs(a as int) * b == 0,
{
    let m = abs(a as int);
    assert(0 <= m * b <= 0x4000_0000_0000_0000_0000_0000 && (b == 0 ==> m * b == 0))
        by (nonlinear_arith)
        requires
            0 <= m <= 0x8000_0000,
            0 <= b <= 0x8000_0000_0000_0000,
    ;
}

fn magnitude(v: i32) -> (r: i128)
    ensures
        r == abs(v as int),
{
    if v < 0 {
        -(v as i128)
    } else {
        v as i128
    }
}

/// World center and half-extent on the axis of row `r`, or `None` where either
/// does not fit in 64 bits.
fn resolve_axis(r: Row, t: i64, c: Vec3, h: Vec3) -> (res: Option<(i64, i64)>)
    requires
        h.x >= 0,
        h.y >= 0,
        h.z >= 0,
    ensures
        res.is_some() <==> axis_fits(r, t, c, h),
        res matches Some(p) ==> p.0 == axis_center(r, t, c) && p.1 == axis_half(r, h),
{
    proof {
        lemma_product_bound(r.x, c.x);
        lemma_product_bound(r.y, c.y);
        lemma_product_bound(r.z, c.z);
        lemma_product_bound(LINEAR_ONE, t);
        lemma_abs_product_bound(r.x, h.x);
        lemma_abs_product_bound(r.y, h.y);
        lemma_abs_product_bound(r.z, h.z);
    }
    let center: i128 = (r.x as i128) * (c.x as i128) + (r.y as i128) * (c.y as i128) + (r.z
        as i128) * (c.z as i128) + (LINEAR_ONE as i128) * (t as i128);
    let half: i128 = magnitude(r.x) * (h.x as i128) + magnitude(r.y) * (h.y as i128) + magnitude(
        r.z,
    ) * (h.z as i128);
    assert(center == axis_center(r, t, c));
    assert(half == axis_half(r, h));
    if center < i64::MIN as i128 || center > i64::MAX as i128 || half > i64::MAX as i128 {
        None
    } else {
        Some((center as i64, half as i64))
    }
}

/// Carries a local bounding box into world space under `xf`, without
/// rounding: each world half-extent is the sum over local axes of the linear
/// entry's magnitude times the local half-extent. That is the smallest
/// axis-aligned box holding the transformed box (see
/// `lemma_resolution_is_tight`), so it is exact for axis-aligned linear parts;
/// and a box of zero extent stays of zero extent.
pub fn resolve(local: &Aabb, xf: &WorldTransform) -> (r: Result<Aabb, ResolveError>)
    ensures
        r == Err::<Aabb, ResolveError>(ResolveError::NegativeExtent) <==> !has_valid_extents(
            *local,
        ),
        r == Err::<Aabb, ResolveError>(ResolveError::OutOfRange) <==> has_valid_extents(*local)
            && !resolution_fits(*local, *xf),
        r is Ok <==> has_valid_extents(*local) && resolution_fits(*local, *xf),
        r matches Ok(w) ==> is_resolution(*local, *xf, w) && w == resolved_box(*local, *xf),
        r matches Ok(w) ==> has_valid_extents(w),
        r matches Ok(w) ==> (local.half_extents.x == 0 && local.half_extents.y == 0
            && local.half_extents.z == 0 ==> w.half_extents == Vec3 { x: 0, y: 0, z: 0 }),
{
    let c = local.center;
    let h = local.half_extents;
    if h.x < 0 || h.y < 0 || h.z < 0 {
        return Err(ResolveError::NegativeExtent);
    }
    proof {
        lemma_abs_product_bound(xf.row_x.x, h.x);
        lemma_abs_product_bound(xf.row_x.y, h.y);
        lemma_abs_product_bound(xf.row_x.z, h.z);
        lemma_abs_product_bound(xf.row_y.x, h.x);
        lemma_abs_product_bound(xf.row_y.y, h.y);
        lemma_abs_product_bound(xf.row_y.z, h.z);
        lemma_abs_product_bound(xf.row_z.x, h.x);
        lemma_abs_product_bound(xf.row_z.y, h.y);
        lemma_abs_product_bound(xf.row_z.z, h.z);
    }
    let rx = resolve_axis(xf.row_x, xf.translation.x, c, h);
    let ry = resolve_axis(xf.row_y, xf.translation.y, c, h);
    let rz = resolve_axis(xf.row_z, xf.translation.z, c, h);
    match (rx, ry, rz) {
        (Some(px), Some(py), Some(pz)) => Ok(
            Aabb {
                center: Vec3 { x: px.0, y: py.0, z: pz.0 },
                half_extents: Vec3 { x: px.1, y: py.1, z: pz.1 },
            },
        ),
        _ => Err(ResolveError::OutOfRange),
    }
}

/// The identity transform: unit linear part, no translation.
pub open spec fn identity_transform() -> WorldTransform {
    translation_transform(Vec3 { x: 0, y: 0, z: 0 })
}

/// A transform that only moves by `t`.
pub open spec fn translation_transform(t: Vec3) -> WorldTransform {
    WorldTransform {
        row_x: Row { x: LINEAR_ONE, y: 0, z: 0 },
        row_y: Row { x: 0, y: LINEAR_ONE, z: 0 },
        row_z: Row { x: 0, y: 0, z: LINEAR_ONE },
        translation: t,
    }
}

impl WorldTransform {
    pub fn identity() -> (r: WorldTransform)
        ensures
            r == identity_transform(),
    {
        WorldTransform::from_translation(Vec3 { x: 0, y: 0, z: 0 })
    }

    pub fn from_translation(t: Vec3) -> (r: WorldTransform)
        ensures
            r == translation_transform(t),
    {
        WorldTransform {
            row_x: Row { x: LINEAR_ONE, y: 0, z: 0 },
            row_y: Row { x: 0, y: LINEAR_ONE, z: 0 },
            row_z: Row { x: 0, y: 0, z: LINEAR_ONE },
            translation: t,
        }
    }
}

/// One coordinate of a box corner: the `+` side where `s` holds, else the `-` side.
pub open spec fn corner_coord(c: i64, h: i64, s: bool) -> int {
    if s {
        c + h
    } else {
        c - h
    }
}

/// The image of the local point `(px, py, pz)` on the axis of row `r`, in
/// units of `1 / LINEAR_ONE`.
pub open spec fn axis_image(r: Row, t: i64, px: int, py: int, pz: int) -> int {
    r.x * px + r.y * py + r.z * pz + LINEAR_ONE * t
}

/// The world box `w` holds the image under `xf` of the local point `(px, py, pz)`.
pub open spec fn encloses_image(w: Aabb, xf: WorldTransform, px: int, py: int, pz: int) -> bool {
    &&& w.center.x - w.half_extents.x <= axis_image(xf.row_x, xf.translation.x, px, py, pz)
        <= w.center.x + w.half_extents.x
    &&& w.center.y - w.half_extents.y <= axis_image(xf.row_y, xf.translation.y, px, py, pz)
        <= w.center.y + w.half_extents.y
    &&& w.center.z - w.half_extents.z <= axis_image(xf.row_z, xf.translation.z, px, py, pz)
        <= w.center.z + w.half_extents.z
}

proof fn lemma_term_within(m: i32, c: i64, h: i64, s: bool)
    requires
        h >= 0,
    ensures
        -(abs(m as int) * h) <= m * corner_coord(c, h, s) - m * c <= abs(m as int) * h,
        m * corner_coord(c, h, m >= 0) - m * c == abs(m as int) * h,
        m * corner_coord(c, h, m < 0) - m * c == -(abs(m as int) * h),
{
    let a = abs(m as int);
    assert(m * (c + h) - m * c == m * h) by (nonlinear_arith);
    assert(m * (c - h) - m * c == -(m * h)) by (nonlinear_arith);
    assert(-(a * h) <= m * h <= a * h) by (nonlinear_arith)
        requires
            h >= 0,
            a == m || a == -m,
            a >= 0,
    ;
    if m >= 0 {
        assert(a * h == m * h);
    } else {
        assert(a * h == -(m * h)) by (nonlinear_arith)
            requires
                a == -m,
        ;
    }
}

proof fn lemma_axis_corners(r: Row, t: i64, c: Vec3, h: Vec3, sx: bool, sy: bool, sz: bool)
    requires
        h.x >= 0,
        h.y >= 0,
        h.z >= 0,
    ensures
        axis_half(r, h) >= 0,
        axis_center(r, t, c) - axis_half(r, h) <= axis_image(
            r,
            t,
            corner_coord(c.x, h.x, sx),
            corner_coord(c.y, h.y, sy),
            corner_coord(c.z, h.z, sz),
        ) <= axis_center(r, t, c) + axis_half(r, h),
        axis_image(
            r,
            t,
            corner_coord(c.x, h.x, r.x >= 0),
            corner_coord(c.y, h.y, r.y >= 0),
            corner_coord(c.z, h.z, r.z >= 0),
        ) == axis_center(r, t, c) + axis_half(r, h),
        axis_image(
            r,
            t,
            corner_coord(c.x, h.x, r.x < 0),
            corner_coord(c.y, h.y, r.y < 0),
            corner_coord(c.z, h.z, r.z < 0),
        ) == axis_center(r, t, c) - axis_half(r, h),
{
    lemma_term_within(r.x, c.x, h.x, sx);
    lemma_term_within(r.y, c.y, h.y, sy);
    lemma_term_within(r.z, c.z, h.z, sz);
    lemma_abs_product_bound(r.x, h.x);
    lemma_abs_product_bound(r.y, h.y);
    lemma_abs_product_bound(r.z, h.z);
}

/// Every corner of a local box with non-negative half-extents maps, under any
/// transform, into the world box that the resolver gives for it, and that
/// world box has non-negative half-extents.
pub proof fn lemma_resolution_encloses_corners(
    b: Aabb,
    xf: WorldTransform,
    w: Aabb,
    sx: bool,
    sy: bool,
    sz: bool,
)
    requires
        has_valid_extents(b),
        is_resolution(b, xf, w),
    ensures
        has_valid_extents(w),
        encloses_image(
            w,
            xf,
            corner_coord(b.center.x, b.half_extents.x, sx),
            corner_coord(b.center.y, b.half_extents.y, sy),
            corner_coord(b.center.z, b.half_extents.z, sz),
        ),
{
    let c = b.center;
    let h = b.half_extents;
    lemma_axis_corners(xf.row_x, xf.translation.x, c, h, sx, sy, sz);
    lemma_axis_corners(xf.row_y, xf.translation.y, c, h, sx, sy, sz);
    lemma_axis_corners(xf.row_z, xf.translation.z, c, h, sx, sy, sz);
}

/// The world box is the smallest one that holds the transformed box: on each
/// world axis, one corner of the local box maps onto its upper face and the
/// opposite corner onto its lower face.
pub proof fn lemma_resolution_is_tight(b: Aabb, xf: WorldTransform, w: Aabb)
    requires
        has_valid_extents(b),
        is_resolution(b, xf, w),
    ensures
        ({
            let (c, h, r) = (b.center, b.half_extents, xf.row_x);
            &&& axis_image(
                r,
                xf.translation.x,
                corner_coord(c.x, h.x, r.x >= 0),
                corner_coord(c.y, h.y, r.y >= 0),
                corner_coord(c.z, h.z, r.z >= 0),
            ) == w.center.x + w.half_extents.x
            &&& axis_image(
                r,
                xf.translation.x,
                corner_coord(c.x, h.x, r.x < 0),
                corner_coord(c.y, h.y, r.y < 0),
                corner_coord(c.z, h.z, r.z < 0),
            ) == w.center.x - w.half_extents.x
        }),
        ({
            let (c, h, r) = (b.center, b.half_extents, xf.row_y);
            &&& axis_image(
                r,
                xf.translation.y,
                corner_coord(c.x, h.x, r.x >= 0),
                corner_coord(c.y, h.y, r.y >= 0),
                corner_coord(c.z, h.z, r.z >= 0),
            ) == w.center.y + w.half_extents.y
            &&& axis_image(
                r,
                xf.translation.y,
                corner_coord(c.x, h.x, r.x < 0),
                corner_coord(c.y, h.y, r.y < 0),
                corner_coord(c.z, h.z, r.z < 0),
            ) == w.center.y - w.half_extents.y
        }),
        ({
            let (c, h, r) = (b.center, b.half_extents, xf.row_z);
            &&& axis_image(
                r,
                xf.translation.z,
                corner_coord(c.x, h.x, r.x >= 0),
                corner_coord(c.y, h.y, r.y >= 0),
                corner_coord(c.z, h.z, r.z >= 0),
            ) == w.center.z + w.half_extents.z
            &&& axis_image(
                r,
                xf.translation.z,
                corner_coord(c.x, h.x, r.x < 0),
                corner_coord(c.y, h.y, r.y < 0),
                corner_coord(c.z, h.z, r.z < 0),
            ) == w.center.z - w.half_extents.z
        }),
{
    let c = b.center;
    let h = b.half_extents;
    lemma_axis_corners(xf.row_x, xf.translation.x, c, h, true, true, true);
    lemma_axis_corners(xf.row_y, xf.translation.y, c, h, true, true, true);
    lemma_axis_corners(xf.row_z, xf.translation.z, c, h, true, true, true);
}

/// A box of zero extent (a point) resolves, under any transform, to a box of
/// zero extent.
pub proof fn lemma_point_stays_point(b: Aabb, xf: WorldTransform, w: Aabb)
    requires
        b.half_extents == (Vec3 { x: 0, y: 0, z: 0 }),
        is_resolution(b, xf, w),
    ensures
        w.half_extents == (Vec3 { x: 0, y: 0, z: 0 }),
{
    let h = b.half_extents;
    lemma_abs_product_bound(xf.row_x.x, h.x);
    lemma_abs_product_bound(xf.row_x.y, h.y);
    lemma_abs_product_bound(xf.row_x.z, h.z);
    lemma_abs_product_bound(xf.row_y.x, h.x);
    lemma_abs_product_bound(xf.row_y.y, h.y);
    lemma_abs_product_bound(xf.row_y.z, h.z);
    lemma_abs_product_bound(xf.row_z.x, h.x);
    lemma_abs_product_bound(xf.row_z.y, h.y);
    lemma_abs_product_bound(xf.row_z.z, h.z);
}

/// `v` with every coordinate multiplied by `LINEAR_ONE`: the same point in
/// world-box units.
pub open spec fn scaled(v: Vec3) -> (int, int, int) {
    (LINEAR_ONE * v.x, LINEAR_ONE * v.y, LINEAR_ONE * v.z)
}

proof fn lemma_unit_row_dots(r: Row, c: Vec3, h: Vec3, cv: i64, hv: i64)
    requires
        (r.x == LINEAR_ONE && r.y == 0 && r.z == 0 && cv == c.x && hv == h.x) || (r.x == 0 && r.y
            == LINEAR_ONE && r.z == 0 && cv == c.y && hv == h.y) || (r.x == 0 && r.y == 0 && r.z
            == LINEAR_ONE && cv == c.z && hv == h.z),
    ensures
        row_dot(r, c) == LINEAR_ONE * cv,
        row_abs_dot(r, h) == LINEAR_ONE * hv,
{
    let (ax, ay, az) = (abs(r.x as int), abs(r.y as int), abs(r.z as int));
    assert(r.x * c.x + r.y * c.y + r.z * c.z == 65536 * cv && ax * h.x + ay * h.y + az * h.z
        == 65536 * hv) by (nonlinear_arith)
        requires
            (r.x == 65536 && r.y == 0 && r.z == 0 && cv == c.x && hv == h.x) || (r.x == 0 && r.y
                == 65536 && r.z == 0 && cv == c.y && hv == h.y) || (r.x == 0 && r.y == 0 && r.z
                == 65536 && cv == c.z && hv == h.z),
            ax == abs(r.x as int),
            ay == abs(r.y as int),
            az == abs(r.z as int),
    ;
}

proof fn lemma_translation_axes(b: Aabb, t: Vec3)
    ensures
        axis_center(translation_transform(t).row_x, t.x, b.center) == LINEAR_ONE * (b.center.x
            + t.x),
        axis_center(translation_transform(t).row_y, t.y, b.center) == LINEAR_ONE * (b.center.y
            + t.y),
        axis_center(translation_transform(t).row_z, t.z, b.center) == LINEAR_ONE * (b.center.z
            + t.z),
        axis_half(translation_transform(t).row_x, b.half_extents) == LINEAR_ONE * b.half_extents.x,
        axis_half(translation_transform(t).row_y, b.half_extents) == LINEAR_ONE * b.half_extents.y,
        axis_half(translation_transform(t).row_z, b.half_extents) == LINEAR_ONE * b.half_extents.z,
{
    let xf = translation_transform(t);
    let c = b.center;
    let h = b.half_extents;
    lemma_unit_row_dots(xf.row_x, c, h, c.x, h.x);
    lemma_unit_row_dots(xf.row_y, c, h, c.y, h.y);
    lemma_unit_row_dots(xf.row_z, c, h, c.z, h.z);
}

/// Resolving through a transform that only translates by `t` moves the center
/// by `t` and keeps the half-extents (both in world-box units, that is
/// multiplied by `LINEAR_ONE`); it fits in 64 bits exactly when those values do.
pub proof fn lemma_translation_shifts_center(b: Aabb, t: Vec3)
    ensures
        resolution_fits(b, translation_transform(t)) <==> {
            &&& in_i64(LINEAR_ONE * (b.center.x + t.x))
            &&& in_i64(LINEAR_ONE * (b.center.y + t.y))
            &&& in_i64(LINEAR_ONE * (b.center.z + t.z))
            &&& in_i64(scaled(b.half_extents).0)
            &&& in_i64(scaled(b.half_extents).1)
            &&& in_i64(scaled(b.half_extents).2)
        },
        forall|w: Aabb|
            is_resolution(b, translation_transform(t), w) <==> {
                &&& w.center.x == LINEAR_ONE * (b.center.x + t.x)
                &&& w.center.y == LINEAR_ONE * (b.center.y + t.y)
                &&& w.center.z == LINEAR_ONE * (b.center.z + t.z)
                &&& (w.half_extents.x as int, w.half_extents.y as int, w.half_extents.z as int)
                    == scaled(b.half_extents)
            },
{
    lemma_translation_axes(b, t);
}

/// Resolving a box through the identity transform gives the same box, in
/// world-box units (every coordinate multiplied by `LINEAR_ONE`); it fits in
/// 64 bits exactly when those values do.
pub proof fn lemma_identity_keeps_box(b: Aabb)
    ensures
        resolution_fits(b, identity_transform()) <==> {
            &&& in_i64(scaled(b.center).0)
            &&& in_i64(scaled(b.center).1)
            &&& in_i64(scaled(b.center).2)
            &&& in_i64(scaled(b.half_extents).0)
            &&& in_i64(scaled(b.half_extents).1)
            &&& in_i64(scaled(b.half_extents).2)
        },
        forall|w: Aabb|
            is_resolution(b, identity_transform(), w) <==> {
                &&& (w.center.x as int, w.center.y as int, w.center.z as int) == scaled(b.center)
                &&& (w.half_extents.x as int, w.half_extents.y as int, w.half_extents.z as int)
                    == scaled(b.half_extents)
            },
{
    lemma_translation_axes(b, Vec3 { x: 0, y: 0, z: 0 });
}

/// A flat box (zero half-extent on some axis) stays flat on that axis, with
/// no widening, when resolved through the identity transform.
pub proof fn lemma_identity_keeps_flat_axis(b: Aabb, w: Aabb)
    requires
        is_resolution(b, identity_transform(), w),
    ensures
        b.half_extents.x == 0 ==> w.half_extents.x == 0,
        b.half_extents.y == 0 ==> w.half_extents.y == 0,
        b.half_extents.z == 0 ==> w.half_extents.z == 0,
{
    lemma_identity_keeps_box(b);
}

} // verus!
