//! Parallel projection of a cuboid's corners onto the receiver plane.
//!
//! A directional light travels along `light`; a corner `v` meets the plane
//! `y = receiver_y` at `v - light * (v.y - receiver_y) / light.y`. All
//! corners share the same direction, so every projected point is a rational
//! whose denominator is `2 * |light.y|` (the factor 2 absorbs the half-unit
//! cuboid corners), and the hull can be taken on the integer numerators.
//! A light with `light.y == 0` runs parallel to the plane: every corner is
//! skipped and the shadow is empty.

use vstd::prelude::*;
use crate::geom::{Point2, Vec3Fix, bounded};
use crate::hull::{hull_spec, canon, convex_hull, all_bounded, point_in_hull, lemma_hull_contains_points, lemma_hull_ccw};

verus! {

/// Largest magnitude accepted for the inputs of `project_shadow`; keeps all
/// projected numerators within `NUM_LIMIT`.
pub const SHADOW_LIMIT: i64 = 10_000_000;

/// Largest numerator magnitude a well-formed shadow polygon may hold.
pub const NUM_LIMIT: i64 = 0x4_0000_0000_0000;

/// Largest denominator a well-formed shadow polygon may hold.
pub const DEN_LIMIT: i64 = 0x100_0000_0000;

/// The ground-plane footprint of a shadow: a convex polygon whose vertices
/// are the integer points `points[k]` divided by the shared positive
/// denominator `den`.
pub struct ShadowPolygon {
    /// Numerators of the polygon's vertices, in counter-clockwise order.
    pub points: Vec<Point2>,
    /// Shared positive denominator of every vertex.
    pub den: i64,
}

impl ShadowPolygon {
    /// The denominator is positive and every numerator is moderate, so later
    /// centroid and layer arithmetic cannot overflow.
    pub open spec fn wf(self) -> bool {
        &&& 0 < self.den <= DEN_LIMIT
        &&& forall|k: int|
            0 <= k < self.points@.len() ==> -NUM_LIMIT <= (#[trigger] self.points@[k]).x
                <= NUM_LIMIT && -NUM_LIMIT <= self.points@[k].z <= NUM_LIMIT
    }
}

/// The denominator shared by all projected corners: `2 * |light_y|`.
pub open spec fn shadow_den(light_y: int) -> int {
    if light_y >= 0 {
        2 * light_y
    } else {
        -2 * light_y
    }
}

/// Sign that normalises the denominator to be positive.
pub open spec fn proj_sign(light_y: int) -> int {
    if light_y >= 0 {
        1
    } else {
        -1
    }
}

/// The eight corners of the axis-aligned cuboid centered at `c` with edge
/// length `e`, in doubled coordinates (so half-unit corners stay integral).
pub open spec fn corners2(c: Vec3Fix, e: i64) -> Seq<(int, int, int)> {
    seq![
        (2 * c.x - e, 2 * c.y - e, 2 * c.z - e),
        (2 * c.x + e, 2 * c.y - e, 2 * c.z - e),
        (2 * c.x - e, 2 * c.y + e, 2 * c.z - e),
        (2 * c.x + e, 2 * c.y + e, 2 * c.z - e),
        (2 * c.x - e, 2 * c.y - e, 2 * c.z + e),
        (2 * c.x + e, 2 * c.y - e, 2 * c.z + e),
        (2 * c.x - e, 2 * c.y + e, 2 * c.z + e),
        (2 * c.x + e, 2 * c.y + e, 2 * c.z + e),
    ]
}

/// Numerators of the plane point hit by the ray from doubled corner `v`
/// along `d`, over the denominator `shadow_den(d.y)`.
pub open spec fn project_corner(v: (int, int, int), d: Vec3Fix, ry: int) -> Point2 {
    let s = proj_sign(d.y as int);
    Point2 {
        x: (s * (v.0 * d.y - d.x * (v.1 - 2 * ry))) as i64,
        z: (s * (v.2 * d.y - d.z * (v.1 - 2 * ry))) as i64,
    }
}

/// All eight corners of the cuboid, projected.
pub open spec fn projected_corners(c: Vec3Fix, e: i64, d: Vec3Fix, ry: int) -> Seq<Point2> {
    corners2(c, e).map(|i: int, v: (int, int, int)| project_corner(v, d, ry))
}

/// The inputs `project_shadow` accepts: all coordinates moderate, the edge
/// length non-negative. The bounds are machine limits that keep every
/// intermediate product inside `i64`.
pub open spec fn shadow_inputs_ok(c: Vec3Fix, e: i64, d: Vec3Fix, ry: i64) -> bool {
    &&& -SHADOW_LIMIT <= c.x <= SHADOW_LIMIT
    &&& -SHADOW_LIMIT <= c.y <= SHADOW_LIMIT
    &&& -SHADOW_LIMIT <= c.z <= SHADOW_LIMIT
    &&& 0 <= e <= SHADOW_LIMIT
    &&& -SHADOW_LIMIT <= d.x <= SHADOW_LIMIT
    &&& -SHADOW_LIMIT <= d.y <= SHADOW_LIMIT
    &&& -SHADOW_LIMIT <= d.z <= SHADOW_LIMIT
    &&& -SHADOW_LIMIT <= ry <= SHADOW_LIMIT
}

/// Everything `project_shadow` promises of its result: the polygon is
/// well-formed; a horizontal light yields the empty polygon; otherwise the
/// points are exactly the convex hull of the eight projected corners over
/// the denominator `2 * |light.y|`. The result is a function of the
/// arguments alone, so two calls on equal arguments agree.
pub open spec fn shadow_post(r: ShadowPolygon, c: Vec3Fix, e: i64, d: Vec3Fix, ry: i64) -> bool {
    &&& r.wf()
    &&& d.y == 0 ==> r.points@.len() == 0 && r.den == 1
    &&& d.y != 0 ==> r.den == shadow_den(d.y as int) && r.points@ == hull_spec(
        projected_corners(c, e, d, ry as int),
    )
}

/// Law: the shadow is a pure function of its inputs. Any two results that
/// `project_shadow` may return for the same arguments are identical.
pub proof fn lemma_shadow_deterministic(
    r1: ShadowPolygon,
    r2: ShadowPolygon,
    c: Vec3Fix,
    e: i64,
    d: Vec3Fix,
    ry: i64,
)
    requires
        shadow_post(r1, c, e, d, ry),
        shadow_post(r2, c, e, d, ry),
    ensures
        r1.points@ == r2.points@,
        r1.den == r2.den,
{
}

/// One projected corner stays within the numerator bound, so the hull's
/// geometry lemmas apply to it.
proof fn lemma_project_corner_bounded(v: (int, int, int), d: Vec3Fix, ry: int)
    requires
        -30_000_000 <= v.0 <= 30_000_000,
        -30_000_000 <= v.1 <= 30_000_000,
        -30_000_000 <= v.2 <= 30_000_000,
        -SHADOW_LIMIT <= d.x <= SHADOW_LIMIT,
        -SHADOW_LIMIT <= d.y <= SHADOW_LIMIT,
        -SHADOW_LIMIT <= d.z <= SHADOW_LIMIT,
        -SHADOW_LIMIT <= ry <= SHADOW_LIMIT,
    ensures
        -NUM_LIMIT <= project_corner(v, d, ry).x <= NUM_LIMIT,
        -NUM_LIMIT <= project_corner(v, d, ry).z <= NUM_LIMIT,
        bounded(project_corner(v, d, ry)),
{
    crate::geom::lemma_mul_bound(v.0, d.y as int, 30_000_000, 10_000_000);
    crate::geom::lemma_mul_bound(v.2, d.y as int, 30_000_000, 10_000_000);
    crate::geom::lemma_mul_bound(d.x as int, v.1 - 2 * ry, 10_000_000, 50_000_000);
    crate::geom::lemma_mul_bound(d.z as int, v.1 - 2 * ry, 10_000_000, 50_000_000);
    let sgn = proj_sign(d.y as int);
    let nx = v.0 * d.y - d.x * (v.1 - 2 * ry);
    let nz = v.2 * d.y - d.z * (v.1 - 2 * ry);
    assert(-NUM_LIMIT <= sgn * nx <= NUM_LIMIT && -NUM_LIMIT <= sgn * nz <= NUM_LIMIT)
        by (nonlinear_arith)
        requires
            sgn == 1 || sgn == -1,
            -800_000_000_000_000 <= nx <= 800_000_000_000_000,
            -800_000_000_000_000 <= nz <= 800_000_000_000_000,
            NUM_LIMIT == 0x4_0000_0000_0000,
    ;
}

/// All eight projected corners are bounded.
proof fn lemma_corners_bounded(c: Vec3Fix, e: i64, d: Vec3Fix, ry: i64)
    requires
        shadow_inputs_ok(c, e, d, ry),
    ensures
        all_bounded(projected_corners(c, e, d, ry as int)),
        projected_corners(c, e, d, ry as int).len() == 8,
        forall|k: int|
            0 <= k < 8 ==> -NUM_LIMIT <= (#[trigger] projected_corners(c, e, d, ry as int)[k]).x
                <= NUM_LIMIT && -NUM_LIMIT <= projected_corners(c, e, d, ry as int)[k].z
                <= NUM_LIMIT,
{
    let cs = corners2(c, e);
    assert forall|k: int| 0 <= k < 8 implies -30_000_000 <= (#[trigger] cs[k]).0 <= 30_000_000
        && -30_000_000 <= cs[k].1 <= 30_000_000 && -30_000_000 <= cs[k].2 <= 30_000_000 by {
        if k == 0 {
            assert(cs[0] == (2 * c.x - e, 2 * c.y - e, 2 * c.z - e));
        } else if k == 1 {
            assert(cs[1] == (2 * c.x + e, 2 * c.y - e, 2 * c.z - e));
        } else if k == 2 {
            assert(cs[2] == (2 * c.x - e, 2 * c.y + e, 2 * c.z - e));
        } else if k == 3 {
            assert(cs[3] == (2 * c.x + e, 2 * c.y + e, 2 * c.z - e));
        } else if k == 4 {
            assert(cs[4] == (2 * c.x - e, 2 * c.y - e, 2 * c.z + e));
        } else if k == 5 {
            assert(cs[5] == (2 * c.x + e, 2 * c.y - e, 2 * c.z + e));
        } else if k == 6 {
            assert(cs[6] == (2 * c.x - e, 2 * c.y + e, 2 * c.z + e));
        } else {
            assert(cs[7] == (2 * c.x + e, 2 * c.y + e, 2 * c.z + e));
        }
    }
    assert forall|k: int| 0 <= k < 8 implies -NUM_LIMIT <= (#[trigger] projected_corners(
        c,
        e,
        d,
        ry as int,
    )[k]).x <= NUM_LIMIT && -NUM_LIMIT <= projected_corners(c, e, d, ry as int)[k].z <= NUM_LIMIT
        && bounded(projected_corners(c, e, d, ry as int)[k]) by {
        assert(projected_corners(c, e, d, ry as int)[k] == project_corner(cs[k], d, ry as int));
        lemma_project_corner_bounded(cs[k], d, ry as int);
    }
}

/// Law: the shadow polygon contains every one of the cuboid's projected
/// corners — each lies on the boundary of the hull or inside it.
pub proof fn lemma_shadow_contains_corners(
    r: ShadowPolygon,
    c: Vec3Fix,
    e: i64,
    d: Vec3Fix,
    ry: i64,
    k: int,
)
    requires
        shadow_post(r, c, e, d, ry),
        shadow_inputs_ok(c, e, d, ry),
        d.y != 0,
        r.points@.len() >= 3,
        0 <= k < 8,
    ensures
        point_in_hull(projected_corners(c, e, d, ry as int)[k], r.points@),
{
    let pts = projected_corners(c, e, d, ry as int);
    lemma_corners_bounded(c, e, d, ry);
    assert(pts.contains(pts[k]));
    // fewer than three distinct projections would leave the polygon degenerate
    assert(canon(pts).len() >= 3) by {
        if canon(pts).len() < 3 {
            assert(r.points@ == canon(pts));
        }
    }
    lemma_hull_contains_points(pts, pts[k]);
}

/// Law: a shadow polygon with three or more vertices is a strictly convex
/// polygon in counter-clockwise winding — every three cyclically
/// consecutive vertices make a strict left turn, so the fan triangulation
/// is consistent.
pub proof fn lemma_shadow_ccw(r: ShadowPolygon, c: Vec3Fix, e: i64, d: Vec3Fix, ry: i64)
    requires
        shadow_post(r, c, e, d, ry),
        shadow_inputs_ok(c, e, d, ry),
        d.y != 0,
        r.points@.len() >= 3,
    ensures
        forall|t: int|
            0 <= t < r.points@.len() ==> crate::geom::cross(
                #[trigger] r.points@[t],
                r.points@[if t + 1 < r.points@.len() {
                    t + 1
                } else {
                    t + 1 - r.points@.len()
                }],
                r.points@[if t + 2 < r.points@.len() {
                    t + 2
                } else {
                    t + 2 - r.points@.len()
                }],
            ) > 0,
{
    let pts = projected_corners(c, e, d, ry as int);
    lemma_corners_bounded(c, e, d, ry);
    lemma_hull_ccw(pts);
}

/// Projects one doubled corner along the light direction, with the sign of
/// `d.y` factored out so the denominator is positive.
fn project_vertex(v2x: i64, v2y: i64, v2z: i64, d: Vec3Fix, ry: i64) -> (r: Point2)
    requires
        -3 * SHADOW_LIMIT <= v2x <= 3 * SHADOW_LIMIT,
        -3 * SHADOW_LIMIT <= v2y <= 3 * SHADOW_LIMIT,
        -3 * SHADOW_LIMIT <= v2z <= 3 * SHADOW_LIMIT,
        -SHADOW_LIMIT <= d.x <= SHADOW_LIMIT,
        -SHADOW_LIMIT <= d.y <= SHADOW_LIMIT,
        -SHADOW_LIMIT <= d.z <= SHADOW_LIMIT,
        -SHADOW_LIMIT <= ry <= SHADOW_LIMIT,
    ensures
        r == project_corner((v2x as int, v2y as int, v2z as int), d, ry as int),
        -NUM_LIMIT <= r.x <= NUM_LIMIT,
        -NUM_LIMIT <= r.z <= NUM_LIMIT,
{
    proof {
        crate::geom::lemma_mul_bound(v2x as int, d.y as int, 30_000_000, 10_000_000);
        crate::geom::lemma_mul_bound(v2z as int, d.y as int, 30_000_000, 10_000_000);
        crate::geom::lemma_mul_bound(d.x as int, v2y - 2 * ry, 10_000_000, 50_000_000);
        crate::geom::lemma_mul_bound(d.z as int, v2y - 2 * ry, 10_000_000, 50_000_000);
    }
    let lift = v2y - 2 * ry;
    let nx = v2x * d.y - d.x * lift;
    let nz = v2z * d.y - d.z * lift;
    if d.y >= 0 {
        Point2 { x: nx, z: nz }
    } else {
        Point2 { x: -nx, z: -nz }
    }
}

/// Computes the shadow polygon of the axis-aligned cuboid centered at
/// `center` with edge length `edge`, cast along `light` onto the plane
/// `y = receiver_y`: each corner is projected onto the plane and the convex
/// hull of the projections is taken. A horizontal light (`light.y == 0`)
/// cannot meet the plane, so every corner is skipped and the polygon is
/// empty. Coordinates are in the caller's fixed-point scale; the result's
/// vertices are its integer `points` over its positive denominator `den`.
pub fn project_shadow(center: Vec3Fix, edge: i64, light: Vec3Fix, receiver_y: i64) -> (r:
    ShadowPolygon)
    requires
        shadow_inputs_ok(center, edge, light, receiver_y),
    ensures
        shadow_post(r, center, edge, light, receiver_y),
{
    if light.y == 0 {
        return ShadowPolygon { points: Vec::new(), den: 1 };
    }
    let den = if light.y > 0 {
        2 * light.y
    } else {
        2 * (-light.y)
    };
    assert(den == shadow_den(light.y as int));
    let mut pts: Vec<Point2> = Vec::new();
    let xs0 = 2 * center.x - edge;
    let xs1 = 2 * center.x + edge;
    let ys0 = 2 * center.y - edge;
    let ys1 = 2 * center.y + edge;
    let zs0 = 2 * center.z - edge;
    let zs1 = 2 * center.z + edge;
    pts.push(project_vertex(xs0, ys0, zs0, light, receiver_y));
    pts.push(project_vertex(xs1, ys0, zs0, light, receiver_y));
    pts.push(project_vertex(xs0, ys1, zs0, light, receiver_y));
    pts.push(project_vertex(xs1, ys1, zs0, light, receiver_y));
    pts.push(project_vertex(xs0, ys0, zs1, light, receiver_y));
    pts.push(project_vertex(xs1, ys0, zs1, light, receiver_y));
    pts.push(project_vertex(xs0, ys1, zs1, light, receiver_y));
    pts.push(project_vertex(xs1, ys1, zs1, light, receiver_y));
    proof {
        assert(pts@ =~= projected_corners(center, edge, light, receiver_y as int));
        assert(all_bounded(pts@)) by {
            assert forall|k: int| 0 <= k < pts@.len() implies bounded(#[trigger] pts@[k]) by {
            }
        }
    }
    let hull = convex_hull(&pts);
    proof {
        assert forall|k: int|
            0 <= k < hull@.len() implies -NUM_LIMIT <= (#[trigger] hull@[k]).x <= NUM_LIMIT
            && -NUM_LIMIT <= hull@[k].z <= NUM_LIMIT by {
            assert(pts@.contains(hull@[k]));
            let m = choose|m: int| 0 <= m < pts@.len() && pts@[m] == hull@[k];
        }
    }
    ShadowPolygon { points: hull, den }
}

} // verus!
