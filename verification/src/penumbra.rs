//! Layered soft-shadow approximation.
//!
//! The hard shadow hull is copied `layer_count` times; layer `i` (with
//! `t = i / (layer_count - 1)`) is scaled outward from the hull's centroid
//! by `1 + 0.7 * t` and blended with alpha `clamp(160 * (1 - t) + 30, 10,
//! 255)`, so the innermost copy is the most opaque and the spread fades
//! outward without ever turning fully transparent. Alphas and scales are
//! kept as exact fractions; every layer point is an integer numerator pair
//! over the layer's shared positive denominator.

use vstd::prelude::*;
use crate::geom::Point2;
use crate::shadow::ShadowPolygon;

verus! {

/// A point with wide numerators, as produced by the layer scaling.
#[derive(Clone, Copy, PartialEq, Eq, Structural, Debug)]
pub struct PointWide {
    pub x: i128,
    pub z: i128,
}

/// One concentric copy of the shadow hull: its scaled vertices and centroid
/// over the shared denominator `den`, its blend alpha and its outward scale,
/// both exact fractions.
pub struct PenumbraLayer {
    /// Scaled vertex numerators, one per hull vertex, over `den`.
    pub points: Vec<PointWide>,
    /// Centroid numerators of the hull, over the same `den`.
    pub center: PointWide,
    /// Shared positive denominator of `points` and `center`.
    pub den: i128,
    /// Blend alpha numerator; the alpha value is `alpha_num / alpha_den`.
    pub alpha_num: i64,
    /// Blend alpha denominator, positive.
    pub alpha_den: i64,
    /// Outward scale numerator; the scale is `scale_num / scale_den`.
    pub scale_num: i64,
    /// Outward scale denominator, positive.
    pub scale_den: i64,
}

/// Denominator of the interpolation parameter `t = i / (layer_count - 1)`;
/// a single layer sits at `t = 0`.
pub open spec fn t_den(layer_count: int) -> int {
    if layer_count >= 2 {
        layer_count - 1
    } else {
        1
    }
}

/// Alpha numerator of layer `i` over `t_den(n)`: the exact value of
/// `160 * (1 - t) + 30` at `t = i / (n - 1)`.
pub open spec fn alpha_num_spec(i: int, n: int) -> int {
    190 * t_den(n) - 160 * i
}

/// Scale numerator of layer `i` over `10 * t_den(n)`: the exact value of
/// `1 + 0.7 * t` at `t = i / (n - 1)`.
pub open spec fn scale_num_spec(i: int, n: int) -> int {
    10 * t_den(n) + 7 * i
}

/// Sum of the x numerators of a polygon's vertices.
pub open spec fn sum_x(s: Seq<Point2>) -> int
    decreases s.len(),
{
    if s.len() == 0 {
        0
    } else {
        sum_x(s.drop_last()) + s.last().x
    }
}

/// Sum of the z numerators of a polygon's vertices.
pub open spec fn sum_z(s: Seq<Point2>) -> int
    decreases s.len(),
{
    if s.len() == 0 {
        0
    } else {
        sum_z(s.drop_last()) + s.last().z
    }
}

/// The x numerator of hull vertex `j` scaled outward from the centroid by
/// `scale_num_spec(i, n) / (10 * t_den(n))`, over the layer denominator
/// `poly.den * poly.points.len() * 10 * t_den(n)`.
pub open spec fn layer_x(poly: ShadowPolygon, n: int, i: int, j: int) -> int {
    let k = poly.points@.len() as int;
    let c = sum_x(poly.points@);
    c * (10 * t_den(n)) + scale_num_spec(i, n) * (poly.points@[j].x * k - c)
}

/// The z numerator of hull vertex `j` in layer `i`; see `layer_x`.
pub open spec fn layer_z(poly: ShadowPolygon, n: int, i: int, j: int) -> int {
    let k = poly.points@.len() as int;
    let c = sum_z(poly.points@);
    c * (10 * t_den(n)) + scale_num_spec(i, n) * (poly.points@[j].z * k - c)
}

/// Everything `build_layers` promises of one layer.
pub open spec fn layer_post(l: PenumbraLayer, poly: ShadowPolygon, n: int, i: int) -> bool {
    &&& l.alpha_num == alpha_num_spec(i, n)
    &&& l.alpha_den == t_den(n)
    &&& l.scale_num == scale_num_spec(i, n)
    &&& l.scale_den == 10 * t_den(n)
    &&& l.den == poly.den * (poly.points@.len() as int) * (10 * t_den(n))
    &&& l.points@.len() == poly.points@.len()
    &&& forall|j: int|
        0 <= j < l.points@.len() ==> (#[trigger] l.points@[j]).x == layer_x(poly, n, i, j)
            && l.points@[j].z == layer_z(poly, n, i, j)
    &&& l.center.x == sum_x(poly.points@) * (10 * t_den(n))
    &&& l.center.z == sum_z(poly.points@) * (10 * t_den(n))
}

/// Law: alphas never leave `[10, 255]`, so the clamp in the alpha formula
/// `clamp(160 * (1 - t) + 30, 10, 255)` never binds for `0 <= i < n`.
pub proof fn lemma_alpha_within_clamp(i: int, n: int)
    requires
        0 <= i < n,
    ensures
        10 * t_den(n) <= alpha_num_spec(i, n) <= 255 * t_den(n),
{
}

/// Law: across the layers of one build, alpha is non-increasing and scale is
/// non-decreasing with the layer index.
pub proof fn lemma_penumbra_monotone(i: int, j: int, n: int)
    requires
        0 <= i <= j < n,
    ensures
        alpha_num_spec(i, n) >= alpha_num_spec(j, n),
        scale_num_spec(i, n) <= scale_num_spec(j, n),
{
}


proof fn lemma_sum_take_step(s: Seq<Point2>, j: int)
    requires
        0 <= j < s.len(),
    ensures
        sum_x(s.take(j + 1)) == sum_x(s.take(j)) + s[j].x,
        sum_z(s.take(j + 1)) == sum_z(s.take(j)) + s[j].z,
{
    assert(s.take(j + 1).drop_last() =~= s.take(j));
    assert(s.take(j + 1).last() == s[j]);
}

/// Builds the `layer_count` concentric penumbra copies of the hull. Layer
/// `i` carries alpha `(190 * (n-1) - 160 * i) / (n-1)` — the exact value of
/// `clamp(160 * (1 - t) + 30, 10, 255)`, whose clamp never binds — and
/// scale `1 + 0.7 * t` as the fraction `(10 * (n-1) + 7 * i) / (10 * (n-1))`
/// at `t = i / (n-1)`; its vertices are the hull's centroid-relative points
/// stretched by that scale and re-added to the centroid. The length and
/// count bounds are machine limits that keep all numerators inside `i128`.
pub fn build_layers(poly: &ShadowPolygon, layer_count: usize) -> (r: Vec<PenumbraLayer>)
    requires
        poly.wf(),
        poly.points@.len() <= 0x1_0000,
        1 <= layer_count <= 1_000_000,
    ensures
        r@.len() == layer_count,
        forall|i: int|
            0 <= i < layer_count ==> layer_post(#[trigger] r@[i], *poly, layer_count as int, i),
{
    let k = poly.points.len();
    let mut sx: i128 = 0;
    let mut sz: i128 = 0;
    let mut j: usize = 0;
    while j < k
        invariant
            poly.wf(),
            k == poly.points@.len() <= 0x1_0000,
            j <= k,
            sx == sum_x(poly.points@.take(j as int)),
            sz == sum_z(poly.points@.take(j as int)),
            -0x4_0000_0000_0000i128 * j as i128 <= sx <= 0x4_0000_0000_0000i128 * j as i128,
            -0x4_0000_0000_0000i128 * j as i128 <= sz <= 0x4_0000_0000_0000i128 * j as i128,
        decreases k - j,
    {
        proof {
            lemma_sum_take_step(poly.points@, j as int);
            crate::geom::lemma_mul_bound(0x4_0000_0000_0000, j as int + 1, 0x4_0000_0000_0000, 0x1_0000);
        }
        sx = sx + poly.points[j].x as i128;
        sz = sz + poly.points[j].z as i128;
        j = j + 1;
    }
    proof {
        assert(poly.points@.take(k as int) =~= poly.points@);
        crate::geom::lemma_mul_bound(sx as int, 1, 0x10_0000_0000_0000_0000, 1);
    }
    let td: i64 = if layer_count >= 2 {
        (layer_count - 1) as i64
    } else {
        1
    };
    let s_den: i64 = 10 * td;
    let ghost n = layer_count as int;
    proof {
        assert(td == t_den(n));
        crate::geom::lemma_mul_bound(poly.den as int, k as int, 0x100_0000_0000, 0x1_0000);
        crate::geom::lemma_mul_bound(poly.den as int * k as int, s_den as int, 0x100_0000_0000_0000, 10_000_000);
        crate::geom::lemma_mul_bound(sx as int, s_den as int, 0x10_0000_0000_0000_0000, 10_000_000);
        crate::geom::lemma_mul_bound(sz as int, s_den as int, 0x10_0000_0000_0000_0000, 10_000_000);
    }
    let lden: i128 = poly.den as i128 * k as i128 * s_den as i128;
    let cx: i128 = sx * s_den as i128;
    let cz: i128 = sz * s_den as i128;
    let mut r: Vec<PenumbraLayer> = Vec::new();
    let mut i: usize = 0;
    while i < layer_count
        invariant
            poly.wf(),
            k == poly.points@.len() <= 0x1_0000,
            1 <= layer_count <= 1_000_000,
            n == layer_count as int,
            td == t_den(n),
            s_den == 10 * t_den(n),
            sx == sum_x(poly.points@),
            sz == sum_z(poly.points@),
            -0x10_0000_0000_0000_0000i128 <= sx <= 0x10_0000_0000_0000_0000i128,
            -0x10_0000_0000_0000_0000i128 <= sz <= 0x10_0000_0000_0000_0000i128,
            lden == poly.den as int * k as int * (10 * t_den(n)),
            cx == sum_x(poly.points@) * (10 * t_den(n)),
            cz == sum_z(poly.points@) * (10 * t_den(n)),
            -0x10_0000_0000_0000_0000_0000_0000i128 <= cx <= 0x10_0000_0000_0000_0000_0000_0000i128,
            -0x10_0000_0000_0000_0000_0000_0000i128 <= cz <= 0x10_0000_0000_0000_0000_0000_0000i128,
            i <= layer_count,
            r@.len() == i,
            forall|m: int| 0 <= m < i ==> layer_post(#[trigger] r@[m], *poly, n, m),
        decreases layer_count - i,
    {
        let alpha_num: i64 = 190 * td - 160 * (i as i64);
        let scale_num: i64 = 10 * td + 7 * (i as i64);
        let mut pts: Vec<PointWide> = Vec::new();
        let mut j2: usize = 0;
        while j2 < k
            invariant
                poly.wf(),
                k == poly.points@.len() <= 0x1_0000,
                1 <= layer_count <= 1_000_000,
                n == layer_count as int,
                i < layer_count,
                scale_num == scale_num_spec(i as int, n),
                0 < scale_num <= 17_000_000,
                sx == sum_x(poly.points@),
                sz == sum_z(poly.points@),
                -0x10_0000_0000_0000_0000i128 <= sx <= 0x10_0000_0000_0000_0000i128,
                -0x10_0000_0000_0000_0000i128 <= sz <= 0x10_0000_0000_0000_0000i128,
                cx == sum_x(poly.points@) * (10 * t_den(n)),
                cz == sum_z(poly.points@) * (10 * t_den(n)),
                -0x10_0000_0000_0000_0000_0000_0000i128 <= cx <= 0x10_0000_0000_0000_0000_0000_0000i128,
                -0x10_0000_0000_0000_0000_0000_0000i128 <= cz <= 0x10_0000_0000_0000_0000_0000_0000i128,
                j2 <= k,
                pts@.len() == j2,
                forall|m: int|
                    0 <= m < j2 ==> (#[trigger] pts@[m]).x == layer_x(*poly, n, i as int, m)
                        && pts@[m].z == layer_z(*poly, n, i as int, m),
            decreases k - j2,
        {
            proof {
                crate::geom::lemma_mul_bound(
                    poly.points@[j2 as int].x as int,
                    k as int,
                    0x4_0000_0000_0000,
                    0x1_0000,
                );
                crate::geom::lemma_mul_bound(
                    poly.points@[j2 as int].z as int,
                    k as int,
                    0x4_0000_0000_0000,
                    0x1_0000,
                );
                crate::geom::lemma_mul_bound(
                    scale_num as int,
                    poly.points@[j2 as int].x as int * k as int - sx as int,
                    17_000_000,
                    0x20_0000_0000_0000_0000,
                );
                crate::geom::lemma_mul_bound(
                    scale_num as int,
                    poly.points@[j2 as int].z as int * k as int - sz as int,
                    17_000_000,
                    0x20_0000_0000_0000_0000,
                );
            }
            let p = poly.points[j2];
            let px: i128 = cx + scale_num as i128 * (p.x as i128 * k as i128 - sx);
            let pz: i128 = cz + scale_num as i128 * (p.z as i128 * k as i128 - sz);
            pts.push(PointWide { x: px, z: pz });
            j2 = j2 + 1;
        }
        let layer = PenumbraLayer {
            points: pts,
            center: PointWide { x: cx, z: cz },
            den: lden,
            alpha_num,
            alpha_den: td,
            scale_num,
            scale_den: s_den,
        };
        r.push(layer);
        i = i + 1;
    }
    r
}


/// A triangle of wide points, all over the owning layer's denominator.
#[derive(Clone, Copy, PartialEq, Eq, Structural, Debug)]
pub struct Triangle {
    pub a: PointWide,
    pub b: PointWide,
    pub c: PointWide,
}

/// Fan-triangulates a layer from its centroid through consecutive hull
/// edges: triangle `j` runs from the centroid to vertices `j` and `j + 1`
/// (wrapping around). A layer with fewer than three vertices draws nothing.
pub fn fan_triangles(layer: &PenumbraLayer) -> (r: Vec<Triangle>)
    ensures
        layer.points@.len() < 3 ==> r@.len() == 0,
        layer.points@.len() >= 3 ==> r@.len() == layer.points@.len() && forall|j: int|
            0 <= j < r@.len() ==> (#[trigger] r@[j]).a == layer.center && r@[j].b
                == layer.points@[j] && r@[j].c == layer.points@[
                if j + 1 == r@.len() {
                    0int
                } else {
                    j + 1
                }
            ],
{
    let n = layer.points.len();
    let mut r: Vec<Triangle> = Vec::new();
    if n < 3 {
        return r;
    }
    let mut j: usize = 0;
    while j < n
        invariant
            3 <= n == layer.points@.len(),
            j <= n,
            r@.len() == j,
            forall|m: int|
                0 <= m < j ==> (#[trigger] r@[m]).a == layer.center && r@[m].b
                    == layer.points@[m] && r@[m].c == layer.points@[
                    if m + 1 == n {
                        0int
                    } else {
                        m + 1
                    }
                ],
        decreases n - j,
    {
        let next: usize = if j + 1 == n {
            0
        } else {
            j + 1
        };
        r.push(Triangle { a: layer.center, b: layer.points[j], c: layer.points[next] });
        j = j + 1;
    }
    r
}

} // verus!
