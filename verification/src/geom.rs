//! Planar points, 3D vectors and the orientation test the hull is built on.

use vstd::prelude::*;

verus! {

/// A point of the receiver plane, in fixed-point coordinates (x, z).
#[derive(Clone, Copy, PartialEq, Eq, Structural, Debug)]
pub struct Point2 {
    pub x: i64,
    pub z: i64,
}

/// A 3D vector or point in fixed-point coordinates.
#[derive(Clone, Copy, PartialEq, Eq, Structural, Debug)]
pub struct Vec3Fix {
    pub x: i64,
    pub y: i64,
    pub z: i64,
}

/// The coordinates of `p` are small enough that cross products on such
/// points fit in `i128`.
pub open spec fn bounded(p: Point2) -> bool {
    -crate::COORD_LIMIT < p.x < crate::COORD_LIMIT && -crate::COORD_LIMIT < p.z < crate::COORD_LIMIT
}

/// Twice the signed area of the triangle (o, a, b); positive when the
/// sequence o, a, b makes a counter-clockwise (left) turn in the (x, z)
/// plane.
pub open spec fn cross(o: Point2, a: Point2, b: Point2) -> int {
    (a.x - o.x) * (b.z - o.z) - (a.z - o.z) * (b.x - o.x)
}

/// Strict lexicographic order on points: by x, then by z.
pub open spec fn lex_lt(a: Point2, b: Point2) -> bool {
    a.x < b.x || (a.x == b.x && a.z < b.z)
}

/// Non-strict lexicographic order on points.
pub open spec fn lex_le(a: Point2, b: Point2) -> bool {
    lex_lt(a, b) || a == b
}

/// Orientation test on bounded points, exact in `i128`.
pub fn cross_sign(o: Point2, a: Point2, b: Point2) -> (r: i128)
    requires
        bounded(o),
        bounded(a),
        bounded(b),
    ensures
        r == cross(o, a, b),
{
    let ax: i128 = a.x as i128 - o.x as i128;
    let az: i128 = a.z as i128 - o.z as i128;
    let bx: i128 = b.x as i128 - o.x as i128;
    let bz: i128 = b.z as i128 - o.z as i128;
    proof {
        lemma_diff_product_bounded(ax as int, bz as int);
        lemma_diff_product_bounded(az as int, bx as int);
    }
    ax * bz - az * bx
}

/// The product of two coordinate differences stays well inside `i128`.
proof fn lemma_diff_product_bounded(p: int, q: int)
    requires
        -0x4000_0000_0000_0000 <= p <= 0x4000_0000_0000_0000,
        -0x4000_0000_0000_0000 <= q <= 0x4000_0000_0000_0000,
    ensures
        -0x1000_0000_0000_0000_0000_0000_0000_0000 <= p * q
            <= 0x1000_0000_0000_0000_0000_0000_0000_0000,
{
    assert(-0x1000_0000_0000_0000_0000_0000_0000_0000 <= p * q
        <= 0x1000_0000_0000_0000_0000_0000_0000_0000) by (nonlinear_arith)
        requires
            -0x4000_0000_0000_0000 <= p <= 0x4000_0000_0000_0000,
            -0x4000_0000_0000_0000 <= q <= 0x4000_0000_0000_0000,
    ;
}

/// Decides the strict lexicographic order on points.
pub fn lex_lt_exec(a: &Point2, b: &Point2) -> (r: bool)
    ensures
        r == lex_lt(*a, *b),
{
    a.x < b.x || (a.x == b.x && a.z < b.z)
}


/// Bounds the product of two bounded integers; used to rule out overflow in
/// the fixed-point arithmetic throughout the crate.
pub proof fn lemma_mul_bound(a: int, b: int, bound_a: int, bound_b: int)
    requires
        -bound_a <= a <= bound_a,
        -bound_b <= b <= bound_b,
        0 <= bound_a,
        0 <= bound_b,
    ensures
        -(bound_a * bound_b) <= a * b <= bound_a * bound_b,
{
    assert(-(bound_a * bound_b) <= a * b <= bound_a * bound_b) by (nonlinear_arith)
        requires
            -bound_a <= a <= bound_a,
            -bound_b <= b <= bound_b,
            0 <= bound_a,
            0 <= bound_b,
    ;
}



/// The cross product is invariant under cyclic rotation of its arguments
/// and negates when two are swapped.
pub proof fn lemma_cross_cyclic(a: Point2, b: Point2, c: Point2)
    ensures
        cross(a, b, c) == cross(b, c, a),
        cross(a, b, c) == cross(c, a, b),
        cross(a, b, c) == -cross(b, a, c),
{
    assert(cross(a, b, c) == cross(b, c, a) && cross(a, b, c) == cross(c, a, b) && cross(a, b, c)
        == -cross(b, a, c)) by (nonlinear_arith)
        requires
            cross(a, b, c) == (b.x - a.x) * (c.z - a.z) - (b.z - a.z) * (c.x - a.x),
            cross(b, c, a) == (c.x - b.x) * (a.z - b.z) - (c.z - b.z) * (a.x - b.x),
            cross(c, a, b) == (a.x - c.x) * (b.z - c.z) - (a.z - c.z) * (b.x - c.x),
            cross(b, a, c) == (a.x - b.x) * (c.z - b.z) - (a.z - b.z) * (c.x - b.x),
    ;
}

/// The three-term identity relating the orientations of four points: for a
/// base `o`, `cross(o,p,r) * (q.x - o.x)` splits over the middle point `q`.
pub proof fn lemma_cross_identity(o: Point2, p: Point2, q: Point2, r: Point2)
    ensures
        cross(o, p, r) * (q.x - o.x) == cross(o, p, q) * (r.x - o.x) + cross(o, q, r) * (p.x
            - o.x),
{
    assert(cross(o, p, r) * (q.x - o.x) == cross(o, p, q) * (r.x - o.x) + cross(o, q, r) * (p.x
        - o.x)) by (nonlinear_arith)
        requires
            cross(o, p, r) == (p.x - o.x) * (r.z - o.z) - (p.z - o.z) * (r.x - o.x),
            cross(o, p, q) == (p.x - o.x) * (q.z - o.z) - (p.z - o.z) * (q.x - o.x),
            cross(o, q, r) == (q.x - o.x) * (r.z - o.z) - (q.z - o.z) * (r.x - o.x),
    ;
}

/// A left turn over a vertical first step toward points further right is
/// impossible: with `a` directly below `b`, the turn sign toward any `c` at
/// or right of `a` cannot be positive.
proof fn lemma_vertical_step_no_left(a: Point2, b: Point2, c: Point2)
    requires
        a.x == b.x,
        a.z < b.z,
        c.x >= a.x,
    ensures
        cross(a, b, c) <= 0,
{
    assert(cross(a, b, c) <= 0) by (nonlinear_arith)
        requires
            cross(a, b, c) == (b.x - a.x) * (c.z - a.z) - (b.z - a.z) * (c.x - a.x),
            a.x == b.x,
            a.z < b.z,
            c.x >= a.x,
    ;
}

/// Left turns chain forward: if (a, b, c) and (b, c, d) both turn strictly
/// left along lexicographically increasing points, so does (a, b, d).
pub proof fn lemma_turn_extends(a: Point2, b: Point2, c: Point2, d: Point2)
    requires
        lex_lt(a, b),
        lex_lt(b, c),
        lex_lt(c, d),
        cross(a, b, c) > 0,
        cross(b, c, d) > 0,
    ensures
        cross(a, b, d) > 0,
{
    assert(a.x < b.x) by {
        if a.x == b.x {
            lemma_vertical_step_no_left(a, b, c);
        }
    }
    assert(b.x < c.x) by {
        if b.x == c.x {
            lemma_vertical_step_no_left(b, c, d);
        }
    }
    lemma_cross_identity(b, c, d, a);
    lemma_cross_cyclic(b, c, a);
    lemma_cross_cyclic(b, d, a);
    // cross(a,b,c) * (d.x - b.x) = cross(b,c,d) * (a.x - b.x) + cross(a,b,d) * (c.x - b.x)
    assert(cross(a, b, d) * (c.x - b.x) == cross(a, b, c) * (d.x - b.x) + cross(b, c, d) * (b.x
        - a.x)) by (nonlinear_arith)
        requires
            cross(b, c, a) * (d.x - b.x) == cross(b, c, d) * (a.x - b.x) + cross(b, d, a) * (c.x
                - b.x),
            cross(b, c, a) == cross(a, b, c),
            cross(b, d, a) == cross(a, b, d),
    ;
    assert(cross(a, b, d) > 0) by (nonlinear_arith)
        requires
            cross(a, b, d) * (c.x - b.x) == cross(a, b, c) * (d.x - b.x) + cross(b, c, d) * (b.x
                - a.x),
            cross(a, b, c) > 0,
            cross(b, c, d) > 0,
            d.x > b.x,
            b.x > a.x,
            c.x > b.x,
    ;
}

/// A point at or left of the chain's tail stays left of the new edge: with
/// `q` no further right than `b`, left of the edge (a, b), and the new point
/// `p` strictly left of that edge, `q` is left of the edge (b, p).
pub proof fn lemma_edge_keeps_left_point(a: Point2, b: Point2, p: Point2, q: Point2)
    requires
        lex_lt(a, b),
        lex_lt(b, p),
        q.x <= b.x,
        cross(a, b, q) >= 0,
        cross(a, b, p) > 0,
    ensures
        cross(b, p, q) >= 0,
{
    assert(a.x < b.x) by {
        if a.x == b.x {
            lemma_vertical_step_no_left(a, b, p);
        }
    }
    lemma_cross_identity(b, p, a, q);
    lemma_cross_cyclic(b, p, a);
    lemma_cross_cyclic(a, b, p);
    lemma_cross_cyclic(b, a, q);
    lemma_cross_cyclic(a, q, b);
    // cross(b,p,q) * (a.x - b.x) = cross(a,b,p) * (q.x - b.x) - cross(a,b,q) * (p.x - b.x)
    assert(cross(b, p, q) >= 0) by (nonlinear_arith)
        requires
            cross(b, p, q) * (a.x - b.x) == cross(b, p, a) * (q.x - b.x) + cross(b, a, q) * (p.x
                - b.x),
            cross(b, p, a) == cross(a, b, p),
            cross(b, a, q) == -cross(a, b, q),
            cross(a, b, q) >= 0,
            cross(a, b, p) > 0,
            q.x <= b.x,
            p.x >= b.x,
            a.x < b.x,
    ;
}

/// A point strictly right of `b` and left of the popped edge (b, e) stays
/// left of the new edge (b, p) that replaced it.
pub proof fn lemma_edge_keeps_right_point(b: Point2, e: Point2, p: Point2, q: Point2)
    requires
        lex_lt(b, e),
        lex_lt(e, p),
        b.x < q.x,
        q.x <= p.x,
        cross(b, e, q) >= 0,
        cross(b, e, p) <= 0,
    ensures
        cross(b, p, q) >= 0,
{
    assert(b.x < e.x) by {
        if b.x == e.x {
            // the edge (b, e) points straight up, so q right of b cannot be left of it
            assert(cross(b, e, q) < 0) by (nonlinear_arith)
                requires
                    cross(b, e, q) == (e.x - b.x) * (q.z - b.z) - (e.z - b.z) * (q.x - b.x),
                    b.x == e.x,
                    e.z > b.z,
                    q.x > b.x,
            ;
        }
    }
    lemma_cross_identity(b, p, e, q);
    lemma_cross_cyclic(b, p, e);
    lemma_cross_cyclic(b, e, p);
    // cross(b,p,q) * (e.x - b.x) = -cross(b,e,p) * (q.x - b.x) + cross(b,e,q) * (p.x - b.x)
    assert(cross(b, p, q) >= 0) by (nonlinear_arith)
        requires
            cross(b, p, q) * (e.x - b.x) == cross(b, p, e) * (q.x - b.x) + cross(b, e, q) * (p.x
                - b.x),
            cross(b, p, e) == -cross(b, e, p),
            cross(b, e, q) >= 0,
            cross(b, e, p) <= 0,
            q.x >= b.x,
            p.x >= b.x,
            e.x > b.x,
    ;
}

/// A point on the same vertical as `b` and no lower stays left of any edge
/// leaving `b` rightward.
pub proof fn lemma_edge_keeps_vertical_point(b: Point2, p: Point2, q: Point2)
    requires
        q.x == b.x,
        q.z >= b.z,
        p.x >= b.x,
    ensures
        cross(b, p, q) >= 0,
{
    assert(cross(b, p, q) >= 0) by (nonlinear_arith)
        requires
            cross(b, p, q) == (p.x - b.x) * (q.z - b.z) - (p.z - b.z) * (q.x - b.x),
            q.x == b.x,
            q.z >= b.z,
            p.x >= b.x,
    ;
}

/// The point reflected through the origin.
pub open spec fn neg_pt(p: Point2) -> Point2 {
    Point2 { x: (-p.x) as i64, z: (-p.z) as i64 }
}

/// Reflecting all three points through the origin preserves the turn sign
/// and reverses the lexicographic order.
pub proof fn lemma_neg_mirror(a: Point2, b: Point2, c: Point2)
    requires
        bounded(a),
        bounded(b),
        bounded(c),
    ensures
        cross(neg_pt(a), neg_pt(b), neg_pt(c)) == cross(a, b, c),
        neg_pt(a).x == -a.x && neg_pt(a).z == -a.z,
        neg_pt(b).x == -b.x && neg_pt(b).z == -b.z,
        neg_pt(c).x == -c.x && neg_pt(c).z == -c.z,
        lex_lt(neg_pt(a), neg_pt(b)) == lex_lt(b, a),
        bounded(neg_pt(a)) && bounded(neg_pt(b)) && bounded(neg_pt(c)),
{
    assert(cross(neg_pt(a), neg_pt(b), neg_pt(c)) == cross(a, b, c)) by (nonlinear_arith)
        requires
            cross(a, b, c) == (b.x - a.x) * (c.z - a.z) - (b.z - a.z) * (c.x - a.x),
            cross(neg_pt(a), neg_pt(b), neg_pt(c)) == ((-b.x) - (-a.x)) * ((-c.z) - (-a.z)) - ((
            -b.z) - (-a.z)) * ((-c.x) - (-a.x)),
    ;
}


/// Points all collinear with a fixed line are collinear with one another.
pub proof fn lemma_collinear_transfer(a: Point2, r: Point2, x: Point2, y: Point2, z: Point2)
    requires
        a != r,
        cross(a, r, x) == 0,
        cross(a, r, y) == 0,
        cross(a, r, z) == 0,
    ensures
        cross(x, y, z) == 0,
{
    if a.x != r.x {
        lemma_cross_identity(a, r, x, y);
        lemma_cross_identity(a, r, y, z);
        lemma_cross_identity(a, r, z, x);
        assert(cross(a, x, y) == 0 && cross(a, y, z) == 0 && cross(a, z, x) == 0)
            by (nonlinear_arith)
            requires
                cross(a, x, y) * (r.x - a.x) == 0,
                cross(a, y, z) * (r.x - a.x) == 0,
                cross(a, z, x) * (r.x - a.x) == 0,
                r.x != a.x,
        ;
        // the signed area of (x, y, z) splits over the base point a
        assert(cross(x, y, z) == cross(a, x, y) + cross(a, y, z) + cross(a, z, x))
            by (nonlinear_arith)
            requires
                cross(x, y, z) == (y.x - x.x) * (z.z - x.z) - (y.z - x.z) * (z.x - x.x),
                cross(a, x, y) == (x.x - a.x) * (y.z - a.z) - (x.z - a.z) * (y.x - a.x),
                cross(a, y, z) == (y.x - a.x) * (z.z - a.z) - (y.z - a.z) * (z.x - a.x),
                cross(a, z, x) == (z.x - a.x) * (x.z - a.z) - (z.z - a.z) * (x.x - a.x),
        ;
    } else {
        // the line is vertical: all three points share its x
        assert(x.x == a.x && y.x == a.x && z.x == a.x) by (nonlinear_arith)
            requires
                a.x == r.x,
                a.z != r.z,
                (r.x - a.x) * (x.z - a.z) - (r.z - a.z) * (x.x - a.x) == 0,
                (r.x - a.x) * (y.z - a.z) - (r.z - a.z) * (y.x - a.x) == 0,
                (r.x - a.x) * (z.z - a.z) - (r.z - a.z) * (z.x - a.x) == 0,
        ;
        assert(cross(x, y, z) == 0) by (nonlinear_arith)
            requires
                cross(x, y, z) == (y.x - x.x) * (z.z - x.z) - (y.z - x.z) * (z.x - x.x),
                x.x == y.x && y.x == z.x,
        ;
    }
}

/// Two opposing half-plane bounds along one line force every point onto it:
/// with `b` strictly between nothing — `a` before `r` and `e` before `r` on
/// the same line — a point left of the edge (a, r) and left of the edge
/// (r, e) is on the line.
pub proof fn lemma_opposing_edges_pin(a: Point2, r: Point2, e: Point2, q: Point2)
    requires
        lex_lt(a, r),
        lex_lt(e, r),
        cross(a, r, e) == 0,
        cross(a, r, q) >= 0,
        cross(r, e, q) >= 0,
    ensures
        cross(a, r, q) == 0,
        cross(r, e, q) == 0,
{
    lemma_cross_identity(r, e, a, q);
    lemma_cross_cyclic(r, e, a);
    lemma_cross_cyclic(a, r, e);
    lemma_cross_cyclic(r, a, q);
    // cross(r,e,q) * (a.x - r.x) = cross(r,e,a) * (q.x - r.x) + cross(r,a,q) * (e.x - r.x)
    if a.x < r.x && e.x < r.x {
        assert(cross(a, r, q) == 0 && cross(r, e, q) == 0) by (nonlinear_arith)
            requires
                cross(r, e, q) * (a.x - r.x) == cross(r, e, a) * (q.x - r.x) + cross(r, a, q) * (
                e.x - r.x),
                cross(r, e, a) == 0,
                cross(r, a, q) == -cross(a, r, q),
                cross(a, r, q) >= 0,
                cross(r, e, q) >= 0,
                a.x < r.x,
                e.x < r.x,
        ;
    } else if a.x == r.x && e.x == r.x {
        // a vertical line: the two edges bound q's x from both sides
        assert(cross(a, r, q) == 0 && cross(r, e, q) == 0) by (nonlinear_arith)
            requires
                cross(a, r, q) == (r.x - a.x) * (q.z - a.z) - (r.z - a.z) * (q.x - a.x),
                cross(r, e, q) == (e.x - r.x) * (q.z - r.z) - (e.z - r.z) * (q.x - r.x),
                a.x == r.x,
                e.x == r.x,
                a.z < r.z,
                e.z < r.z,
                cross(a, r, q) >= 0,
                cross(r, e, q) >= 0,
        ;
    } else if a.x == r.x {
        // e off a vertical line through a and r cannot be collinear with it
        assert(false) by (nonlinear_arith)
            requires
                cross(a, r, e) == (r.x - a.x) * (e.z - a.z) - (r.z - a.z) * (e.x - a.x),
                cross(a, r, e) == 0,
                a.x == r.x,
                a.z < r.z,
                e.x < r.x,
        ;
    } else {
        // on a non-vertical line, x determines z: e at r's x is r itself
        assert(e.z == r.z) by (nonlinear_arith)
            requires
                cross(a, r, e) == (r.x - a.x) * (e.z - a.z) - (r.z - a.z) * (e.x - a.x),
                cross(a, r, e) == 0,
                e.x == r.x,
                a.x < r.x,
        ;
        assert(e == r);
    }
}

} // verus!
