use orbit_shadow::geom::Point2;
use orbit_shadow::hull::convex_hull;

fn p(x: i64, z: i64) -> Point2 {
    Point2 { x, z }
}

#[test]
fn square_with_interior_point() {
    let pts = vec![p(0, 0), p(4, 0), p(4, 4), p(0, 4), p(2, 2)];
    let hull = convex_hull(&pts);
    assert_eq!(hull, vec![p(0, 0), p(4, 0), p(4, 4), p(0, 4)]);
}

#[test]
fn hull_is_permutation_invariant() {
    let a = vec![p(0, 0), p(4, 0), p(4, 4), p(0, 4), p(2, 2)];
    let b = vec![p(2, 2), p(0, 4), p(4, 4), p(0, 0), p(4, 0), p(0, 0)];
    assert_eq!(convex_hull(&a), convex_hull(&b));
}

#[test]
fn hull_of_triangle_is_ccw_from_lex_min() {
    // the triangle's points in clockwise order still come out counter-clockwise
    let pts = vec![p(0, 0), p(1, 10), p(2, 0)];
    let hull = convex_hull(&pts);
    assert_eq!(hull, vec![p(0, 0), p(2, 0), p(1, 10)]);
}

#[test]
fn hull_winding_is_counter_clockwise() {
    let pts = vec![p(-3, 1), p(5, -2), p(4, 7), p(0, 6), p(1, 1)];
    let hull = convex_hull(&pts);
    assert!(hull.len() >= 3);
    let n = hull.len();
    for k in 0..n {
        let o = hull[k];
        let a = hull[(k + 1) % n];
        let b = hull[(k + 2) % n];
        let cross = (a.x - o.x) as i128 * (b.z - o.z) as i128
            - (a.z - o.z) as i128 * (b.x - o.x) as i128;
        assert!(cross > 0, "non-left turn at {}", k);
    }
}

#[test]
fn every_input_point_is_inside_or_on_hull() {
    let pts = vec![p(0, 0), p(10, 0), p(10, 10), p(0, 10), p(3, 4), p(7, 2), p(5, 9)];
    let hull = convex_hull(&pts);
    let n = hull.len();
    for q in &pts {
        for k in 0..n {
            let o = hull[k];
            let a = hull[(k + 1) % n];
            let cross = (a.x - o.x) as i128 * (q.z - o.z) as i128
                - (a.z - o.z) as i128 * (q.x - o.x) as i128;
            assert!(cross >= 0, "point {:?} outside edge {}", q, k);
        }
    }
}

#[test]
fn collinear_points_collapse_to_segment() {
    let pts = vec![p(0, 0), p(2, 2), p(4, 4), p(1, 1)];
    let hull = convex_hull(&pts);
    assert_eq!(hull, vec![p(0, 0), p(4, 4)]);
}

#[test]
fn duplicates_are_removed() {
    let pts = vec![p(1, 1), p(1, 1), p(1, 1)];
    let hull = convex_hull(&pts);
    assert_eq!(hull, vec![p(1, 1)]);
}

#[test]
fn empty_input_gives_empty_hull() {
    let pts: Vec<Point2> = Vec::new();
    assert_eq!(convex_hull(&pts), Vec::new());
}

#[test]
fn two_distinct_points_stay_sorted() {
    let pts = vec![p(5, 0), p(-1, 3)];
    assert_eq!(convex_hull(&pts), vec![p(-1, 3), p(5, 0)]);
}
