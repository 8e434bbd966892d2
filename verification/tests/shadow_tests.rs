use orbit_shadow::geom::{Point2, Vec3Fix};
use orbit_shadow::shadow::project_shadow;

fn v(x: i64, y: i64, z: i64) -> Vec3Fix {
    Vec3Fix { x, y, z }
}

fn p(x: i64, z: i64) -> Point2 {
    Point2 { x, z }
}

#[test]
fn horizontal_light_casts_no_shadow() {
    // light direction (0, 0, -1) runs parallel to the receiver plane
    let poly = project_shadow(v(0, 50, 0), 100, v(0, 0, -1), -2);
    assert_eq!(poly.points.len(), 0);
    assert_eq!(poly.den, 1);
}

#[test]
fn straight_down_light_projects_the_base_square() {
    // scale 100: a unit cube centered half a unit up, light straight down
    let poly = project_shadow(v(0, 50, 0), 100, v(0, -1, 0), 0);
    assert_eq!(poly.den, 2);
    assert_eq!(
        poly.points,
        vec![p(-100, -100), p(100, -100), p(100, 100), p(-100, 100)]
    );
}

#[test]
fn tilted_light_gives_quadrilateral_or_larger_offset_hull() {
    // scale 100: cube centered at (0, 0.5, 0) with edge 1, light along
    // (-0.6, -1.0, -0.3), receiver plane at -0.02
    let poly = project_shadow(v(0, 50, 0), 100, v(-60, -100, -30), -2);
    assert!(poly.points.len() >= 4);
    assert_eq!(poly.den, 200);
    // the hull's centroid is displaced the way the light leans: toward -x
    let sum_x: i128 = poly.points.iter().map(|q| q.x as i128).sum();
    assert!(sum_x < 0, "centroid x numerator {} not negative", sum_x);
    // and every projected corner sits inside or on the hull
    let hull = &poly.points;
    for k in 0..hull.len() {
        let o = hull[k];
        let a = hull[(k + 1) % hull.len()];
        let cross = (a.x - o.x) as i128 * (hull[(k + 2) % hull.len()].z - o.z) as i128
            - (a.z - o.z) as i128 * (hull[(k + 2) % hull.len()].x - o.x) as i128;
        assert!(cross > 0);
    }
}

#[test]
fn shadow_is_deterministic() {
    let a = project_shadow(v(10, 60, -20), 100, v(-60, -100, -30), -2);
    let b = project_shadow(v(10, 60, -20), 100, v(-60, -100, -30), -2);
    assert_eq!(a.points, b.points);
    assert_eq!(a.den, b.den);
}

#[test]
fn light_direction_scale_does_not_move_the_shadow() {
    // doubling the direction vector doubles every numerator and the
    // denominator alike: the same polygon as rationals
    let a = project_shadow(v(0, 50, 0), 100, v(-60, -100, -30), -2);
    let b = project_shadow(v(0, 50, 0), 100, v(-120, -200, -60), -2);
    assert_eq!(a.points.len(), b.points.len());
    assert_eq!(b.den, 2 * a.den);
    for (pa, pb) in a.points.iter().zip(b.points.iter()) {
        assert_eq!(pb.x, 2 * pa.x);
        assert_eq!(pb.z, 2 * pa.z);
    }
}

#[test]
fn upward_light_works_like_downward() {
    // a light with positive y meets the plane from below; the denominator
    // normalisation keeps the polygon well-formed
    let poly = project_shadow(v(0, 50, 0), 100, v(0, 1, 0), 0);
    assert_eq!(poly.den, 2);
    assert_eq!(poly.points.len(), 4);
}
