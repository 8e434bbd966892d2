use orbit_shadow::geom::Point2;
use orbit_shadow::penumbra::{build_layers, fan_triangles};
use orbit_shadow::shadow::ShadowPolygon;

fn square() -> ShadowPolygon {
    ShadowPolygon {
        points: vec![
            Point2 { x: -100, z: -100 },
            Point2 { x: 100, z: -100 },
            Point2 { x: 100, z: 100 },
            Point2 { x: -100, z: 100 },
        ],
        den: 2,
    }
}

#[test]
fn eight_layers_fade_and_spread() {
    let layers = build_layers(&square(), 8);
    assert_eq!(layers.len(), 8);
    for w in layers.windows(2) {
        // shared denominators: numerators compare directly
        assert_eq!(w[0].alpha_den, w[1].alpha_den);
        assert_eq!(w[0].scale_den, w[1].scale_den);
        assert!(w[0].alpha_num >= w[1].alpha_num, "alpha grew");
        assert!(w[0].scale_num <= w[1].scale_num, "scale shrank");
    }
    // exact endpoints: alpha 190 down to 30, scale 1 up to 1.7
    assert_eq!(layers[0].alpha_num, 190 * 7);
    assert_eq!(layers[0].alpha_den, 7);
    assert_eq!(layers[7].alpha_num, 30 * 7);
    assert_eq!(layers[0].scale_num, 70);
    assert_eq!(layers[0].scale_den, 70);
    assert_eq!(layers[7].scale_num, 70 + 49);
}

#[test]
fn alphas_stay_within_clamp_range() {
    let layers = build_layers(&square(), 8);
    for l in &layers {
        assert!(l.alpha_num >= 10 * l.alpha_den);
        assert!(l.alpha_num <= 255 * l.alpha_den);
    }
}

#[test]
fn innermost_layer_is_the_hull_itself() {
    let layers = build_layers(&square(), 8);
    let l0 = &layers[0];
    // scale 1: each vertex equals the original over the larger denominator
    assert_eq!(l0.den, 2 * 4 * 70);
    for (wide, orig) in l0.points.iter().zip(square().points.iter()) {
        // wide / l0.den == orig / 2  <=>  wide == orig * 4 * 70
        assert_eq!(wide.x, orig.x as i128 * 4 * 70);
        assert_eq!(wide.z, orig.z as i128 * 4 * 70);
    }
}

#[test]
fn outermost_layer_scales_from_the_centroid() {
    // centered square: centroid 0, so the outer vertices are the inner ones
    // times 1.7 exactly
    let layers = build_layers(&square(), 8);
    let l7 = &layers[7];
    for (wide, orig) in l7.points.iter().zip(square().points.iter()) {
        // wide / den == 1.7 * orig / 2 == (119 / 70) * orig / 2
        assert_eq!(wide.x * 70, orig.x as i128 * 4 * 70 * 119);
        assert_eq!(wide.z * 70, orig.z as i128 * 4 * 70 * 119);
    }
}

#[test]
fn single_layer_sits_at_t_zero() {
    let layers = build_layers(&square(), 1);
    assert_eq!(layers.len(), 1);
    assert_eq!(layers[0].alpha_num, 190);
    assert_eq!(layers[0].alpha_den, 1);
    assert_eq!(layers[0].scale_num, 10);
    assert_eq!(layers[0].scale_den, 10);
}

#[test]
fn fan_triangulation_wraps_around() {
    let layers = build_layers(&square(), 2);
    let tris = fan_triangles(&layers[0]);
    assert_eq!(tris.len(), 4);
    for (j, t) in tris.iter().enumerate() {
        assert_eq!(t.a, layers[0].center);
        assert_eq!(t.b, layers[0].points[j]);
        assert_eq!(t.c, layers[0].points[(j + 1) % 4]);
    }
}

#[test]
fn degenerate_polygon_draws_no_triangles() {
    let poly = ShadowPolygon { points: vec![Point2 { x: 0, z: 0 }, Point2 { x: 2, z: 2 }], den: 1 };
    let layers = build_layers(&poly, 3);
    assert_eq!(fan_triangles(&layers[0]).len(), 0);
}
