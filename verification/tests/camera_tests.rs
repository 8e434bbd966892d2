use orbit_shadow::camera::{
    default_config, initial_camera, update_camera, camera_position, FrameInput, OrbitCamera,
};
use orbit_shadow::geom::Vec3Fix;

fn still() -> FrameInput {
    FrameInput {
        dx: 0,
        dy: 0,
        wheel: 0,
        rotate_held: false,
        pan_held: false,
        zoom_out_held: false,
        zoom_in_held: false,
    }
}

#[test]
fn rotate_drag_turns_yaw_only() {
    // yaw -45 deg, pitch -25 deg, distance 20; pointer delta (100, 0) with
    // the rotate button held and sensitivity 0.005 turns yaw by -0.5 rad
    let cfg = default_config();
    let mut cam = initial_camera();
    let inp = FrameInput { dx: 100, rotate_held: true, ..still() };
    update_camera(&mut cam, &inp, &cfg, 0, 1000, 0, 1000);
    assert_eq!(cam.yaw, -785_398 - 500_000);
    assert_eq!(cam.pitch, -436_332);
    assert_eq!(cam.distance, 20_000_000);
    assert!(cam.rotating);
}

#[test]
fn scroll_halves_the_distance_once() {
    // wheel 10 with zoom factor 0.06 gives clamp(1 - 0.6, 0.5, 1.5) = 0.5
    let cfg = default_config();
    let mut cam = initial_camera();
    let inp = FrameInput { wheel: 10, ..still() };
    update_camera(&mut cam, &inp, &cfg, 0, 1000, 0, 1000);
    assert_eq!(cam.distance, 10_000_000);
}

#[test]
fn pitch_clamps_at_the_poles() {
    let cfg = default_config();
    let mut cam = initial_camera();
    let inp = FrameInput { dy: -1_000_000, rotate_held: true, ..still() };
    update_camera(&mut cam, &inp, &cfg, 0, 1000, 0, 1000);
    assert_eq!(cam.pitch, cfg.max_pitch);
    let inp2 = FrameInput { dy: 1_000_000, rotate_held: true, ..still() };
    update_camera(&mut cam, &inp2, &cfg, 0, 1000, 0, 1000);
    assert_eq!(cam.pitch, cfg.min_pitch);
}

#[test]
fn distance_stays_clamped_over_any_session() {
    let cfg = default_config();
    let mut cam = initial_camera();
    let inputs = [
        FrameInput { wheel: 10, ..still() },
        FrameInput { wheel: 10, zoom_in_held: true, ..still() },
        FrameInput { wheel: -10, zoom_out_held: true, ..still() },
        FrameInput { dx: -300, dy: 77, rotate_held: true, ..still() },
        FrameInput { wheel: 10, ..still() },
        FrameInput { wheel: 10, ..still() },
        FrameInput { wheel: 10, ..still() },
        FrameInput { wheel: 10, ..still() },
        FrameInput { dx: 40, dy: -5, pan_held: true, ..still() },
        FrameInput { wheel: -10, ..still() },
    ];
    for inp in &inputs {
        update_camera(&mut cam, inp, &cfg, 707, 707, -423, 906);
        assert!(cfg.min_pitch <= cam.pitch && cam.pitch <= cfg.max_pitch);
        assert!(cfg.min_distance <= cam.distance && cam.distance <= cfg.max_distance);
    }
}

#[test]
fn key_zoom_steps_distance() {
    let cfg = default_config();
    let mut cam = initial_camera();
    let inp = FrameInput { zoom_out_held: true, ..still() };
    update_camera(&mut cam, &inp, &cfg, 0, 1000, 0, 1000);
    assert_eq!(cam.distance, 20_500_000);
    let inp2 = FrameInput { zoom_in_held: true, ..still() };
    update_camera(&mut cam, &inp2, &cfg, 0, 1000, 0, 1000);
    update_camera(&mut cam, &inp2, &cfg, 0, 1000, 0, 1000);
    assert_eq!(cam.distance, 19_500_000);
}

#[test]
fn pan_slides_the_target_in_the_camera_plane() {
    // yaw 0, pitch 0: right is (0, 0, -1) and up is (0, 1, 0); a rightward
    // drag moves the target toward +z, an upward drag raises it
    let cfg = default_config();
    let mut cam = OrbitCamera { target: Vec3Fix { x: 0, y: 0, z: 0 }, ..initial_camera() };
    let inp = FrameInput { dx: 100, dy: 0, pan_held: true, ..still() };
    update_camera(&mut cam, &inp, &cfg, 0, 1000, 0, 1000);
    // pan speed: 0.002 * 20 units = 40000 micro per pixel
    assert_eq!(cam.target.z, 100 * 40_000);
    assert_eq!(cam.target.x, 0);
    assert_eq!(cam.target.y, 0);
    let inp2 = FrameInput { dx: 0, dy: 50, pan_held: true, ..still() };
    update_camera(&mut cam, &inp2, &cfg, 0, 1000, 0, 1000);
    assert_eq!(cam.target.y, 50 * 40_000);
    assert_eq!(cam.target.x, 0);
}

#[test]
fn pan_follows_the_pitched_camera_plane() {
    // yaw 0, pitch tilted (sin -0.5, cos 0.866 in milli-units): the up
    // direction is (0.5, 0.866, 0), so a vertical drag moves x and y
    let cfg = default_config();
    let mut cam = OrbitCamera { target: Vec3Fix { x: 0, y: 0, z: 0 }, ..initial_camera() };
    let inp = FrameInput { dx: 0, dy: 10, pan_held: true, ..still() };
    update_camera(&mut cam, &inp, &cfg, 0, 1000, -500, 866);
    // pan 40000 micro per pixel; x: 500*1000*10*40000 / 1e6, y: 866*1000*10*40000 / 1e6
    assert_eq!(cam.target.x, 200_000);
    assert_eq!(cam.target.y, 346_400);
    assert_eq!(cam.target.z, 0);
}

#[test]
fn position_derives_from_state() {
    let cam = OrbitCamera {
        yaw: 0,
        pitch: 0,
        distance: 20_000_000,
        target: Vec3Fix { x: 1_000_000, y: 500_000, z: -2_000_000 },
        rotating: false,
    };
    // yaw 0, pitch 0: offset is (distance, 0, 0)
    let pos = camera_position(&cam, 0, 1000, 0, 1000);
    assert_eq!(pos.x, 1_000_000 + 20_000_000);
    assert_eq!(pos.y, 500_000);
    assert_eq!(pos.z, -2_000_000);
}
