//! The orbit camera controller: a state machine over yaw, pitch, distance
//! and a look-at target, driven once per frame by pointer motion, scroll and
//! key state.
//!
//! Angles are in microradians, lengths in micro-units (millionths of a world
//! unit). While the rotate button is held, pointer motion turns into yaw and
//! pitch changes, with pitch clamped just short of the poles; while the pan
//! button is held, motion slides the look-at target in the camera's own
//! plane along its right and up directions; scroll rescales the
//! distance by a clamped factor and zoom keys add or subtract a fixed step,
//! after which the distance is clamped to its configured range. Every update
//! is total: out-of-range intermediate values are corrected by the mandatory
//! clamps, and additions that would leave `i64` saturate.

use vstd::prelude::*;
use crate::geom::Vec3Fix;

verus! {

/// One micro-unit scale: a world unit, a radian.
pub const MICRO: i64 = 1_000_000;

/// One milli-unit scale, as used by the caller-supplied trigonometric values.
pub const MILLI: i64 = 1000;

/// The orbit camera's state: spherical coordinates around a look-at target.
#[derive(Clone, Copy, PartialEq, Eq, Structural, Debug)]
pub struct OrbitCamera {
    /// Azimuth around the target, microradians.
    pub yaw: i64,
    /// Elevation, microradians; clamped within the configured range.
    pub pitch: i64,
    /// Distance from the target, micro-units; clamped within range.
    pub distance: i64,
    /// The point the camera looks at, micro-units.
    pub target: Vec3Fix,
    /// Whether a rotate-drag was active in the last update.
    pub rotating: bool,
}

/// The controller's configuration constants.
#[derive(Clone, Copy, PartialEq, Eq, Structural, Debug)]
pub struct OrbitConfig {
    /// Microradians of rotation per pixel of pointer motion.
    pub rotate_sens: i64,
    /// Pan speed factor, thousandths per pixel: the target moves by
    /// `pan_k / 1000` of the (distance-scaled) pan unit per pixel.
    pub pan_k: i64,
    /// Zoom factor per scroll unit, millionths.
    pub zoom_k: i64,
    /// Distance change per frame while a zoom key is held, micro-units.
    pub key_zoom_step: i64,
    /// Lower pitch clamp, microradians.
    pub min_pitch: i64,
    /// Upper pitch clamp, microradians.
    pub max_pitch: i64,
    /// Lower distance clamp, micro-units.
    pub min_distance: i64,
    /// Upper distance clamp, micro-units.
    pub max_distance: i64,
}

/// The input of one frame: pointer motion, scroll and button/key state.
#[derive(Clone, Copy, PartialEq, Eq, Structural, Debug)]
pub struct FrameInput {
    /// Pointer motion in pixels, rightward positive.
    pub dx: i64,
    /// Pointer motion in pixels, downward positive.
    pub dy: i64,
    /// Scroll units this frame, away-from-user positive.
    pub wheel: i64,
    /// The rotate (primary) button is held.
    pub rotate_held: bool,
    /// The pan (secondary) button is held.
    pub pan_held: bool,
    /// The zoom-out key is held.
    pub zoom_out_held: bool,
    /// The zoom-in key is held.
    pub zoom_in_held: bool,
}

impl OrbitConfig {
    /// The configuration bounds that keep every update within `i64`
    /// intermediates; machine limits, far beyond any practical setting.
    pub open spec fn wf(self) -> bool {
        &&& 0 < self.rotate_sens <= 1_000_000
        &&& 0 <= self.pan_k <= 1000
        &&& 0 <= self.zoom_k <= 1_000_000
        &&& 0 <= self.key_zoom_step <= 1_000_000_000_000
        &&& -10_000_000 <= self.min_pitch <= self.max_pitch <= 10_000_000
        &&& 0 < self.min_distance <= self.max_distance <= 1_000_000_000_000
    }
}

impl OrbitCamera {
    /// The camera invariant: pitch and distance are inside the configured
    /// clamp ranges.
    pub open spec fn wf(self, cfg: OrbitConfig) -> bool {
        &&& cfg.min_pitch <= self.pitch <= cfg.max_pitch
        &&& cfg.min_distance <= self.distance <= cfg.max_distance
    }
}

/// The pointer, scroll and trigonometric inputs one update accepts;
/// machine limits against overflow.
pub open spec fn input_ok(inp: FrameInput) -> bool {
    &&& -1_000_000_000 <= inp.dx <= 1_000_000_000
    &&& -1_000_000_000 <= inp.dy <= 1_000_000_000
    &&& -1_000_000_000 <= inp.wheel <= 1_000_000_000
}

/// Clamps `v` into `[lo, hi]`.
pub open spec fn clamp_spec(v: int, lo: int, hi: int) -> int {
    if v < lo {
        lo
    } else if v > hi {
        hi
    } else {
        v
    }
}

/// Saturates `v` into the `i64` range.
pub open spec fn sat64(v: int) -> int {
    clamp_spec(v, i64::MIN as int, i64::MAX as int)
}

/// Division truncating toward zero, as the fixed-point rescalings use it.
pub open spec fn div_trunc(v: int, d: int) -> int
    recommends
        d > 0,
{
    if v >= 0 {
        v / d
    } else {
        -((-v) / d)
    }
}

/// Larger of two values.
pub open spec fn max_spec(a: int, b: int) -> int {
    if a >= b {
        a
    } else {
        b
    }
}

/// The rotate branch: pointer motion turns the camera; yaw is free, pitch
/// is clamped short of the poles.
pub open spec fn rotated(cam: OrbitCamera, inp: FrameInput, cfg: OrbitConfig) -> OrbitCamera {
    OrbitCamera {
        yaw: sat64(cam.yaw - inp.dx * cfg.rotate_sens) as i64,
        pitch: clamp_spec(
            cam.pitch - inp.dy * cfg.rotate_sens,
            cfg.min_pitch as int,
            cfg.max_pitch as int,
        ) as i64,
        ..cam
    }
}

/// Pan speed in micro-units per pixel: `pan_k / 1000` of the distance,
/// never less than of one world unit.
pub open spec fn pan_per_px(cam: OrbitCamera, cfg: OrbitConfig) -> int {
    div_trunc(cfg.pan_k * max_spec(cam.distance as int, MICRO as int), MILLI as int)
}

/// The pan branch: the target slides in the camera's own plane. With
/// `forward` the unit vector from the camera toward the target,
/// `right = normalize(cross(forward, world_up))` comes to
/// `(sin yaw, 0, -cos yaw)` and `up = cross(right, forward)` to
/// `(-sin pitch cos yaw, cos pitch, -sin pitch sin yaw)`; the target moves
/// by `-right * dx * pan + up * dy * pan`, so a vertical drag raises or
/// lowers the target whenever the camera is pitched. The sines and cosines
/// of yaw and pitch arrive in milli-units; each component is computed over
/// the common denominator of one million, truncating toward zero.
pub open spec fn panned(
    cam: OrbitCamera,
    inp: FrameInput,
    cfg: OrbitConfig,
    sy: i64,
    cy: i64,
    sp: i64,
    cp: i64,
) -> OrbitCamera {
    let pan = pan_per_px(cam, cfg);
    let mx = div_trunc((-(sy * MILLI) * inp.dx - (sp * cy) * inp.dy) * pan, MICRO as int);
    let my = div_trunc((cp * MILLI) * inp.dy * pan, MICRO as int);
    let mz = div_trunc(((cy * MILLI) * inp.dx - (sp * sy) * inp.dy) * pan, MICRO as int);
    OrbitCamera {
        target: Vec3Fix {
            x: sat64(cam.target.x + mx) as i64,
            y: sat64(cam.target.y + my) as i64,
            z: sat64(cam.target.z + mz) as i64,
        },
        ..cam
    }
}

/// The zoom step: scroll rescales the distance by the clamped factor
/// `1 - wheel * zoom_k` (millionths), zoom keys add or subtract a fixed
/// step, and the result is clamped to the configured range.
pub open spec fn zoomed(cam: OrbitCamera, inp: FrameInput, cfg: OrbitConfig) -> OrbitCamera {
    let fac = clamp_spec(MICRO as int - inp.wheel * cfg.zoom_k, 500_000, 1_500_000);
    let d1 = div_trunc(cam.distance * fac, MICRO as int);
    let d2 = d1 + (if inp.zoom_out_held {
        cfg.key_zoom_step as int
    } else {
        0int
    }) - (if inp.zoom_in_held {
        cfg.key_zoom_step as int
    } else {
        0int
    });
    OrbitCamera {
        distance: clamp_spec(d2, cfg.min_distance as int, cfg.max_distance as int) as i64,
        ..cam
    }
}

/// One whole frame update: record whether a rotate-drag is active, apply
/// rotation or panning (rotate wins, as the original drag logic has it),
/// then zoom.
pub open spec fn camera_step(
    cam: OrbitCamera,
    inp: FrameInput,
    cfg: OrbitConfig,
    sy: i64,
    cy: i64,
    sp: i64,
    cp: i64,
) -> OrbitCamera {
    let c0 = OrbitCamera { rotating: inp.rotate_held, ..cam };
    let c1 = if inp.rotate_held {
        rotated(c0, inp, cfg)
    } else if inp.pan_held {
        panned(c0, inp, cfg, sy, cy, sp, cp)
    } else {
        c0
    };
    zoomed(c1, inp, cfg)
}

/// A whole session: folds `camera_step` over a sequence of frame inputs,
/// each with the trigonometric values the caller supplied that frame.
pub open spec fn run_steps(
    cam: OrbitCamera,
    steps: Seq<(FrameInput, i64, i64, i64, i64)>,
    cfg: OrbitConfig,
) -> OrbitCamera
    decreases steps.len(),
{
    if steps.len() == 0 {
        cam
    } else {
        run_steps(
            camera_step(cam, steps[0].0, cfg, steps[0].1, steps[0].2, steps[0].3, steps[0].4),
            steps.drop_first(),
            cfg,
        )
    }
}

/// One update keeps the camera invariant: pitch and distance stay clamped.
pub proof fn lemma_camera_step_wf(
    cam: OrbitCamera,
    inp: FrameInput,
    cfg: OrbitConfig,
    sy: i64,
    cy: i64,
    sp: i64,
    cp: i64,
)
    requires
        cfg.wf(),
        cam.wf(cfg),
    ensures
        camera_step(cam, inp, cfg, sy, cy, sp, cp).wf(cfg),
{
}

/// Law: after any sequence of updates from a well-formed state, pitch and
/// distance are still within their configured clamp ranges.
pub proof fn lemma_camera_bounds(
    cam: OrbitCamera,
    steps: Seq<(FrameInput, i64, i64, i64, i64)>,
    cfg: OrbitConfig,
)
    requires
        cfg.wf(),
        cam.wf(cfg),
    ensures
        run_steps(cam, steps, cfg).wf(cfg),
    decreases steps.len(),
{
    if steps.len() > 0 {
        lemma_camera_step_wf(cam, steps[0].0, cfg, steps[0].1, steps[0].2, steps[0].3, steps[0].4);
        lemma_camera_bounds(
            camera_step(cam, steps[0].0, cfg, steps[0].1, steps[0].2, steps[0].3, steps[0].4),
            steps.drop_first(),
            cfg,
        );
    }
}


/// Saturates a wide intermediate into `i64`.
fn sat64_exec(v: i128) -> (r: i64)
    ensures
        r as int == sat64(v as int),
{
    if v < i64::MIN as i128 {
        i64::MIN
    } else if v > i64::MAX as i128 {
        i64::MAX
    } else {
        v as i64
    }
}

/// Clamps a wide intermediate into `[lo, hi]`.
fn clamp_exec(v: i128, lo: i64, hi: i64) -> (r: i64)
    requires
        lo <= hi,
    ensures
        r as int == clamp_spec(v as int, lo as int, hi as int),
{
    if v < lo as i128 {
        lo
    } else if v > hi as i128 {
        hi
    } else {
        v as i64
    }
}

/// Division truncating toward zero, on wide intermediates.
fn div_trunc_exec(v: i128, d: i128) -> (r: i128)
    requires
        0 < d,
        -0x4000_0000_0000_0000_0000_0000_0000_0000i128 <= v
            <= 0x4000_0000_0000_0000_0000_0000_0000_0000i128,
    ensures
        r == div_trunc(v as int, d as int),
        v >= 0 ==> 0 <= r <= v,
        v < 0 ==> v <= r <= 0,
{
    proof {
        if v >= 0 {
            vstd::arithmetic::div_mod::lemma_div_pos_is_pos(v as int, d as int);
            vstd::arithmetic::div_mod::lemma_div_is_ordered_by_denominator(v as int, 1, d as int);
            vstd::arithmetic::div_mod::lemma_div_basics(v as int);
        } else {
            vstd::arithmetic::div_mod::lemma_div_pos_is_pos(-(v as int), d as int);
            vstd::arithmetic::div_mod::lemma_div_is_ordered_by_denominator(-(v as int), 1, d as int);
            vstd::arithmetic::div_mod::lemma_div_basics(-(v as int));
        }
    }
    if v >= 0 {
        ((v as u128) / (d as u128)) as i128
    } else {
        let q = ((-v) as u128) / (d as u128);
        -(q as i128)
    }
}

/// Applies one frame of input to the camera, exactly as `camera_step`
/// describes: record the drag state, rotate or pan, then zoom and clamp.
/// The sines and cosines of the current yaw and pitch arrive in milli-units,
/// supplied by the caller and used only for panning.
pub fn update_camera(
    cam: &mut OrbitCamera,
    inp: &FrameInput,
    cfg: &OrbitConfig,
    yaw_sin_milli: i64,
    yaw_cos_milli: i64,
    pitch_sin_milli: i64,
    pitch_cos_milli: i64,
)
    requires
        cfg.wf(),
        old(cam).wf(*cfg),
        input_ok(*inp),
        -MILLI <= yaw_sin_milli <= MILLI,
        -MILLI <= yaw_cos_milli <= MILLI,
        -MILLI <= pitch_sin_milli <= MILLI,
        -MILLI <= pitch_cos_milli <= MILLI,
    ensures
        *final(cam) == camera_step(
            *old(cam),
            *inp,
            *cfg,
            yaw_sin_milli,
            yaw_cos_milli,
            pitch_sin_milli,
            pitch_cos_milli,
        ),
        final(cam).wf(*cfg),
{
    proof {
        lemma_camera_step_wf(
            *old(cam),
            *inp,
            *cfg,
            yaw_sin_milli,
            yaw_cos_milli,
            pitch_sin_milli,
            pitch_cos_milli,
        );
    }
    cam.rotating = inp.rotate_held;
    if inp.rotate_held {
        proof {
            crate::geom::lemma_mul_bound(
                inp.dx as int,
                cfg.rotate_sens as int,
                1_000_000_000,
                1_000_000,
            );
            crate::geom::lemma_mul_bound(
                inp.dy as int,
                cfg.rotate_sens as int,
                1_000_000_000,
                1_000_000,
            );
        }
        let dyaw: i128 = inp.dx as i128 * cfg.rotate_sens as i128;
        cam.yaw = sat64_exec(cam.yaw as i128 - dyaw);
        let dpitch: i128 = inp.dy as i128 * cfg.rotate_sens as i128;
        cam.pitch = clamp_exec(cam.pitch as i128 - dpitch, cfg.min_pitch, cfg.max_pitch);
    } else if inp.pan_held {
        let base: i64 = if cam.distance >= MICRO {
            cam.distance
        } else {
            MICRO
        };
        proof {
            crate::geom::lemma_mul_bound(cfg.pan_k as int, base as int, 1000, 1_000_000_000_000);
        }
        let pan: i128 = div_trunc_exec(cfg.pan_k as i128 * base as i128, 1000);
        let sy: i128 = yaw_sin_milli as i128;
        let cy: i128 = yaw_cos_milli as i128;
        let sp: i128 = pitch_sin_milli as i128;
        let cp: i128 = pitch_cos_milli as i128;
        proof {
            crate::geom::lemma_mul_bound(-(sy as int * 1000), inp.dx as int, 1_000_000, 1_000_000_000);
            crate::geom::lemma_mul_bound(sp as int, cy as int, 1000, 1000);
            crate::geom::lemma_mul_bound(sp as int, sy as int, 1000, 1000);
            crate::geom::lemma_mul_bound(sp as int * cy as int, inp.dy as int, 1_000_000, 1_000_000_000);
            crate::geom::lemma_mul_bound(sp as int * sy as int, inp.dy as int, 1_000_000, 1_000_000_000);
            crate::geom::lemma_mul_bound(cp as int * 1000, inp.dy as int, 1_000_000, 1_000_000_000);
            crate::geom::lemma_mul_bound(cy as int * 1000, inp.dx as int, 1_000_000, 1_000_000_000);
            crate::geom::lemma_mul_bound(
                -(sy as int * 1000) * inp.dx as int - (sp as int * cy as int) * inp.dy as int,
                pan as int,
                2_000_000_000_000_000,
                1_000_000_000_000_000,
            );
            crate::geom::lemma_mul_bound(
                (cp as int * 1000) * inp.dy as int,
                pan as int,
                1_000_000_000_000_000,
                1_000_000_000_000_000,
            );
            crate::geom::lemma_mul_bound(
                (cy as int * 1000) * inp.dx as int - (sp as int * sy as int) * inp.dy as int,
                pan as int,
                2_000_000_000_000_000,
                1_000_000_000_000_000,
            );
        }
        let numx: i128 = (-(sy * 1000) * inp.dx as i128 - (sp * cy) * inp.dy as i128) * pan;
        let numy: i128 = (cp * 1000) * inp.dy as i128 * pan;
        let numz: i128 = ((cy * 1000) * inp.dx as i128 - (sp * sy) * inp.dy as i128) * pan;
        let mx = div_trunc_exec(numx, 1_000_000);
        let my = div_trunc_exec(numy, 1_000_000);
        let mz = div_trunc_exec(numz, 1_000_000);
        let tx = sat64_exec(cam.target.x as i128 + mx);
        let ty = sat64_exec(cam.target.y as i128 + my);
        let tz = sat64_exec(cam.target.z as i128 + mz);
        cam.target = Vec3Fix { x: tx, y: ty, z: tz };
    }
    proof {
        crate::geom::lemma_mul_bound(inp.wheel as int, cfg.zoom_k as int, 1_000_000_000, 1_000_000);
    }
    let facr: i128 = MICRO as i128 - inp.wheel as i128 * cfg.zoom_k as i128;
    let fac: i128 = if facr < 500_000 {
        500_000
    } else if facr > 1_500_000 {
        1_500_000
    } else {
        facr
    };
    proof {
        crate::geom::lemma_mul_bound(cam.distance as int, fac as int, 1_000_000_000_000, 1_500_000);
    }
    let d1: i128 = div_trunc_exec(cam.distance as i128 * fac, 1_000_000);
    let up: i128 = if inp.zoom_out_held {
        cfg.key_zoom_step as i128
    } else {
        0
    };
    let down: i128 = if inp.zoom_in_held {
        cfg.key_zoom_step as i128
    } else {
        0
    };
    cam.distance = clamp_exec(d1 + up - down, cfg.min_distance, cfg.max_distance);
}

/// Derives the camera's position from its state, as a pure function: the
/// spherical offset `(d cos(pitch) cos(yaw), d sin(pitch), d cos(pitch)
/// sin(yaw))` added to the target. The trigonometric values of yaw and
/// pitch are supplied by the caller in milli-units.
pub fn camera_position(
    cam: &OrbitCamera,
    yaw_sin_milli: i64,
    yaw_cos_milli: i64,
    pitch_sin_milli: i64,
    pitch_cos_milli: i64,
) -> (r: Vec3Fix)
    requires
        0 <= cam.distance <= 1_000_000_000_000,
        -MILLI <= yaw_sin_milli <= MILLI,
        -MILLI <= yaw_cos_milli <= MILLI,
        -MILLI <= pitch_sin_milli <= MILLI,
        -MILLI <= pitch_cos_milli <= MILLI,
    ensures
        r.x as int == sat64(
            cam.target.x + div_trunc(
                cam.distance as int * pitch_cos_milli as int * yaw_cos_milli as int,
                1_000_000,
            ),
        ),
        r.y as int == sat64(
            cam.target.y + div_trunc(cam.distance as int * pitch_sin_milli as int, 1000),
        ),
        r.z as int == sat64(
            cam.target.z + div_trunc(
                cam.distance as int * pitch_cos_milli as int * yaw_sin_milli as int,
                1_000_000,
            ),
        ),
{
    proof {
        crate::geom::lemma_mul_bound(
            cam.distance as int,
            pitch_cos_milli as int,
            1_000_000_000_000,
            1000,
        );
        crate::geom::lemma_mul_bound(
            cam.distance as int * pitch_cos_milli as int,
            yaw_cos_milli as int,
            1_000_000_000_000_000,
            1000,
        );
        crate::geom::lemma_mul_bound(
            cam.distance as int * pitch_cos_milli as int,
            yaw_sin_milli as int,
            1_000_000_000_000_000,
            1000,
        );
        crate::geom::lemma_mul_bound(
            cam.distance as int,
            pitch_sin_milli as int,
            1_000_000_000_000,
            1000,
        );
    }
    let dc: i128 = cam.distance as i128 * pitch_cos_milli as i128;
    let ox = div_trunc_exec(dc * yaw_cos_milli as i128, 1_000_000);
    let oy = div_trunc_exec(cam.distance as i128 * pitch_sin_milli as i128, 1000);
    let oz = div_trunc_exec(dc * yaw_sin_milli as i128, 1_000_000);
    Vec3Fix {
        x: sat64_exec(cam.target.x as i128 + ox),
        y: sat64_exec(cam.target.y as i128 + oy),
        z: sat64_exec(cam.target.z as i128 + oz),
    }
}

/// The default controller configuration: rotate sensitivity 0.005 rad per
/// pixel, pan factor 0.002, zoom factor 0.06 per scroll unit, key zoom step
/// of half a unit, pitch clamped to `[-1.5, 1.4]` radians and distance to
/// `[1, 500]` units.
pub fn default_config() -> (c: OrbitConfig)
    ensures
        c == (OrbitConfig {
            rotate_sens: 5000i64,
            pan_k: 2i64,
            zoom_k: 60_000i64,
            key_zoom_step: 500_000i64,
            min_pitch: -1_500_000i64,
            max_pitch: 1_400_000i64,
            min_distance: 1_000_000i64,
            max_distance: 500_000_000i64,
        }),
        c.wf(),
{
    OrbitConfig {
        rotate_sens: 5000,
        pan_k: 2,
        zoom_k: 60_000,
        key_zoom_step: 500_000,
        min_pitch: -1_500_000,
        max_pitch: 1_400_000,
        min_distance: 1_000_000,
        max_distance: 500_000_000,
    }
}

/// The camera's starting state: yaw -45 degrees, pitch -25 degrees, twenty
/// units back, looking at half a unit above the origin.
pub fn initial_camera() -> (c: OrbitCamera)
    ensures
        c == (OrbitCamera {
            yaw: -785_398i64,
            pitch: -436_332i64,
            distance: 20_000_000i64,
            target: Vec3Fix { x: 0i64, y: 500_000i64, z: 0i64 },
            rotating: false,
        }),
{
    OrbitCamera {
        yaw: -785_398,
        pitch: -436_332,
        distance: 20_000_000,
        target: Vec3Fix { x: 0, y: 500_000, z: 0 },
        rotating: false,
    }
}

} // verus!
