//! Projected-shadow renderer core with an orbit camera controller.
//!
//! The library computes, in exact fixed-point arithmetic, the ground-plane
//! shadow silhouette of an axis-aligned cuboid lit by a directional light:
//! the cuboid's corners are projected along the light direction onto the
//! receiver plane, their 2D convex hull is taken (monotone chain), and a set
//! of concentric scaled copies of the hull approximates a soft penumbra.
//! A small state machine drives a spherical orbit camera (yaw, pitch,
//! distance, look-at target) from per-frame pointer, scroll and key input.
//!
//! All coordinates are integers in a caller-chosen fixed-point scale; every
//! division the geometry would need is kept symbolic as a numerator /
//! denominator pair, so results are exact and every function is total.

use vstd::prelude::*;

pub mod camera;
pub mod geom;
pub mod hull;
pub mod penumbra;
pub mod scene;
pub mod shadow;

verus! {

/// Largest coordinate magnitude the geometry accepts; keeps every cross
/// product within `i128`.
pub const COORD_LIMIT: i64 = 0x2000_0000_0000_0000;

} // verus!
