//! Agglomeration core of a rolling-ball game: a single growing aggregate
//! (the "klod") absorbs freestanding physics objects, accumulates their
//! mass, and can be shattered back into independent fragments.
//!
//! All physical quantities are fixed-point integers in thousandths of a
//! unit (masses in thousandths of a mass unit, lengths and velocities in
//! thousandths of a length unit). Conditions that a floating-point engine
//! would state with square roots are stated here over squared magnitudes,
//! which is exact because both sides are non-negative.
//!
//! The host engine (rendering, physics stepping, audio, input) is an
//! external collaborator: it delivers contact events and consumes the
//! state transitions computed here. Nothing in this crate performs I/O.

pub mod geom;
pub mod klod;
pub mod powers;
pub mod state;
pub mod world;

use vstd::prelude::*;

verus! {

/// Mass of the aggregate at spawn and after a shatter, in thousandths.
pub const BASELINE_MASS: i64 = 4200;

/// Top speed of the aggregate, in thousandths of a length unit per second.
pub const MAX_KLOD_SPEED: i64 = 28_000;

/// One whole unit, in thousandths.
pub const SCALE: i64 = 1000;

/// Largest magnitude accepted for any stored coordinate, velocity
/// component, mass or weight. Keeps every product the gates compute
/// inside `i128`.
pub const MAGNITUDE_LIMIT: i64 = 1_000_000_000;

} // verus!
