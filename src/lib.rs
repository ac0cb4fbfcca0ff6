//! Ambient-loudness driven volume control.
//!
//! Audio samples are held as fixed-point integers (millionths of full scale)
//! and volume levels as millionths of full volume, so that the loudness
//! estimate and the smoothing controller are exact integer computations.
pub mod analyzer;
pub mod arith;
pub mod controller;
pub mod pipeline;
