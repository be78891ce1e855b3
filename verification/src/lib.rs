//! Driven, damped pendulum: fixed-step integration of the equation of motion
//! and stroboscopic (Poincare) sampling of the phase-space trajectory.
//!
//! All quantities are fixed-point numbers: an `i64` holding the value scaled
//! by `fixed::SCALE` ticks per unit (radians, seconds, and so on), so every
//! arithmetic step has an exact integer meaning that the contracts state.

pub mod fixed;
pub mod model;
pub mod solve_equation;
pub mod trig;
