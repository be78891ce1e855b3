//! The parameter record of a simulation run.
//!
//! All fields are fixed-point ticks (`fixed::SCALE` per unit).  The record is
//! built once and read by the core; nothing mutates it during a run.

use vstd::prelude::*;

verus! {

/// Physical and integration parameters of the driven, damped pendulum.
///
/// Equation of motion fields: gravitational acceleration `g`, pendulum
/// length `l`, damping coefficient `q`, drive amplitude `f_d`, drive angular
/// frequency `omega_d`.  Integration fields: time step `dt` and total time
/// `t_end`.  The remaining fields describe a sweep over initial conditions;
/// they are carried in the configuration but not read by the core.
#[derive(Clone, Copy, Debug, PartialEq, Eq, Structural)]
pub struct PendulumParams {
    pub g: i64,
    pub l: i64,
    pub q: i64,
    pub f_d: i64,
    pub omega_d: i64,
    pub dt: i64,
    pub t_end: i64,
    pub theta_start: i64,
    pub theta_end: i64,
    pub d_theta: i64,
    pub omega_start: i64,
    pub omega_end: i64,
    pub d_omega: i64,
}

impl PendulumParams {
    /// The default configuration, in ticks: g = 9.8, l = 1, q = 0.1,
    /// f_d = 1, omega_d = 1, dt = 0.001, t_end = 10, and a sweep from -4 to 4
    /// in steps of 0.01 for both initial angle and initial velocity.
    pub fn new() -> (p: PendulumParams)
        ensures
            p.g == 42090679501i64,
            p.l == 4294967296i64,
            p.q == 429496730i64,
            p.f_d == 4294967296i64,
            p.omega_d == 4294967296i64,
            p.dt == 4294967i64,
            p.t_end == 42949672960i64,
            p.theta_start == -17179869184i64,
            p.theta_end == 17179869184i64,
            p.d_theta == 42949673i64,
            p.omega_start == -17179869184i64,
            p.omega_end == 17179869184i64,
            p.d_omega == 42949673i64,
    {
        PendulumParams {
            g: 42090679501,
            l: 4294967296,
            q: 429496730,
            f_d: 4294967296,
            omega_d: 4294967296,
            dt: 4294967,
            t_end: 42949672960,
            theta_start: -17179869184,
            theta_end: 17179869184,
            d_theta: 42949673,
            omega_start: -17179869184,
            omega_end: 17179869184,
            d_omega: 42949673,
        }
    }
}

} // verus!
