//! A real-time two-dimensional incompressible-fluid solver on a fixed square
//! grid: operator-split integration with implicit diffusion, divergence-free
//! projection, and semi-Lagrangian self-advection, over fixed-point scalars.
//!
//! Every field value is a signed 64-bit count of `1/ONE` ticks, so each
//! operator has one exact mathematical outcome, stated in its contract.

pub mod fixed;
pub mod grid;
pub mod boundary;
pub mod solver;
pub mod advect;
pub mod fluid;
pub mod laws;

pub use fixed::{HALF, ONE};
pub use grid::Array2DF;
pub use boundary::{BoundaryKind, set_bnd};
pub use solver::{diffuse, lin_solve, project};
pub use advect::advect;
pub use fluid::Fluid2D;
