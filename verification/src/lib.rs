//! Grid and array primitives for particle-based fluid simulation.
//!
//! Everything here works on integer coordinates: boxes of indices, their
//! row-major enumeration, dense arrays addressed by such boxes, and the cell
//! lists that a smoothed-particle solver uses to find neighbours.

pub mod math;
pub mod base;
pub mod sph;
