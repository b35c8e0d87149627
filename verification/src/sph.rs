//! The neighbour search of a smoothed-particle solver.
//!
//! Particles are binned by the grid cell they lie in, so that the candidates
//! for the neighbours of a particle are found in the cells around its own
//! cell instead of among all particles.

pub mod cell_lists;
pub mod particle_list;

pub use cell_lists::CellLists;
pub use particle_list::ParticleList;
