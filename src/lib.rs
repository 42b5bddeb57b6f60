//! Metropolis Monte Carlo sampling of Ising spin lattices: acceptance
//! bookkeeping and the integer core of lattice energies.

pub mod geometry;
pub mod lattice;
pub mod sample_counter;
