//! Monte Carlo simulation of the two-dimensional random-bond Ising model.
//!
//! The library holds the integer side of the simulation: spin configurations,
//! bond disorder, Metropolis dynamics driven by a precomputed acceptance table,
//! exact sample moments, and the text formats of run parameters.
pub mod rng;
pub mod lattice;
pub mod params;
pub mod energy_laws;
pub mod sampling;
pub mod text;
pub mod summary;
pub mod summary_laws;
pub mod progress;
