//! Monte Carlo simulation kernel for the classical 2D XY spin model on a
//! periodic square lattice, with five interchangeable update algorithms:
//! local Metropolis, overrelaxation, Metropolis reflection, Wolff single
//! cluster and Swendsen-Wang multi cluster.
//!
//! Spin angles are stored as binary angular measure: a `u32` tick count where
//! a full turn (2*pi) is 2^32 ticks, so every representable value is a valid
//! angle in [0, 2*pi) and modular angle arithmetic is exact. All derived
//! quantities (cosines, energies, magnetization) are Q30 fixed-point
//! integers, so the observable bookkeeping is exact integer arithmetic, and
//! the engine's cached observables provably equal a full recomputation from
//! the lattice at all times.
//!
//! - [`fxp`] is the fixed-point numeric kernel (trigonometry, exponential,
//!   square root), each function pinned to a spec-level mirror of its own
//!   computation.
//! - [`grid`] is the periodic-lattice geometry and the observable sums, with
//!   the exact single-site update lemmas.
//! - [`rng`] is the trusted boundary to the `rand` crate.
//! - [`engine`] is the simulation engine itself.

pub mod engine;
pub mod fxp;
pub mod grid;
pub mod rng;
