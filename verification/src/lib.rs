//! A HyperLogLog cardinality estimator.
//!
//! An estimator keeps `2^precision` small registers. Each item is hashed to
//! 128 bits; the top `precision` bits select a register, and the register
//! keeps the largest rank seen, the rank being the number of leading zero
//! bits of the remaining field plus one. From the registers the number of
//! distinct items is estimated, by linear counting while the raw estimate is
//! small and registers are still empty, by the harmonic mean otherwise.
//!
//! The register updates, their laws and the choice between the two
//! estimators are verified. The estimate is handed out in whole numbers,
//! as an [`Estimate`]; turning it into a real number is left to the caller.

pub mod bits;
pub mod digest;
pub mod estimate;
pub mod estimator;
pub mod registers;
pub mod text;

pub use crate::estimate::Estimate;
pub use crate::estimator::{ConfigError, HyperLogLog};
