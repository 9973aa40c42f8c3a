//! A whale-optimization engine over a bounded search space, with the job-shop
//! instances and the makespan objective it is exercised on.
//!
//! The engine never does arithmetic on real numbers: it orders, compares, clips
//! and records them. A number is therefore held as a [`scalar::Scalar`], the bit
//! pattern of a binary64 value. The random source and the vector arithmetic
//! belong to the driver: it draws the first population, and [`woa::WOA::run`]
//! asks it for the draws of each whale and for the position in which each move
//! ends.

pub mod scalar;
pub mod error;
pub mod whale;
pub mod population;
pub mod woa;
pub mod laws;
pub mod vectors;
pub mod jssp_instance;
