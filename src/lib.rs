//! Variance-based (Sobol) sensitivity indices by pick-and-freeze Monte Carlo
//! sampling: first-order, second-order and total-effect indices of a scalar
//! model over a set of named parameters, each fixed or drawn from a range.
//!
//! The library is generic over the scalar arithmetic (`model::Scalar`), the
//! uniform random source (`model::UnitSource`) and the model itself
//! (`model::Model`).

pub mod model;
pub mod pairs;
pub mod params;
pub mod sobol;
