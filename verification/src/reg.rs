//! The regression: training a model and classifying with it.
pub mod accuracy;
pub mod classifier;
pub mod hessian;
pub mod model;
pub mod separation;
pub mod trainer;
pub mod utils;
