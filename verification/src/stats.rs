//! The sorted samples of a distribution and its order statistics.

pub mod quantile;
pub mod samples;
pub mod summary;

pub use quantile::{is_inner_level, quantile_of, quantile_scaled, Quantile};
pub use samples::{
    all_finite, all_positive, check_samples, finite_samples, is_maximum, is_minimum, sort, sorted,
};
pub use summary::Stats;
