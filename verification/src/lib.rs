//! Summaries of numeric distributions.
//!
//! The library reads samples from a stream of text, sorts them, answers
//! quantile queries and finds the samples that count for a kernel density
//! estimate at a point.
//!
//! It does everything that can be done without rounding. A sample is a
//! `double::Double`, the bits of a double-precision value: the library
//! compares such values, sorts them and picks among them, and it states
//! exactly which samples an answer is made of. Sums, means, roots and kernel
//! values are rounded arithmetic and are left to the caller, who turns a
//! `Double` into a native value with `to_bits` and `from_bits`.
//!
//! - `parsing` reads the lines of a stream and finds the literal on each.
//! - `stats` sorts the samples and answers quantile queries.
//! - `kde` finds the window of samples around a point and the range worth
//!   plotting.
//! - `units` and `formatting` hold the units of the input and pick the unit
//!   in which a value is shown.

pub mod double;
pub mod formatting;
pub mod kde;
pub mod parsing;
pub mod stats;
pub mod units;
