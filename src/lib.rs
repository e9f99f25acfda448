//! Randomised mental-arithmetic drills for oral dictation: a sequence of
//! signed terms with bounded digit-lengths, an exact number of subtractions
//! and, on request, a running total that never goes below zero.

pub mod config;
pub mod digits;
pub mod generate;
pub mod problem;
pub mod rounds;
pub mod sums;
pub mod text;
mod random;

pub use config::{Config, YomiageConfig};
pub use generate::{exclude_negative, generate};
pub use problem::{Problem, YomiageProblem};

