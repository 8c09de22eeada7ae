//! A micro-benchmark harness: a phase state machine that drives a routine
//! through warmup and measurement, and reductions of the recorded samples.
pub mod statistics;
pub mod harness;

pub use harness::{Bencher, Summary};
