//! Small general-purpose helpers: compact optional integers, counters for
//! statistics, a vector indexed by `u32`, and counted shared values.

pub mod grc;
pub mod gvec;
pub mod others;
pub mod statistic;
