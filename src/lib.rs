//! Core pieces of a benchmarking library: readable iteration counts and the
//! kernel abstraction used by density estimation.

pub mod format;
pub mod kernel;
