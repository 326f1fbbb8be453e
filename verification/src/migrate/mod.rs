//! Whether a suite can run in parallel, and what stands in the way.

pub mod outcomes;
pub mod classify;
pub mod bisect;
pub mod audit;
pub mod try_cmd;
pub mod check;
