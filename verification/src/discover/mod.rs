//! Finding an interpreter to run tests with.

pub mod request;
pub mod resolve;
pub mod candidates;
pub mod probes;
