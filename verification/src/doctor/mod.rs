//! Why a suite is slow, and what could be done about it.

pub mod waste;
pub mod report;
pub mod gate;
pub mod analysis;
pub mod render;
