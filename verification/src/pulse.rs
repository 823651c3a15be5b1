//! Pulse-propagation networks: modules, the scheduler that settles one
//! trigger cycle, pulse counting and period extrapolation.

pub mod module;
pub mod network;
pub mod count;
pub mod parse;
pub mod builder;
pub mod detector;
pub mod laws;
