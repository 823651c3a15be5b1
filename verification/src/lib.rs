//! Verified solvers for a set of grid, graph and parsing puzzles.
//!
//! The heart of the crate is [`pulse`]: a simulator for networks of small
//! stateful modules that exchange Low and High pulses in strict arrival
//! order, with an analysis that counts pulses and one that extrapolates
//! periodic behaviour.

pub mod arith;
pub mod combine;
pub mod days;
pub mod marks;
pub mod pulse;
pub mod text;
