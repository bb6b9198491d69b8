//! A grid of agents playing an iterated two-player game, learning through
//! temporal-difference updates and fusing into multi-agent organisms.
//!
//! Fitness and learned values are fixed-point quantities: one unit of the
//! game is `agent::UNIT` (one million) steps of the integer representation.

pub mod agent;
pub mod deferred;
pub mod frame;
pub mod grid;
pub mod occupancy;
pub mod payoff;
pub mod policy;
pub mod stats;
