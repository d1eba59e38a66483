//! Exhaustive cycle analysis of a small toroidal Game-of-Life automaton.
//!
//! A board of `width * height` cells is identified with a packed `u64` bit
//! pattern, one bit per cell.  The library steps a board one generation at a
//! time, detects when a trajectory of packed states first repeats, and tallies
//! the resulting cycle lengths over every configuration of the board.

pub mod board;
pub mod cell;
pub mod cycle;
pub mod search;
pub mod step;
