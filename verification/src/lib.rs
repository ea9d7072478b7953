//! Solvers for a set of small text puzzles, built around one reusable,
//! fully specified core: a circular-buffer scrambling hash (the knot hash).
//!
//! The [`knot`] module holds the core: a [`knot::Ring`] of integers that is
//! scrambled in place by reversing circular segments, and reduced to a fixed
//! digest in hex or bit form. The remaining modules are the individual puzzle
//! solvers; each exposes an `Instance` with a `run` method taking the puzzle's
//! input lines.

pub mod day;
pub mod day1;
pub mod day10;
pub mod day11;
pub mod day13;
pub mod day15;
pub mod day17;
pub mod day2;
pub mod day3;
pub mod day4;
pub mod day5;
pub mod day6;
pub mod day8;
pub mod knot;
pub mod text;
