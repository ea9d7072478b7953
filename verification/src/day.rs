//! The answer record that every puzzle solver produces.

use vstd::prelude::*;

verus! {

/// The two textual answers of one puzzle: every solver's `run` returns one of
/// these on success.
pub struct DayResult {
    pub part1: String,
    pub part2: Option<String>,
}

} // verus!
