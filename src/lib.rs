//! Puzzle solvers over small text inputs: calibration digits, an almanac of chained
//! range-remapping stages, and boat races.
use vstd::prelude::*;

pub mod day1;
pub mod day5;
pub mod day6;
pub mod text;

verus! {

} // verus!
