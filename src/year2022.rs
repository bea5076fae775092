//! Puzzles of the 2022 series.
pub mod day01;
