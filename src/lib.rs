//! Solvers for a yearly series of programming puzzles.
//!
//! Each puzzle module offers a `parse` step that turns puzzle text into a
//! model, and two solving steps over that model. The 2023 almanac puzzle
//! (`year2023::day05`) holds the interval remapping engine: half-open ranges
//! pushed through a chain of range-shifting tables.
pub mod dispatch;
pub mod text;
pub mod year2022;
pub mod year2023;
