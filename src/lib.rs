//! Range-wide search for the longest Collatz sequence and the highest value
//! reached, with memoisation through interchangeable per-slot caches, plus
//! the board model of a ball-stacking game whose positions are memoised the
//! same way.
pub mod board;
pub mod cache;
pub mod collatz;
pub mod distribute;
pub mod indexed_value;
pub mod sequence;
