//! Period search over a grid of candidate frequencies: everything in it
//! that is decided rather than computed.
//!
//! Measured quantities enter as IEEE 754 binary64 bit patterns, held in
//! `u64`. The library orders them and takes their floors, with proofs that
//! it does so as the numbers behind the patterns demand; it never adds or
//! multiplies them, and hands them back unchanged.
//!
//! - `score` gives each pattern a key to order it by, and `value` proves
//!   that the keys order as the numbers do.
//! - `rank` ranks keys: the largest, the smallest, the first so many.
//! - `slot` and `bins` assign a sample to its phase bin.
//! - `grid` decides the ends of the baseline, the minimum cadence and where
//!   a frequency grid stops.
//! - `period` selects the best frequencies with their statistics.
pub mod bins;
pub mod grid;
pub mod period;
pub mod rank;
pub mod score;
pub mod slot;
pub mod value;
