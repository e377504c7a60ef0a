//! Verified solvers for a family of small combinatorial puzzles.
//!
//! The heart of the crate is the toggle-network solver: a fixed set of
//! positions, a fixed set of steps that each flip (or increment) some of the
//! positions, and two questions about the cheapest way to reach a target.
pub mod bits;
pub mod text;
pub mod notation;
pub mod toggle;
pub mod layers;
pub mod gf2;
pub mod coset;
pub mod counts;
pub mod solver;
pub mod best_first;
pub mod search;
pub mod plain;
pub mod selection;
pub mod digit_rows;
pub mod digit_scan;
pub mod digit_window;
pub mod input;
pub mod dial;
pub mod dial_basic;
pub mod dial_marked;
pub mod crowding;
pub mod crowding_queue;
pub mod beams;
pub mod ranges;
pub mod homework;
pub mod repeats;
pub mod words;
pub mod laws;

pub use crate::input::parse_to_number_grid;
pub use crate::input::RangeData;
