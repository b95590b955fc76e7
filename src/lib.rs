//! Counting how many groups of adjacent free seats fit in a classroom whose
//! rows are split by a single aisle.

pub mod error;
pub mod groups;
pub mod occupancy;
pub mod row_scan;

pub use error::SeatError;
pub use groups::get_number_of_groups;
