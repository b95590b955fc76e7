//! Why a request for a group count is rejected.

use vstd::prelude::*;

verus! {

/// The reasons a request is rejected; each is detected before any group is
/// counted, and a rejected request yields no partial count.
#[derive(Clone, Copy, Debug, PartialEq, Eq, Structural)]
pub enum SeatError {
    /// No rows, no columns, or more columns than a row bitmask holds.
    InvalidDimension,
    /// A group of no seats, or wider than the row.
    InvalidGroupSize,
    /// The aisle lies beyond the last column.
    InvalidAisle,
    /// An occupied seat lies outside the grid.
    OutOfRange,
}

} // verus!
