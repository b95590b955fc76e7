//! The occupancy encoder: one bitmask per row from a list of occupied seats.
//!
//! Seats are given as 1-based `(row, column)` pairs, columns counted from the
//! left. In a row's bitmask the seat in column `c` is bit `n_columns - c`, so
//! bit 0 is the rightmost seat.

use vstd::prelude::*;
use crate::error::SeatError;
use crate::row_scan::{bit_set, taken_of};

verus! {

/// Does the seat lie in a grid of `rows` rows and `columns` columns?
pub open spec fn seat_in_grid(seat: (u32, u32), rows: int, columns: int) -> bool {
    1 <= seat.0 <= rows && 1 <= seat.1 <= columns
}

/// Do all the seats lie in the grid?
pub open spec fn all_in_grid(positions: Seq<(u32, u32)>, rows: int, columns: int) -> bool {
    forall|i: int| 0 <= i < positions.len() ==> seat_in_grid(#[trigger] positions[i], rows, columns)
}

/// The occupied offsets, counted from the right-hand end, of the 0-based row
/// `r`.
pub open spec fn taken_in_row(positions: Seq<(u32, u32)>, columns: int, r: int) -> Set<int> {
    Set::new(
        |b: int|
            exists|i: int|
                0 <= i < positions.len() && (#[trigger] positions[i]).0 == r + 1 && b == columns
                    - positions[i].1,
    )
}

/// Marks the seat in column `column_position` of a row as occupied.
pub fn add_occupied_seat(row: &mut u32, column_position: u32, n_columns: u32)
    requires
        1 <= column_position <= n_columns <= 31,
    ensures
        *final(row) == *old(row) | (1u32 << (n_columns - column_position) as u32),
        forall|b: int|
            #![trigger bit_set(*final(row), b)]
            bit_set(*final(row), b) <==> (bit_set(*old(row), b) || b == n_columns - column_position),
{
    let ghost before = *row;
    let k: u32 = n_columns - column_position;
    *row = *row | (1u32 << k);
    let ghost after = *row;
    assert forall|b: int| #![trigger bit_set(after, b)] bit_set(after, b) <==> (bit_set(before, b) || b == k) by {
        if 0 <= b < 32 {
            let bb = b as u32;
            assert((((before | (1u32 << k)) >> bb) & 1u32 == 1u32) <==> (((before >> bb) & 1u32 == 1u32)
                || bb == k)) by (bit_vector)
                requires
                    k < 32,
                    bb < 32,
            ;
        }
    }
}

/// Builds one bitmask per row, `n_rows` of them, each with a set bit for
/// every occupied seat of its row; fails with `OutOfRange` when a seat lies
/// outside the grid.
pub fn occupancy_masks(n_rows: u32, n_columns: u32, positions: &Vec<(u32, u32)>) -> (result: Result<
    Vec<u32>,
    SeatError,
>)
    requires
        1 <= n_columns <= 31,
    ensures
        match result {
            Ok(masks) => {
                &&& all_in_grid(positions@, n_rows as int, n_columns as int)
                &&& masks@.len() == n_rows
                &&& forall|r: int|
                    0 <= r < n_rows ==> taken_of(#[trigger] masks@[r]) == taken_in_row(
                        positions@,
                        n_columns as int,
                        r,
                    )
            },
            Err(e) => !all_in_grid(positions@, n_rows as int, n_columns as int) && e == SeatError::OutOfRange,
        },
{
    let mut masks: Vec<u32> = Vec::new();
    let mut r: u32 = 0;
    while r < n_rows
        invariant
            r <= n_rows,
            masks@.len() == r,
            forall|k: int| 0 <= k < r ==> masks@[k] == 0u32,
        decreases n_rows - r,
    {
        masks.push(0);
        r = r + 1;
    }
    assert forall|k: int, b: int| 0 <= k < n_rows implies !#[trigger] bit_set(masks@[k], b) by {
        if 0 <= b < 32 {
            let bb = b as u32;
            assert((0u32 >> bb) & 1u32 == 0u32) by (bit_vector);
        }
    }
    let mut i: usize = 0;
    while i < positions.len()
        invariant
            1 <= n_columns <= 31,
            i <= positions@.len(),
            masks@.len() == n_rows,
            all_in_grid(positions@.take(i as int), n_rows as int, n_columns as int),
            forall|k: int, b: int|
                0 <= k < n_rows ==> (#[trigger] bit_set(masks@[k], b) <==> exists|j: int|
                    0 <= j < i && (#[trigger] positions@[j]).0 == k + 1 && b == n_columns - positions@[j].1),
        decreases positions@.len() - i,
    {
        let (row_position, column_position) = positions[i];
        if row_position < 1 || row_position > n_rows || column_position < 1 || column_position > n_columns {
            assert(!seat_in_grid(positions@[i as int], n_rows as int, n_columns as int));
            return Err(SeatError::OutOfRange);
        }
        let idx: usize = (row_position - 1) as usize;
        let mut row = masks[idx];
        add_occupied_seat(&mut row, column_position, n_columns);
        masks.set(idx, row);
        proof {
            assert forall|k: int, b: int|
                0 <= k < n_rows implies (#[trigger] bit_set(masks@[k], b) <==> exists|j: int|
                0 <= j < i + 1 && (#[trigger] positions@[j]).0 == k + 1 && b == n_columns - positions@[j].1) by {
                if bit_set(masks@[k], b) && k != idx {
                    let j = choose|j: int|
                        0 <= j < i && (#[trigger] positions@[j]).0 == k + 1 && b == n_columns - positions@[j].1;
                    assert(0 <= j < i + 1);
                }
                if bit_set(masks@[k], b) && k == idx {
                    if b == n_columns - column_position {
                        assert(positions@[i as int].0 == k + 1);
                    } else {
                        let j = choose|j: int|
                            0 <= j < i && (#[trigger] positions@[j]).0 == k + 1 && b == n_columns - positions@[j].1;
                        assert(0 <= j < i + 1);
                    }
                }
                if exists|j: int|
                    0 <= j < i + 1 && (#[trigger] positions@[j]).0 == k + 1 && b == n_columns - positions@[j].1 {
                    let j = choose|j: int|
                        0 <= j < i + 1 && (#[trigger] positions@[j]).0 == k + 1 && b == n_columns - positions@[j].1;
                    if j < i {
                    } else {
                        assert(k == idx);
                    }
                }
            }
            assert forall|j: int| 0 <= j < i + 1 implies seat_in_grid(
                #[trigger] positions@.take(i + 1)[j],
                n_rows as int,
                n_columns as int,
            ) by {
                if j < i {
                    assert(positions@.take(i as int)[j] == positions@.take(i + 1)[j]);
                }
            }
        }
        i = i + 1;
    }
    proof {
        assert(positions@.take(i as int) =~= positions@);
        assert forall|k: int| 0 <= k < n_rows implies taken_of(#[trigger] masks@[k]) == taken_in_row(
            positions@,
            n_columns as int,
            k,
        ) by {
            assert(taken_of(masks@[k]) =~= taken_in_row(positions@, n_columns as int, k));
        }
    }
    Ok(masks)
}

} // verus!
