//! The group count of a whole grid: the rows are encoded as bitmasks, each
//! row is scanned on its own, and the counts are summed.

use vstd::prelude::*;
use crate::error::SeatError;
use crate::occupancy::{all_in_grid, occupancy_masks, seat_in_grid, taken_in_row};
use crate::row_scan::{
    count_row_groups,
    lemma_full_width_row,
    lemma_more_taken_fewer_groups,
    row_placements,
};

verus! {

/// The most columns a row may have: a row is a `u32` bitmask, and a group as
/// wide as the row needs one more bit for its mask.
pub const MAX_COLUMNS: u32 = 31;

/// The number of groups seated in the 0-based row `r`. `aisle` counts from the
/// left, as callers give it; the scan counts from the right.
pub open spec fn row_groups(positions: Seq<(u32, u32)>, columns: int, g: int, aisle: int, r: int) -> nat {
    row_placements(taken_in_row(positions, columns, r), columns, g, columns - aisle).len()
}

/// The number of groups seated in the first `n` rows.
pub open spec fn groups_in_rows(positions: Seq<(u32, u32)>, columns: int, g: int, aisle: int, n: int) -> nat
    decreases n,
{
    if n <= 0 {
        0
    } else {
        groups_in_rows(positions, columns, g, aisle, n - 1) + row_groups(positions, columns, g, aisle, n - 1)
    }
}

/// The number of groups seated in a grid of `rows` rows.
pub open spec fn group_count(rows: int, columns: int, aisle: int, positions: Seq<(u32, u32)>, g: int) -> nat {
    groups_in_rows(positions, columns, g, aisle, rows)
}

/// What a request yields: the first reason it is rejected, if any, and else
/// the group count.
pub open spec fn groups_result(
    n_rows: u32,
    n_columns: u32,
    aisle_seat: u32,
    positions: Seq<(u32, u32)>,
    group_size: u32,
) -> Result<u64, SeatError> {
    if n_rows == 0 || n_columns == 0 || n_columns > MAX_COLUMNS {
        Err(SeatError::InvalidDimension)
    } else if group_size == 0 || group_size > n_columns {
        Err(SeatError::InvalidGroupSize)
    } else if aisle_seat > n_columns {
        Err(SeatError::InvalidAisle)
    } else if !all_in_grid(positions, n_rows as int, n_columns as int) {
        Err(SeatError::OutOfRange)
    } else {
        Ok(group_count(n_rows as int, n_columns as int, aisle_seat as int, positions, group_size as int) as u64)
    }
}

/// The seats of the 0-based row `r`, moved to the only row of a one-row grid.
pub open spec fn single_row(positions: Seq<(u32, u32)>, r: int) -> Seq<(u32, u32)> {
    positions.filter(|s: (u32, u32)| s.0 == r + 1).map_values(|s: (u32, u32)| (1u32, s.1))
}

/// The sum, over the first `n` rows, of the group count of a one-row grid
/// holding only that row's seats.
pub open spec fn single_row_totals(columns: int, aisle: int, positions: Seq<(u32, u32)>, g: int, n: int) -> nat
    decreases n,
{
    if n <= 0 {
        0
    } else {
        single_row_totals(columns, aisle, positions, g, n - 1) + group_count(
            1,
            columns,
            aisle,
            single_row(positions, n - 1),
            g,
        )
    }
}

/// Moving a row's seats to a grid of their own leaves its occupied seats as
/// they were.
proof fn lemma_single_row_taken(positions: Seq<(u32, u32)>, columns: int, r: int)
    ensures
        taken_in_row(single_row(positions, r), columns, 0) == taken_in_row(positions, columns, r),
{
    broadcast use vstd::seq_lib::group_filter_ensures, vstd::seq::Seq::lemma_filter_contains_rev;

    let pred = |s: (u32, u32)| s.0 == r + 1;
    let f = positions.filter(pred);
    let one = single_row(positions, r);
    let left = taken_in_row(one, columns, 0);
    let right = taken_in_row(positions, columns, r);
    assert forall|b: int| left.contains(b) implies right.contains(b) by {
        let i = choose|i: int| 0 <= i < one.len() && (#[trigger] one[i]).0 == 0 + 1 && b == columns - one[i].1;
        assert(f.contains(f[i]));
        assert(pred(f[i]));
        let j = choose|j: int| 0 <= j < positions.len() && positions[j] == f[i];
        assert(positions[j].0 == r + 1 && b == columns - positions[j].1);
    }
    assert forall|b: int| right.contains(b) implies left.contains(b) by {
        let j = choose|j: int|
            0 <= j < positions.len() && (#[trigger] positions[j]).0 == r + 1 && b == columns - positions[j].1;
        assert(pred(positions[j]));
        assert(f.contains(positions[j]));
        let i = choose|i: int| 0 <= i < f.len() && f[i] == positions[j];
        assert(one[i].0 == 0 + 1 && b == columns - one[i].1);
    }
    assert(left =~= right);
}

/// The group count of a grid is the sum over its rows of the group count of a
/// one-row grid holding only that row's seats: rows do not affect each other.
pub proof fn lemma_rows_independent(rows: int, columns: int, aisle: int, positions: Seq<(u32, u32)>, g: int)
    ensures
        group_count(rows, columns, aisle, positions, g) == single_row_totals(columns, aisle, positions, g, rows),
    decreases rows,
{
    if rows > 0 {
        lemma_rows_independent(rows - 1, columns, aisle, positions, g);
        lemma_single_row_taken(positions, columns, rows - 1);
        let one = single_row(positions, rows - 1);
        assert(groups_in_rows(one, columns, g, aisle, 0) == 0);
        assert(groups_in_rows(one, columns, g, aisle, 1) == row_groups(one, columns, g, aisle, 0));
    }
}

/// Occupying one more seat never raises the group count.
pub proof fn lemma_occupying_lowers_count(
    rows: int,
    columns: int,
    aisle: int,
    positions: Seq<(u32, u32)>,
    seat: (u32, u32),
    g: int,
)
    requires
        g >= 1,
    ensures
        group_count(rows, columns, aisle, positions.push(seat), g) <= group_count(rows, columns, aisle, positions, g),
    decreases rows,
{
    if rows > 0 {
        lemma_occupying_lowers_count(rows - 1, columns, aisle, positions, seat, g);
        let more = positions.push(seat);
        let before = taken_in_row(positions, columns, rows - 1);
        let after = taken_in_row(more, columns, rows - 1);
        assert forall|b: int| before.contains(b) implies after.contains(b) by {
            let i = choose|i: int|
                0 <= i < positions.len() && (#[trigger] positions[i]).0 == rows - 1 + 1 && b == columns
                    - positions[i].1;
            assert(more[i] == positions[i]);
        }
        lemma_more_taken_fewer_groups(before, after, columns, g, columns - aisle);
    }
}

/// With groups as wide as the row, each row seats at most one group, and none
/// when any of its seats is occupied.
pub proof fn lemma_full_width_groups(rows: int, columns: int, aisle: int, positions: Seq<(u32, u32)>)
    requires
        columns >= 1,
    ensures
        forall|r: int|
            0 <= r < rows ==> #[trigger] row_groups(positions, columns, columns, aisle, r) <= 1,
        forall|r: int, i: int|
            0 <= r < rows && 0 <= i < positions.len() && positions[i].0 == r + 1 && seat_in_grid(
                #[trigger] positions[i],
                rows,
                columns,
            ) ==> #[trigger] row_groups(positions, columns, columns, aisle, r) == 0,
{
    assert forall|r: int| 0 <= r < rows implies #[trigger] row_groups(positions, columns, columns, aisle, r) <= 1 by {
        lemma_full_width_row(taken_in_row(positions, columns, r), columns, columns - aisle);
    }
    assert forall|r: int, i: int|
        0 <= r < rows && 0 <= i < positions.len() && positions[i].0 == r + 1 && seat_in_grid(
            #[trigger] positions[i],
            rows,
            columns,
        ) implies #[trigger] row_groups(positions, columns, columns, aisle, r) == 0 by {
        let taken = taken_in_row(positions, columns, r);
        assert(taken.contains(columns - positions[i].1));
        lemma_full_width_row(taken, columns, columns - aisle);
    }
}

/// Counts the groups of `group_size` adjacent free seats that fit in a grid of
/// `n_rows` rows of `n_columns` seats, with the aisle between columns
/// `aisle_seat` and `aisle_seat + 1` and the occupied seats given as 1-based
/// `(row, column)` pairs. Each row is scanned greedily from its right-hand end.
pub fn get_number_of_groups(
    n_rows: u32,
    n_columns: u32,
    aisle_seat: u32,
    positions: &Vec<(u32, u32)>,
    group_size: u32,
) -> (result: Result<u64, SeatError>)
    ensures
        result == groups_result(n_rows, n_columns, aisle_seat, positions@, group_size),
{
    if n_rows == 0 || n_columns == 0 || n_columns > MAX_COLUMNS {
        return Err(SeatError::InvalidDimension);
    }
    if group_size == 0 || group_size > n_columns {
        return Err(SeatError::InvalidGroupSize);
    }
    if aisle_seat > n_columns {
        return Err(SeatError::InvalidAisle);
    }
    let class_rows = match occupancy_masks(n_rows, n_columns, positions) {
        Ok(masks) => masks,
        Err(e) => {
            return Err(e);
        },
    };
    // The scan runs from the right-hand end of each row.
    let aisle_from_right = n_columns - aisle_seat;
    let mut possible_groups: u64 = 0;
    let mut r: u32 = 0;
    while r < n_rows
        invariant
            1 <= group_size <= n_columns <= MAX_COLUMNS,
            aisle_seat <= n_columns,
            aisle_from_right == n_columns - aisle_seat,
            r <= n_rows,
            class_rows@.len() == n_rows,
            forall|k: int|
                0 <= k < n_rows ==> crate::row_scan::taken_of(#[trigger] class_rows@[k]) == taken_in_row(
                    positions@,
                    n_columns as int,
                    k,
                ),
            possible_groups == groups_in_rows(positions@, n_columns as int, group_size as int, aisle_seat as int, r as int),
            possible_groups <= 31 * r,
        decreases n_rows - r,
    {
        let count = count_row_groups(class_rows[r as usize], n_columns, aisle_from_right, group_size);
        possible_groups = possible_groups + count as u64;
        r = r + 1;
    }
    Ok(possible_groups)
}

} // verus!
