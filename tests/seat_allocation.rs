use seat_allocation::get_number_of_groups;
use seat_allocation::groups::MAX_COLUMNS;
use seat_allocation::occupancy::{add_occupied_seat, occupancy_masks};
use seat_allocation::row_scan::count_row_groups;
use seat_allocation::SeatError;

/*
    0 X || 0 0 0 0
    0 0 || 0 0 0 0
    0 0 || 0 0 X 0
    0 0 || 0 0 X 0
*/
#[test]
fn von_neuman() {
    let positions = vec![(1, 2), (3, 5), (4, 5)];
    assert_eq!(get_number_of_groups(4, 6, 2, &positions, 3), Ok(2))
}

/*
    0 X || 0 0 0 0
    0 0 || 0 0 0 0
    0 0 || 0 0 X 0
    0 0 || 0 X 0 0
*/
#[test]
fn turing() {
    let positions = vec![(1, 2), (3, 5), (4, 4)];
    assert_eq!(get_number_of_groups(4, 6, 2, &positions, 4), Ok(3))
}

/*
    0 X 0 0 || 0 0
    0 0 X 0 || 0 X
    0 0 0 0 || 0 X
    0 0 X 0 || 0 0
*/
#[test]
fn boole() {
    let positions = vec![(1, 2), (2, 3), (2, 6), (3, 6), (4, 3)];
    assert_eq!(get_number_of_groups(4, 6, 4, &positions, 2), Ok(7))
}

/*
    0 0 0 X || 0 0 0 0
    X X 0 0 || 0 0 X 0
    0 0 0 0 || 0 0 0 0
    0 0 0 0 || 0 0 0 X
*/
#[test]
fn ada_byron() {
    let positions = vec![(1, 4), (2, 1), (2, 2), (2, 7), (4, 8)];
    assert_eq!(get_number_of_groups(4, 8, 4, &positions, 4), Ok(5))
}

/*
    X 0 0 0 || 0 0 X 0
    0 0 0 X || 0 0 0 0
    0 X 0 0 || 0 0 0 0
    0 0 0 0 || 0 0 0 X
*/
#[test]
fn donald_knuth() {
    let positions = vec![(1, 1), (1, 7), (2, 4), (3, 2), (4, 8)];
    assert_eq!(get_number_of_groups(4, 8, 4, &positions, 5), Ok(3))
}

/*
    0 0 0 ||
*/
#[test]
fn carrel_1() {
    let positions = vec![];
    assert_eq!(get_number_of_groups(1, 3, 3, &positions, 3), Ok(1))
}

/*
    0 0 || 0
*/
#[test]
fn carrel_2() {
    let positions = vec![];
    assert_eq!(get_number_of_groups(1, 3, 2, &positions, 3), Ok(0))
}

/*
    || 0 0 0
*/
#[test]
fn carrel_3() {
    let positions = vec![];
    assert_eq!(get_number_of_groups(1, 3, 0, &positions, 3), Ok(1))
}

#[test]
fn sample_grid_groups_of_four_and_three() {
    let positions = vec![(2, 2), (2, 7), (3, 2), (3, 8), (4, 1), (4, 6)];
    assert_eq!(get_number_of_groups(4, 8, 4, &positions, 4), Ok(4));
    assert_eq!(get_number_of_groups(4, 8, 4, &positions, 3), Ok(4));
}

#[test]
fn same_request_gives_same_count() {
    let positions = vec![(1, 4), (2, 1), (2, 2), (2, 7), (4, 8)];
    let first = get_number_of_groups(4, 8, 4, &positions, 4);
    let second = get_number_of_groups(4, 8, 4, &positions, 4);
    assert_eq!(first, second);
    assert_eq!(first, Ok(5));
}

#[test]
fn grid_count_is_sum_of_single_rows() {
    let positions = vec![(2, 2), (2, 7), (3, 2), (3, 8), (4, 1), (4, 6)];
    let mut sum: u64 = 0;
    for r in 1..=4u32 {
        let row: Vec<(u32, u32)> = positions.iter().filter(|p| p.0 == r).map(|p| (1, p.1)).collect();
        sum += get_number_of_groups(1, 8, 4, &row, 3).unwrap();
    }
    assert_eq!(sum, 4);
    assert_eq!(get_number_of_groups(4, 8, 4, &positions, 3), Ok(sum));
}

#[test]
fn occupying_a_seat_never_raises_count() {
    let mut positions = vec![(1, 2), (3, 5), (4, 5)];
    assert_eq!(get_number_of_groups(4, 6, 2, &positions, 2), Ok(9));
    positions.push((2, 4));
    assert_eq!(get_number_of_groups(4, 6, 2, &positions, 2), Ok(8));
}

#[test]
fn duplicate_seats_count_once() {
    let positions = vec![(1, 4), (2, 1), (2, 2), (2, 7), (4, 8), (2, 7), (1, 4)];
    assert_eq!(get_number_of_groups(4, 8, 4, &positions, 4), Ok(5));
}

#[test]
fn groups_in_a_row_do_not_overlap() {
    // Six free seats, no aisle buffer: pairs at offsets 0, 2 and 4.
    assert_eq!(count_row_groups(0, 6, 0, 2), 3);
    // An occupied seat at offset 2 pushes the second pair to offset 3.
    assert_eq!(count_row_groups(0b000100, 6, 0, 2), 2);
}

#[test]
fn groups_keep_away_from_aisle() {
    // The pair at offsets 2..4 would straddle the aisle at 3 with an edge one
    // seat away from it, so only the pairs at 0 and 3 are seated.
    assert_eq!(count_row_groups(0, 6, 3, 2), 2);
}

#[test]
fn full_width_group() {
    assert_eq!(get_number_of_groups(2, 4, 2, &vec![(1, 3)], 4), Ok(1));
    assert_eq!(get_number_of_groups(3, 4, 2, &vec![], 4), Ok(3));
}

#[test]
fn widest_rows() {
    assert_eq!(get_number_of_groups(2, MAX_COLUMNS, 0, &vec![], MAX_COLUMNS), Ok(2));
    assert_eq!(get_number_of_groups(1, 31, 31, &vec![(1, 1), (1, 31)], 1), Ok(29));
}

#[test]
fn rejects_bad_dimensions() {
    assert_eq!(get_number_of_groups(0, 6, 2, &vec![], 3), Err(SeatError::InvalidDimension));
    assert_eq!(get_number_of_groups(4, 0, 0, &vec![], 1), Err(SeatError::InvalidDimension));
    assert_eq!(get_number_of_groups(1, 32, 0, &vec![], 3), Err(SeatError::InvalidDimension));
}

#[test]
fn rejects_bad_group_size() {
    assert_eq!(get_number_of_groups(4, 6, 2, &vec![], 0), Err(SeatError::InvalidGroupSize));
    assert_eq!(get_number_of_groups(4, 6, 2, &vec![], 7), Err(SeatError::InvalidGroupSize));
}

#[test]
fn rejects_bad_aisle() {
    assert_eq!(get_number_of_groups(4, 6, 7, &vec![], 3), Err(SeatError::InvalidAisle));
}

#[test]
fn rejects_seats_outside_grid() {
    assert_eq!(get_number_of_groups(4, 6, 2, &vec![(5, 1)], 3), Err(SeatError::OutOfRange));
    assert_eq!(get_number_of_groups(4, 6, 2, &vec![(0, 1)], 3), Err(SeatError::OutOfRange));
    assert_eq!(get_number_of_groups(4, 6, 2, &vec![(1, 0)], 3), Err(SeatError::OutOfRange));
    assert_eq!(get_number_of_groups(4, 6, 2, &vec![(1, 2), (1, 7)], 3), Err(SeatError::OutOfRange));
}

#[test]
fn marks_seat_bits_from_the_right() {
    let mut row: u32 = 0;
    add_occupied_seat(&mut row, 1, 6);
    assert_eq!(row, 0b100000);
    add_occupied_seat(&mut row, 6, 6);
    assert_eq!(row, 0b100001);
    add_occupied_seat(&mut row, 6, 6);
    assert_eq!(row, 0b100001);
}

#[test]
fn encodes_each_row() {
    let positions = vec![(2, 2), (2, 7), (3, 2), (3, 8), (4, 1), (4, 6)];
    assert_eq!(occupancy_masks(4, 8, &positions), Ok(vec![0, 66, 65, 132]));
    assert_eq!(occupancy_masks(4, 8, &vec![(4, 9)]), Err(SeatError::OutOfRange));
}
