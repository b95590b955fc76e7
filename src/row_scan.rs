//! The placement scanner: the greedy left-to-right count of groups in one row.
//!
//! A row is a bitmask in which bit `b` stands for the seat `b` places from the
//! right-hand end of the row; a set bit is an occupied seat. Offsets, the aisle
//! and windows below all count from that right-hand end.

use vstd::prelude::*;

verus! {

/// Is seat `b` (counted from the right) occupied in `row`?
pub open spec fn bit_set(row: u32, b: int) -> bool {
    0 <= b < 32 && (row >> (b as u32)) & 1u32 == 1u32
}

/// The set of occupied offsets of a row bitmask.
pub open spec fn taken_of(row: u32) -> Set<int> {
    Set::new(|b: int| bit_set(row, b))
}

/// Does the window `[shift, shift + g)` stay clear of the aisle's buffer?
/// It does when it lies wholly on one side of `aisle`, or when both of its
/// edges are more than one seat away from it.
pub open spec fn passes_aisle(shift: int, g: int, aisle: int) -> bool {
    shift >= aisle || shift + g <= aisle || (dist(aisle, shift) > 1 && dist(dist(aisle, shift), g) > 1)
}

/// The distance between two offsets.
pub open spec fn dist(a: int, b: int) -> int {
    if a >= b { a - b } else { b - a }
}

/// Are all the seats of the window `[shift, shift + g)` free?
pub open spec fn window_clear(taken: Set<int>, shift: int, g: int) -> bool {
    forall|b: int| shift <= b < shift + g ==> !#[trigger] taken.contains(b)
}

/// Can a group of `g` seats sit at offset `shift` of a row of `columns` seats?
pub open spec fn fits(taken: Set<int>, columns: int, g: int, aisle: int, shift: int) -> bool {
    0 <= shift && shift + g <= columns && passes_aisle(shift, g, aisle) && window_clear(taken, shift, g)
}

/// The offsets at which the greedy scan seats a group, looking at offsets from
/// `p` on: the leftmost offset that fits is taken, and the scan resumes just
/// past that group.
pub open spec fn placements_from(taken: Set<int>, columns: int, g: int, aisle: int, p: int) -> Seq<int>
    decreases columns - p,
{
    if g <= 0 || p < 0 || p + g > columns {
        Seq::empty()
    } else if fits(taken, columns, g, aisle, p) {
        seq![p] + placements_from(taken, columns, g, aisle, p + g)
    } else {
        placements_from(taken, columns, g, aisle, p + 1)
    }
}

/// The offsets at which the groups of one row are seated.
pub open spec fn row_placements(taken: Set<int>, columns: int, g: int, aisle: int) -> Seq<int> {
    placements_from(taken, columns, g, aisle, 0)
}

/// The window `[shift, shift + g)` of a row is free exactly when the row has no
/// bit in the mask `((1 << g) - 1) << shift`.
proof fn lemma_window_mask(row: u32, shift: u32, g: u32)
    requires
        shift + g <= 31,
    ensures
        (row & ((((1u32 << g) - 1u32) as u32) << shift) == 0u32) <==> window_clear(taken_of(row), shift as int, g as int),
    decreases g,
{
    let m = (((1u32 << g) - 1u32) as u32) << shift;
    if g == 0 {
        assert(m == 0u32) by (bit_vector)
            requires
                g == 0u32,
                m == (((1u32 << g) - 1u32) as u32) << shift,
        ;
        assert(row & m == 0u32) by (bit_vector)
            requires
                m == 0u32,
        ;
    } else {
        let h = (g - 1) as u32;
        lemma_window_mask(row, shift, h);
        let m0 = (((1u32 << h) - 1u32) as u32) << shift;
        let k = (shift + h) as u32;
        let one = 1u32 << k;
        assert(m == m0 | one) by (bit_vector)
            requires
                shift + g <= 31,
                h == g - 1,
                k == shift + h,
                m == (((1u32 << g) - 1u32) as u32) << shift,
                m0 == (((1u32 << h) - 1u32) as u32) << shift,
                one == 1u32 << k,
        ;
        assert((row & (m0 | one) == 0u32) <==> (row & m0 == 0u32 && row & one == 0u32)) by (bit_vector);
        assert((row & one == 0u32) <==> !((row >> k) & 1u32 == 1u32)) by (bit_vector)
            requires
                k < 32,
                one == 1u32 << k,
        ;
        let taken = taken_of(row);
        assert(bit_set(row, k as int) == taken.contains(k as int));
        if row & m == 0u32 {
            assert forall|b: int| shift <= b < shift + g implies !#[trigger] taken.contains(b) by {
                if b < shift + h {
                } else {
                    assert(b == k);
                }
            }
        }
    }
}

/// What the scan seats from offset `p` on: offsets no smaller than `p`, each
/// of which fits, each group ending before the next begins, and no more
/// groups than seats from `p` to the end of the row.
proof fn lemma_placements_from_shape(taken: Set<int>, columns: int, g: int, aisle: int, p: int)
    requires
        g >= 1,
        p >= 0,
    ensures
        ({
            let s = placements_from(taken, columns, g, aisle, p);
            &&& forall|i: int| 0 <= i < s.len() ==> p <= #[trigger] s[i] && fits(taken, columns, g, aisle, s[i])
            &&& forall|i: int, j: int| 0 <= i < j < s.len() ==> #[trigger] s[i] + g <= #[trigger] s[j]
            &&& s.len() <= if columns >= p { columns - p } else { 0 }
        }),
    decreases columns - p,
{
    if p + g > columns {
    } else if fits(taken, columns, g, aisle, p) {
        lemma_placements_from_shape(taken, columns, g, aisle, p + g);
        let t = placements_from(taken, columns, g, aisle, p + g);
        let s = seq![p] + t;
        assert forall|i: int, j: int| 0 <= i < j < s.len() implies #[trigger] s[i] + g <= #[trigger] s[j] by {
            if i == 0 {
                assert(s[j] == t[j - 1]);
            } else {
                assert(s[i] == t[i - 1] && s[j] == t[j - 1]);
            }
        }
        assert forall|i: int| 0 <= i < s.len() implies p <= #[trigger] s[i] && fits(taken, columns, g, aisle, s[i]) by {
            if i > 0 {
                assert(s[i] == t[i - 1]);
            }
        }
    } else {
        lemma_placements_from_shape(taken, columns, g, aisle, p + 1);
    }
}

/// Groups seated in one row never share a seat: each group ends before the
/// next one begins.
pub proof fn lemma_placements_disjoint(taken: Set<int>, columns: int, g: int, aisle: int)
    requires
        g >= 1,
    ensures
        ({
            let s = row_placements(taken, columns, g, aisle);
            forall|i: int, j: int| 0 <= i < j < s.len() ==> #[trigger] s[i] + g <= #[trigger] s[j]
        }),
{
    lemma_placements_from_shape(taken, columns, g, aisle, 0);
}

/// Every seated group lies within the row on free seats, and a group that
/// does not lie wholly on one side of the aisle has both of its edges more
/// than one seat away from the aisle.
pub proof fn lemma_placements_respect_aisle(taken: Set<int>, columns: int, g: int, aisle: int)
    requires
        g >= 1,
    ensures
        ({
            let s = row_placements(taken, columns, g, aisle);
            forall|i: int| 0 <= i < s.len() ==> {
                &&& 0 <= #[trigger] s[i] && s[i] + g <= columns
                &&& window_clear(taken, s[i], g)
                &&& !(s[i] >= aisle || s[i] + g <= aisle) ==> dist(aisle, s[i]) > 1 && dist(aisle, s[i] + g) > 1
            }
        }),
{
    lemma_placements_from_shape(taken, columns, g, aisle, 0);
}

/// With more seats taken, the scan from a later offset seats no more groups
/// than the scan over the sparser row from an earlier one.
proof fn lemma_fewer_from_later(taken: Set<int>, more: Set<int>, columns: int, g: int, aisle: int, p: int, q: int)
    requires
        g >= 1,
        0 <= p <= q,
        taken.subset_of(more),
    ensures
        placements_from(more, columns, g, aisle, q).len() <= placements_from(taken, columns, g, aisle, p).len(),
    decreases columns - p, columns - p,
{
    if q + g > columns {
    } else if fits(taken, columns, g, aisle, p) {
        if p == q && fits(more, columns, g, aisle, p) {
            lemma_fewer_from_later(taken, more, columns, g, aisle, p + g, p + g);
        } else if p == q {
            lemma_fewer_after_fit(taken, more, columns, g, aisle, p, p + 1);
        } else {
            lemma_fewer_after_fit(taken, more, columns, g, aisle, p, q);
        }
    } else {
        if p == q {
            assert(!fits(more, columns, g, aisle, p)) by {
                if fits(more, columns, g, aisle, p) {
                    assert(window_clear(taken, p, g));
                }
            }
        }
        lemma_fewer_from_later(taken, more, columns, g, aisle, p + 1, if p == q { p + 1 } else { q });
    }
}

/// Once the sparser row seats a group at `p`, the scan with more seats taken
/// from any later offset seats at most that group and what the sparser row
/// seats after it.
proof fn lemma_fewer_after_fit(taken: Set<int>, more: Set<int>, columns: int, g: int, aisle: int, p: int, q: int)
    requires
        g >= 1,
        0 <= p < q,
        taken.subset_of(more),
        fits(taken, columns, g, aisle, p),
    ensures
        placements_from(more, columns, g, aisle, q).len() <= 1 + placements_from(taken, columns, g, aisle, p + g).len(),
    decreases columns - p, columns - q,
{
    if q + g > columns {
    } else if fits(more, columns, g, aisle, q) {
        lemma_fewer_from_later(taken, more, columns, g, aisle, p + g, q + g);
    } else {
        lemma_fewer_after_fit(taken, more, columns, g, aisle, p, q + 1);
    }
}

/// Taking more seats in a row never lets the scan seat more groups.
pub proof fn lemma_more_taken_fewer_groups(taken: Set<int>, more: Set<int>, columns: int, g: int, aisle: int)
    requires
        g >= 1,
        taken.subset_of(more),
    ensures
        row_placements(more, columns, g, aisle).len() <= row_placements(taken, columns, g, aisle).len(),
{
    lemma_fewer_from_later(taken, more, columns, g, aisle, 0, 0);
}

/// A group as wide as the row is seated at most once, and not at all when any
/// seat of the row is taken.
pub proof fn lemma_full_width_row(taken: Set<int>, columns: int, aisle: int)
    requires
        columns >= 1,
    ensures
        row_placements(taken, columns, columns, aisle).len() <= 1,
        (exists|b: int| 0 <= b < columns && #[trigger] taken.contains(b)) ==> row_placements(
            taken,
            columns,
            columns,
            aisle,
        ).len() == 0,
{
    assert(placements_from(taken, columns, columns, aisle, columns).len() == 0);
    assert(placements_from(taken, columns, columns, aisle, 1).len() == 0);
}

/// Counts the groups of `group_size` adjacent free seats that the greedy scan
/// seats in one row of `n_columns` seats. `row` has a set bit for each occupied
/// seat and `aisle_seat` is the aisle's offset, both counted from the
/// right-hand end of the row.
pub fn count_row_groups(row: u32, n_columns: u32, aisle_seat: u32, group_size: u32) -> (count: u32)
    requires
        1 <= group_size <= n_columns <= 31,
        aisle_seat <= n_columns,
    ensures
        count == row_placements(taken_of(row), n_columns as int, group_size as int, aisle_seat as int).len(),
        count <= n_columns,
{
    let ghost taken = taken_of(row);
    let ghost columns = n_columns as int;
    let ghost g = group_size as int;
    let ghost aisle = aisle_seat as int;
    let ghost total = row_placements(taken, columns, g, aisle).len();
    proof {
        lemma_placements_from_shape(taken, columns, g, aisle, 0);
    }
    assert(1u32 << group_size >= 1u32) by (bit_vector)
        requires
            group_size < 32,
    ;
    let binary_group_size: u32 = (1u32 << group_size) - 1;
    let mut count: u32 = 0;
    let mut last_marked_seat: u32 = 0;
    let mut column_shift: u32 = 0;
    while column_shift <= n_columns - group_size
        invariant
            1 <= group_size <= n_columns <= 31,
            aisle_seat <= n_columns,
            column_shift <= n_columns - group_size + 1,
            last_marked_seat <= column_shift + group_size,
            taken == taken_of(row),
            columns == n_columns,
            g == group_size,
            aisle == aisle_seat,
            total == row_placements(taken, columns, g, aisle).len(),
            total <= n_columns,
            binary_group_size == (((1u32 << group_size) - 1u32) as u32),
            count + placements_from(
                taken,
                columns,
                g,
                aisle,
                if column_shift >= last_marked_seat { column_shift as int } else { last_marked_seat as int },
            ).len() == total,
        decreases n_columns - column_shift,
    {
        if column_shift >= last_marked_seat {
            let group_end = column_shift + group_size;
            let distance_to_aisle: u32 = if aisle_seat >= column_shift {
                aisle_seat - column_shift
            } else {
                column_shift - aisle_seat
            };
            let distance_to_group_end: u32 = if distance_to_aisle >= group_size {
                distance_to_aisle - group_size
            } else {
                group_size - distance_to_aisle
            };
            let mask: u32 = binary_group_size << column_shift;
            proof {
                lemma_window_mask(row, column_shift, group_size);
            }
            assert((!row & mask == mask) == (row & mask == 0u32)) by (bit_vector);
            if (column_shift >= aisle_seat || group_end <= aisle_seat || (distance_to_aisle > 1
                && distance_to_group_end > 1)) && !row & mask == mask {
                proof {
                    lemma_placements_from_shape(taken, columns, g, aisle, group_end as int);
                }
                count = count + 1;
                last_marked_seat = group_end;
            }
        }
        column_shift = column_shift + 1;
    }
    count
}

} // verus!
