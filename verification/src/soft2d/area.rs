//! The area a row's edges cover, column by column: which part of an edge is in a row, which columns that part crosses,
//! and which column a piece of it is added to. Coordinates are binary32 values by their bits, counted from the first
//! column of the row, and what is accumulated is the caller's.
use crate::bits::{
    a_floor_keeps_its_sign, at_least, below, between, clamp, clamped, equal, extremes_are_by_number, finite, floor_wide,
    floored, greater_of, holding_is_by_number, larger, less, lesser_of, nan, number, order_is_by_number, reaches, same,
    smaller, whole_numbers_are_by_number, ONE,
};
use vstd::arithmetic::power2::{lemma_pow2_pos, pow2};
use vstd::prelude::*;

verus! {

/// The heights an edge has within a row.
pub open spec fn row_part(edge: (u32, u32), row: (u32, u32)) -> (u32, u32) {
    (
        if below(row.0, edge.0) {
            edge.0
        } else {
            row.0
        },
        if below(edge.1, row.1) {
            edge.1
        } else {
            row.1
        },
    )
}

/// The heights an edge has within a row, each from its top to its bottom; none where it has no height there.
pub fn within_row(edge: (u32, u32), row: (u32, u32)) -> (part: Option<(u32, u32)>)
    ensures
        part == (if below(row_part(edge, row).0, row_part(edge, row).1) {
            Some(row_part(edge, row))
        } else {
            None
        }),
{
    let from: u32 = if less(row.0, edge.0) {
        edge.0
    } else {
        row.0
    };
    let to: u32 = if less(edge.1, row.1) {
        edge.1
    } else {
        row.1
    };
    if less(from, to) {
        Some((from, to))
    } else {
        None
    }
}

/// How an edge crosses a row.
#[derive(Clone, Copy, PartialEq, Eq, Debug)]
pub enum Across {
    /// It has no height.
    Nothing,
    /// It is in one column.
    Upright,
    /// It goes from column to column: whether part of it is left of the first, whether it goes to the right, and the
    /// first and the last column it crosses, if it crosses any.
    Slanted { seeds: bool, rising: bool, columns: Option<(u64, u64)> },
}

/// The first and the last column a slanted edge crosses in a row of `width` columns, `end` being the width as a
/// number.
pub open spec fn crossed(low: u32, high: u32, width: u32, end: u32) -> Option<(int, int)> {
    if reaches(0, high) || reaches(low, end) {
        None
    } else {
        let last = floored(smaller(high, end));
        let edge = if width == 0 {
            0
        } else {
            width - 1
        };
        Some(
            (
                between(0, floored(larger(low, 0)), i64::MAX as int),
                between(0, last, edge as int),
            ),
        )
    }
}

/// How an edge from `x0` to `x1` crosses a row of `width` columns. The differences and `end`, the width as a number,
/// are the caller's.
pub fn across(x0: u32, x1: u32, dx: u32, dy: u32, width: u32, end: u32) -> (way: Across)
    requires
        finite(x0),
        finite(x1),
    ensures
        way == (if same(dy, 0) {
            Across::Nothing
        } else if same(dx, 0) {
            Across::Upright
        } else {
            let rising = below(x0, x1);
            let (low, high) = if rising {
                (x0, x1)
            } else {
                (x1, x0)
            };
            Across::Slanted {
                seeds: below(low, 0),
                rising,
                columns: match crossed(low, high, width, end) {
                    Some((first, last)) => Some((first as u64, last as u64)),
                    None => None,
                },
            }
        }),
{
    if equal(dy, 0) {
        return Across::Nothing;
    }
    if equal(dx, 0) {
        return Across::Upright;
    }
    let rising: bool = less(x0, x1);
    let (low, high): (u32, u32) = if rising {
        (x0, x1)
    } else {
        (x1, x0)
    };
    let seeds: bool = less(low, 0);
    if at_least(0, high) || at_least(low, end) {
        return Across::Slanted { seeds, rising, columns: None };
    }
    let first: i64 = floor_wide(greater_of(low, 0));
    assert(finite(smaller(high, end)));
    let reached: i64 = floor_wide(lesser_of(high, end));
    let edge: i64 = if width == 0 {
        0
    } else {
        width as i64 - 1
    };
    let last: i64 = if reached < 0 {
        0
    } else if reached > edge {
        edge
    } else {
        reached
    };
    let start: i64 = if first < 0 {
        0
    } else {
        first
    };
    Across::Slanted { seeds, rising, columns: Some((start as u64, last as u64)) }
}

/// The part of an edge that is left of the first column, by its parameter, `meets` being where it meets that column;
/// none where that is no part.
pub fn left_part(rising: bool, meets: u32) -> (part: Option<(u32, u32)>)
    ensures
        part == ({
            let ends = if rising {
                (0u32, clamped(meets, 0, ONE))
            } else {
                (clamped(meets, 0, ONE), ONE)
            };
            if below(ends.0, ends.1) {
                Some(ends)
            } else {
                None
            }
        }),
{
    let t: u32 = clamp(meets, 0, ONE);
    let (from, to): (u32, u32) = if rising {
        (0, t)
    } else {
        (t, ONE)
    };
    if less(from, to) {
        Some((from, to))
    } else {
        None
    }
}

/// The part of an edge between two parameters, within the edge.
pub open spec fn part_between(lower: u32, upper: u32) -> (u32, u32) {
    if reaches(upper, lower) {
        (larger(lower, 0), smaller(upper, ONE))
    } else {
        (larger(upper, 0), smaller(lower, ONE))
    }
}

/// The part of an edge that is in one column, from the parameters it meets the column's two sides at; none where
/// that is no part.
pub fn column_part(lower: u32, upper: u32) -> (part: Option<(u32, u32)>)
    ensures
        part == (if below(part_between(lower, upper).0, part_between(lower, upper).1) {
            Some(part_between(lower, upper))
        } else {
            None
        }),
{
    let (near, far): (u32, u32) = if at_least(upper, lower) {
        (lower, upper)
    } else {
        (upper, lower)
    };
    let from: u32 = greater_of(near, 0);
    let to: u32 = lesser_of(far, ONE);
    if less(from, to) {
        Some((from, to))
    } else {
        None
    }
}

/// Where a piece of an edge is added.
#[derive(Clone, Copy, PartialEq, Eq, Debug)]
pub enum Landed {
    /// It has no height, or is right of the row.
    Nothing,
    /// It covers every column.
    Left,
    Column(u64),
}

/// Where a piece of an edge is added, from the column it is in and its height.
pub fn land(column: u32, extent: u32, width: u32) -> (place: Landed)
    requires
        finite(column),
    ensures
        place == (if same(extent, 0) {
            Landed::Nothing
        } else if below(column, 0) {
            Landed::Left
        } else if floored(column) >= width {
            Landed::Nothing
        } else {
            Landed::Column(floored(column) as u64)
        }),
        place matches Landed::Column(index) ==> index < width,
{
    if equal(extent, 0) {
        return Landed::Nothing;
    }
    if less(column, 0) {
        return Landed::Left;
    }
    proof {
        a_floor_keeps_its_sign(column);
    }
    let index: i64 = floor_wide(column);
    if index >= width as i64 {
        Landed::Nothing
    } else {
        Landed::Column(index as u64)
    }
}

/// A part of an edge is within it: it goes from nothing or more to one or less.
pub proof fn a_part_is_within_its_edge(lower: u32, upper: u32)
    requires
        below(part_between(lower, upper).0, part_between(lower, upper).1),
    ensures
        reaches(part_between(lower, upper).0, 0),
        reaches(ONE, part_between(lower, upper).1),
{
}

/// A column an edge crosses is one of the row's.
pub proof fn a_crossed_column_is_in_the_row(low: u32, high: u32, width: u32, end: u32)
    requires
        width > 0,
    ensures
        crossed(low, high, width, end) matches Some((first, last)) ==> 0 <= first && 0 <= last < width,
{
}

/// The part of an edge in a row goes from the lower of their tops to the upper of their bottoms, and is none where that is
/// no height.
pub proof fn a_row_has_the_heights_both_have(edge: (u32, u32), row: (u32, u32), part: Option<(u32, u32)>)
    requires
        call_ensures(within_row, (edge, row), part),
        finite(edge.0) && finite(edge.1) && finite(row.0) && finite(row.1),
    ensures
        ({
            let top = if number(edge.0) > number(row.0) {
                number(edge.0)
            } else {
                number(row.0)
            };
            let bottom = if number(edge.1) < number(row.1) {
                number(edge.1)
            } else {
                number(row.1)
            };
            match part {
                Some((from, to)) => number(from) == top && number(to) == bottom && top < bottom,
                None => top >= bottom,
            }
        }),
{
    order_is_by_number(row.0, edge.0);
    order_is_by_number(edge.1, row.1);
    let (from, to) = row_part(edge, row);
    order_is_by_number(from, to);
}

/// An edge crosses the columns it has a point in, and no other: column `c` is among them where the edge starts left of the
/// column's right side and ends right of its left side. Part of it is left of the first column where its left end is, and
/// it rises where its second end is right of its first.
pub proof fn an_edge_crosses_the_columns_it_is_in(
    x0: u32,
    x1: u32,
    dx: u32,
    dy: u32,
    width: u32,
    end: u32,
    way: Across,
    c: int,
)
    requires
        call_ensures(across, (x0, x1, dx, dy, width, end), way),
        finite(x0) && finite(x1) && finite(end) && !nan(dx) && !nan(dy),
        number(dx) != 0 && number(dy) != 0,
        number(end) == width * pow2(149),
        0 <= c < width,
    ensures
        ({
            let (low, high) = if number(x0) < number(x1) {
                (number(x0), number(x1))
            } else {
                (number(x1), number(x0))
            };
            let unit = pow2(149) as int;
            way matches Across::Slanted { seeds, rising, columns } && {
                &&& seeds <==> low < 0
                &&& rising <==> number(x0) < number(x1)
                &&& low < (c + 1) * unit && high > c * unit ==> (columns matches Some((first, last)) && first <= c && c
                    <= last)
                &&& (columns matches Some((first, last)) && first <= c && c <= last) ==> low < (c + 1) * unit && high
                    >= c * unit
            }
        }),
{
    let unit = pow2(149) as int;
    lemma_pow2_pos(149);
    order_is_by_number(dy, 0);
    order_is_by_number(dx, 0);
    order_is_by_number(x0, x1);
    assert(number(0) == 0);
    let rising = below(x0, x1);
    let (low, high) = if rising {
        (x0, x1)
    } else {
        (x1, x0)
    };
    order_is_by_number(low, 0);
    order_is_by_number(0, high);
    order_is_by_number(low, end);
    extremes_are_by_number(low, 0);
    extremes_are_by_number(high, end);
    let (start, stop) = (larger(low, 0), smaller(high, end));
    whole_numbers_are_by_number(start);
    whole_numbers_are_by_number(stop);
    assert(0 <= c * unit < (c + 1) * unit && (c + 1) * unit <= width * unit) by (nonlinear_arith)
        requires
            0 <= c < width,
            unit > 0,
    ;
    let (f, l) = (floored(start), floored(stop));
    if crossed(low, high, width, end) is Some {
        order_is_by_number(start, 0);
        order_is_by_number(start, low);
        order_is_by_number(stop, high);
        order_is_by_number(stop, end);
        assert(number(start) == number(low) || number(start) == 0);
        assert(number(stop) == number(high) || number(stop) == number(end));
        assert(f >= 0) by (nonlinear_arith)
            requires
                number(start) < (f + 1) * unit,
                number(start) >= 0,
                unit > 0,
        ;
        assert(f < width) by (nonlinear_arith)
            requires
                f * unit <= number(start),
                number(start) < width * unit,
                unit > 0,
        ;
        assert(l >= 0) by (nonlinear_arith)
            requires
                number(stop) < (l + 1) * unit,
                number(stop) >= 0,
                unit > 0,
        ;
        if number(low) < (c + 1) * unit && number(high) > c * unit {
            assert(f <= c) by (nonlinear_arith)
                requires
                    f * unit <= number(start),
                    number(start) < (c + 1) * unit,
                    unit > 0,
            ;
            assert(c <= l) by (nonlinear_arith)
                requires
                    number(stop) < (l + 1) * unit,
                    number(stop) >= c * unit,
                    unit > 0,
            ;
        }
        if f <= c {
            assert(number(start) < (c + 1) * unit) by (nonlinear_arith)
                requires
                    number(start) < (f + 1) * unit,
                    f <= c,
                    unit > 0,
            ;
        }
        if c <= l {
            assert(number(stop) >= c * unit) by (nonlinear_arith)
                requires
                    l * unit <= number(stop),
                    c <= l,
                    unit > 0,
            ;
        }
    } else {
        assert(!(number(low) < (c + 1) * unit && number(high) > c * unit)) by {
            if number(high) > c * unit {
                assert(number(low) >= number(end));
            }
        }
    }
}

/// The part of an edge left of the first column is the part before it meets the column where it rises, and the part after
/// it where it falls, within the edge.
pub proof fn the_left_part_is_before_the_column(rising: bool, meets: u32, part: Option<(u32, u32)>)
    requires
        call_ensures(left_part, (rising, meets), part),
        !nan(meets),
    ensures
        ({
            let one = number(0x3F80_0000);
            let at = if number(meets) < 0 {
                0
            } else if number(meets) > one {
                one
            } else {
                number(meets)
            };
            match part {
                Some((from, to)) => if rising {
                    number(from) == 0 && number(to) == at && at > 0
                } else {
                    number(from) == at && number(to) == one && at < one
                },
                None => if rising {
                    at == 0
                } else {
                    at == one
                },
            }
        }),
{
    assert(number(0) == 0);
    order_is_by_number(0, ONE);
    holding_is_by_number(meets, 0, ONE);
    let t = clamped(meets, 0, ONE);
    order_is_by_number(0, t);
    order_is_by_number(t, ONE);
}

/// The part of an edge in a column is between the two places it meets the column's sides at, whichever it meets first,
/// within the edge, and none where that is no part.
pub proof fn a_column_part_is_between_its_sides(lower: u32, upper: u32, part: Option<(u32, u32)>)
    requires
        call_ensures(column_part, (lower, upper), part),
        !nan(lower) && !nan(upper),
    ensures
        ({
            let (a, b) = if number(lower) < number(upper) {
                (number(lower), number(upper))
            } else {
                (number(upper), number(lower))
            };
            let one = number(0x3F80_0000);
            let (start, stop) = (
                if a < 0 {
                    0
                } else {
                    a
                },
                if b > one {
                    one
                } else {
                    b
                },
            );
            match part {
                Some((from, to)) => number(from) == start && number(to) == stop && start < stop,
                None => start >= stop,
            }
        }),
{
    assert(number(0) == 0);
    order_is_by_number(upper, lower);
    let (near, far) = if reaches(upper, lower) {
        (lower, upper)
    } else {
        (upper, lower)
    };
    extremes_are_by_number(near, 0);
    extremes_are_by_number(far, ONE);
    let (from, to) = (larger(near, 0), smaller(far, ONE));
    order_is_by_number(from, to);
}

/// A piece of an edge is added to the column it is in, to every column where it is left of the first, and to none where it
/// is right of the last or has no height.
pub proof fn a_piece_lands_in_its_column(column: u32, extent: u32, width: u32, place: Landed)
    requires
        call_ensures(land, (column, extent, width), place),
        finite(column),
        !nan(extent),
    ensures
        number(extent) == 0 ==> place is Nothing,
        number(extent) != 0 && number(column) < 0 ==> place is Left,
        number(extent) != 0 && number(column) >= 0 ==> match place {
            Landed::Column(index) => index * pow2(149) <= number(column) < (index + 1) * pow2(149) && index < width,
            Landed::Nothing => number(column) >= width * pow2(149),
            Landed::Left => false,
        },
{
    assert(number(0) == 0);
    order_is_by_number(extent, 0);
    order_is_by_number(column, 0);
    whole_numbers_are_by_number(column);
    let (f, unit) = (floored(column), pow2(149) as int);
    lemma_pow2_pos(149);
    if number(column) >= 0 {
        a_floor_keeps_its_sign(column);
        if f >= width {
            assert(number(column) >= width * unit) by (nonlinear_arith)
                requires
                    f * unit <= number(column),
                    f >= width,
                    unit > 0,
            ;
        }
    }
}

} // verus!
