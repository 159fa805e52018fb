//! The rectangle around points. Points are binary32 values by their bits, and are compared and never computed with.
use super::raster::Point;
use crate::bits::{
    at_least, finite, greater_of, is_finite, larger, lesser_of, nan, number, order_is_by_number, reaches, smaller,
};
use vstd::prelude::*;

verus! {

/// Above every number.
pub const INFINITY: u32 = 0x7F80_0000;

/// Below every number.
pub const NEGATIVE_INFINITY: u32 = 0xFF80_0000;

/// The least and the greatest coordinates that were met.
#[derive(Clone, Copy, PartialEq, Eq, Debug)]
pub struct Extremes {
    pub low: Point,
    pub high: Point,
}

impl Extremes {
    /// The extremes with one more point met.
    pub open spec fn with(self, point: Point) -> Extremes {
        Extremes {
            low: (smaller(self.low.0, point.0), smaller(self.low.1, point.1)),
            high: (larger(self.high.0, point.0), larger(self.high.1, point.1)),
        }
    }

    /// Whether a point is between them.
    pub open spec fn hold(self, point: Point) -> bool {
        &&& reaches(point.0, self.low.0) && reaches(self.high.0, point.0)
        &&& reaches(point.1, self.low.1) && reaches(self.high.1, point.1)
    }

    fn met(self, point: Point) -> (grown: Extremes)
        ensures
            grown == self.with(point),
    {
        Extremes {
            low: (lesser_of(self.low.0, point.0), lesser_of(self.low.1, point.1)),
            high: (greater_of(self.high.0, point.0), greater_of(self.high.1, point.1)),
        }
    }
}

/// The extremes of points, those that are not there left out.
pub open spec fn extremes(points: Seq<Option<Point>>) -> Extremes
    decreases points.len(),
{
    if points.len() == 0 {
        Extremes { low: (INFINITY, INFINITY), high: (NEGATIVE_INFINITY, NEGATIVE_INFINITY) }
    } else {
        match points.last() {
            Some(point) => extremes(points.drop_last()).with(point),
            None => extremes(points.drop_last()),
        }
    }
}

/// A point of a contour, where both its coordinates are finite.
pub open spec fn usable(point: Point) -> Option<Point> {
    if finite(point.0) && finite(point.1) {
        Some(point)
    } else {
        None
    }
}

/// The points of a contour, those that are not finite left out.
pub open spec fn usable_points(contour: Seq<Point>) -> Seq<Option<Point>> {
    Seq::new(contour.len(), |i: int| usable(contour[i]))
}

/// The points of the first `count` contours.
pub open spec fn flat(contours: Seq<Vec<Point>>, count: nat) -> Seq<Option<Point>>
    decreases count,
{
    if count == 0 {
        Seq::empty()
    } else {
        flat(contours, (count - 1) as nat) + usable_points(contours[count - 1]@)
    }
}

/// The rectangle a set of contours covers, by its least and its greatest corner. Contours without a finite point
/// cover nothing.
pub fn contour_bounds(contours: &[Vec<Point>]) -> (bounds: Option<Extremes>)
    ensures
        ({
            let found = extremes(flat(contours@, contours@.len()));
            bounds == if reaches(found.high.0, found.low.0) && reaches(found.high.1, found.low.1) {
                Some(found)
            } else {
                None
            }
        }),
{
    let mut found = Extremes { low: (INFINITY, INFINITY), high: (NEGATIVE_INFINITY, NEGATIVE_INFINITY) };
    let mut next: usize = 0;
    while next < contours.len()
        invariant
            next <= contours@.len(),
            found == extremes(flat(contours@, next as nat)),
        decreases contours@.len() - next,
    {
        let contour: &Vec<Point> = &contours[next];
        let ghost before = flat(contours@, next as nat);
        let mut index: usize = 0;
        assert(before + usable_points(contour@).take(0) =~= before);
        while index < contour.len()
            invariant
                index <= contour@.len(),
                found == extremes(before + usable_points(contour@).take(index as int)),
            decreases contour@.len() - index,
        {
            let point: Point = contour[index];
            let ghost after = before + usable_points(contour@).take(index + 1);
            assert(after.drop_last() =~= before + usable_points(contour@).take(index as int));
            assert(after.last() == usable(point));
            if is_finite(point.0) && is_finite(point.1) {
                found = found.met(point);
            }
            index = index + 1;
        }
        assert(usable_points(contour@).take(index as int) =~= usable_points(contour@));
        next = next + 1;
    }
    if at_least(found.high.0, found.low.0) && at_least(found.high.1, found.low.1) {
        Some(found)
    } else {
        None
    }
}

/// The rectangle a glyph run covers, by its least and its greatest corner: around the corners of its glyphs, each
/// absent where the transform has no point for it.
pub fn glyph_run_bounds(corners: &[Option<Point>]) -> (bounds: Option<Extremes>)
    ensures
        bounds == if reaches(extremes(corners@).high.0, extremes(corners@).low.0) {
            Some(extremes(corners@))
        } else {
            None
        },
{
    let mut found = Extremes { low: (INFINITY, INFINITY), high: (NEGATIVE_INFINITY, NEGATIVE_INFINITY) };
    let mut next: usize = 0;
    assert(corners@.take(0) =~= Seq::<Option<Point>>::empty());
    while next < corners.len()
        invariant
            next <= corners@.len(),
            found == extremes(corners@.take(next as int)),
        decreases corners@.len() - next,
    {
        assert(corners@.take(next + 1).drop_last() =~= corners@.take(next as int));
        if let Some(point) = corners[next] {
            found = found.met(point);
        }
        next = next + 1;
    }
    assert(corners@.take(next as int) =~= corners@);
    if at_least(found.high.0, found.low.0) {
        Some(found)
    } else {
        None
    }
}

/// Every point that is there and is a number is between the extremes of the points.
pub proof fn extremes_hold_every_point(points: Seq<Option<Point>>, i: int)
    requires
        0 <= i < points.len(),
        points[i] matches Some(point) && !nan(point.0) && !nan(point.1),
    ensures
        extremes(points).hold(points[i]->0),
    decreases points.len(),
{
    extremes_are_numbers(points.drop_last());
    if i < points.len() - 1 {
        extremes_hold_every_point(points.drop_last(), i);
        assert(points.drop_last()[i] == points[i]);
    }
}

/// Extremes are never a NaN.
proof fn extremes_are_numbers(points: Seq<Option<Point>>)
    ensures
        !nan(extremes(points).low.0),
        !nan(extremes(points).low.1),
        !nan(extremes(points).high.0),
        !nan(extremes(points).high.1),
    decreases points.len(),
{
    if points.len() > 0 {
        extremes_are_numbers(points.drop_last());
    }
}

/// A finite point of a contour is inside the bounds of the contours, which are then there.
pub proof fn contours_lie_in_their_bounds(contours: Seq<Vec<Point>>, which: int, i: int)
    requires
        0 <= which < contours.len(),
        0 <= i < contours[which]@.len(),
        usable(contours[which]@[i]) is Some,
    ensures
        ({
            let found = extremes(flat(contours, contours.len()));
            &&& found.hold(contours[which]@[i])
            &&& reaches(found.high.0, found.low.0)
            &&& reaches(found.high.1, found.low.1)
        }),
{
    let at = in_the_flat(contours, contours.len(), which, i);
    extremes_hold_every_point(flat(contours, contours.len()), at);
}

/// Where a point of a contour stands among all the points.
proof fn in_the_flat(contours: Seq<Vec<Point>>, count: nat, which: int, i: int) -> (at: int)
    requires
        0 <= which < count <= contours.len(),
        0 <= i < contours[which]@.len(),
    ensures
        0 <= at < flat(contours, count).len(),
        flat(contours, count)[at] == usable(contours[which]@[i]),
    decreases count,
{
    let before = flat(contours, (count - 1) as nat);
    if which == count - 1 {
        before.len() + i
    } else {
        in_the_flat(contours, (count - 1) as nat, which, i)
    }
}

/// The extremes of points are reached: the least and the greatest coordinate on either axis are some point's.
pub proof fn extremes_are_reached(points: Seq<Option<Point>>, i: int)
    requires
        0 <= i < points.len(),
        points[i] is Some,
        forall|k: int|
            0 <= k < points.len() ==> ((#[trigger] points[k]) matches Some(point) ==> finite(point.0) && finite(point.1)),
    ensures
        ({
            let found = extremes(points);
            let at = points[i]->0;
            &&& number(found.low.0) <= number(at.0) <= number(found.high.0)
            &&& number(found.low.1) <= number(at.1) <= number(found.high.1)
            &&& is_met(points, found.low.0, true) && is_met(points, found.high.0, true)
            &&& is_met(points, found.low.1, false) && is_met(points, found.high.1, false)
        }),
{
    extremes_hold_every_point(points, i);
    let (found, at) = (extremes(points), points[i]->0);
    order_is_by_number(at.0, found.low.0);
    order_is_by_number(found.high.0, at.0);
    order_is_by_number(at.1, found.low.1);
    order_is_by_number(found.high.1, at.1);
    extremes_are_some_points(points);
    an_infinity_is_past_a_point(points, i);
}

/// Whether a value is some point's coordinate on an axis.
pub open spec fn is_met(points: Seq<Option<Point>>, value: u32, across: bool) -> bool {
    exists|k: int|
        0 <= k < points.len() && match #[trigger] points[k] {
            Some(point) => value == if across {
                point.0
            } else {
                point.1
            },
            None => false,
        }
}

proof fn extremes_are_some_points(points: Seq<Option<Point>>)
    ensures
        extremes(points).low.0 == INFINITY || is_met(points, extremes(points).low.0, true),
        extremes(points).low.1 == INFINITY || is_met(points, extremes(points).low.1, false),
        extremes(points).high.0 == NEGATIVE_INFINITY || is_met(points, extremes(points).high.0, true),
        extremes(points).high.1 == NEGATIVE_INFINITY || is_met(points, extremes(points).high.1, false),
    decreases points.len(),
{
    if points.len() > 0 {
        let rest = points.drop_last();
        extremes_are_some_points(rest);
        let last = points.len() - 1;
        assert forall|value: u32, across: bool| is_met(rest, value, across) implies is_met(points, value, across) by {
            let k = choose|k: int|
                0 <= k < rest.len() && match #[trigger] rest[k] {
                    Some(point) => value == if across {
                        point.0
                    } else {
                        point.1
                    },
                    None => false,
                };
            assert(points[k] == rest[k]);
        }
        if let Some(point) = points[last] {
            assert(is_met(points, point.0, true) && is_met(points, point.1, false)) by {
                assert(points[last] is Some);
            }
        }
    }
}

proof fn an_infinity_is_past_a_point(points: Seq<Option<Point>>, i: int)
    requires
        0 <= i < points.len(),
        points[i] matches Some(point) && finite(point.0) && finite(point.1),
    ensures
        extremes(points).low.0 != INFINITY,
        extremes(points).low.1 != INFINITY,
        extremes(points).high.0 != NEGATIVE_INFINITY,
        extremes(points).high.1 != NEGATIVE_INFINITY,
{
    extremes_hold_every_point(points, i);
}

} // verus!
