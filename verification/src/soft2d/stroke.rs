//! Strokes as outlines to fill: which parts an outline is made of and in what order, and the pieces a dash
//! pattern leaves.
//!
//! Points are pairs of binary32 values by their bits. Normals, arcs and lengths are floating point and the
//! caller's.
use super::raster::Point;
use crate::bits::{
    at_least, below, extremes_are_by_number, finite, greater_of, is_finite, larger, less, nan, number, order_is_by_number,
    reaches,
};
use vstd::prelude::*;

verus! {

/// How an open stroke ends.
#[derive(Clone, Copy, PartialEq, Eq, Structural, Debug)]
pub enum Cap {
    Butt,
    Round,
    Square,
}

/// How two segments of a stroke meet.
#[derive(Clone, Copy, PartialEq, Eq, Structural, Debug)]
pub enum Join {
    Bevel,
    Round,
    Miter,
}

/// What the outline of a contour is made of.
#[derive(Clone, Copy, PartialEq, Eq, Debug)]
pub enum Plan {
    /// Nothing.
    Nothing,
    /// A circle around a point.
    Circle(Point),
    /// A square around a point.
    Square(Point),
    /// Two loops, the outer side and the inner, wound oppositely.
    TwoLoops,
    /// One loop: down one side, round a cap, back the other side, round the other cap.
    OneLoop,
}

/// What the outline of a contour is made of, its repeated points dropped. A single point is a dot under a round
/// or a square cap and nothing under a butt one.
pub fn plan(points: &[Point], closed: bool, cap: Cap) -> (made: Plan)
    ensures
        made == (if points@.len() == 0 {
            Plan::Nothing
        } else if points@.len() == 1 {
            match cap {
                Cap::Round => Plan::Circle(points@[0]),
                Cap::Square => Plan::Square(points@[0]),
                Cap::Butt => Plan::Nothing,
            }
        } else if closed {
            Plan::TwoLoops
        } else {
            Plan::OneLoop
        }),
{
    if points.len() == 0 {
        Plan::Nothing
    } else if points.len() == 1 {
        match cap {
            Cap::Round => Plan::Circle(points[0]),
            Cap::Square => Plan::Square(points[0]),
            Cap::Butt => Plan::Nothing,
        }
    } else if closed {
        Plan::TwoLoops
    } else {
        Plan::OneLoop
    }
}

/// Whether a stroke of half a width draws anything.
pub fn has_width(half: u32) -> (draws: bool)
    ensures
        draws == (finite(half) && below(0, half)),
{
    is_finite(half) && less(0, half)
}

/// The points of a contour in the other direction.
pub fn reversed(points: &[Point]) -> (back: Vec<Point>)
    ensures
        back@ == points@.reverse(),
{
    let mut back: Vec<Point> = Vec::new();
    let mut left: usize = points.len();
    while left > 0
        invariant
            left <= points@.len(),
            back@.len() == points@.len() - left,
            forall|i: int| 0 <= i < back@.len() ==> #[trigger] back@[i] == points@[points@.len() - 1 - i],
        decreases left,
    {
        left = left - 1;
        back.push(points[left]);
    }
    assert(back@ =~= points@.reverse());
    back
}

/// The one loop of an open stroke: a side, the cap at its end, the other side, and the cap at the start.
pub fn open_loop(side: &[Point], end_cap: &[Point], back: &[Point], start_cap: &[Point]) -> (points: Vec<Point>)
    ensures
        points@ == side@ + end_cap@ + back@ + start_cap@,
{
    let mut points: Vec<Point> = Vec::new();
    append(&mut points, side);
    append(&mut points, end_cap);
    append(&mut points, back);
    append(&mut points, start_cap);
    assert(points@ =~= side@ + end_cap@ + back@ + start_cap@);
    points
}

fn append(points: &mut Vec<Point>, more: &[Point])
    ensures
        final(points)@ == old(points)@ + more@,
{
    let mut next: usize = 0;
    while next < more.len()
        invariant
            next <= more@.len(),
            points@ == old(points)@ + more@.take(next as int),
        decreases more@.len() - next,
    {
        points.push(more[next]);
        assert(old(points)@ + more@.take(next as int + 1) =~= (old(points)@ + more@.take(next as int)).push(
            more@[next as int],
        ));
        next = next + 1;
    }
    assert(more@.take(next as int) =~= more@);
}

/// A segment of a side, and the point after it where there is a corner to join.
#[derive(Clone, Copy, PartialEq, Eq, Structural, Debug)]
pub struct Segment {
    pub from: usize,
    pub to: usize,
    pub next: Option<usize>,
}

/// The segment of a side that starts at a point of `count`. The last segment of a closed side ends where the
/// first starts, and every corner of it is joined; an open side has no corner at its end.
pub open spec fn segment_at(count: int, closed: bool, index: int) -> Segment {
    Segment {
        from: index as usize,
        to: if index + 1 < count {
            (index + 1) as usize
        } else {
            0
        },
        next: if closed {
            Some(
                (if index + 2 < count {
                    index + 2
                } else {
                    index + 2 - count
                }) as usize,
            )
        } else if index + 2 < count {
            Some((index + 2) as usize)
        } else {
            None
        },
    }
}

/// The segments of one side of a contour, in order.
pub fn offset_side(count: usize, closed: bool) -> (segments: Vec<Segment>)
    requires
        2 <= count < usize::MAX - 1,
    ensures
        segments@ == Seq::new(
            (if closed {
                count as int
            } else {
                count - 1
            }) as nat,
            |i: int| segment_at(count as int, closed, i),
        ),
{
    let total: usize = if closed {
        count
    } else {
        count - 1
    };
    let mut segments: Vec<Segment> = Vec::new();
    let mut index: usize = 0;
    while index < total
        invariant
            index <= total,
            total == (if closed {
                count as int
            } else {
                count - 1
            }),
            2 <= count < usize::MAX - 1,
            segments@.len() == index,
            forall|i: int| 0 <= i < index ==> #[trigger] segments@[i] == segment_at(count as int, closed, i),
        decreases total - index,
    {
        let to: usize = if index + 1 < count {
            index + 1
        } else {
            0
        };
        let next: Option<usize> = if closed {
            Some(
                if index + 2 < count {
                    index + 2
                } else {
                    index + 2 - count
                },
            )
        } else if index + 2 < count {
            Some(index + 2)
        } else {
            None
        };
        segments.push(Segment { from: index, to, next });
        index = index + 1;
    }
    assert(segments@ =~= Seq::new(total as nat, |i: int| segment_at(count as int, closed, i)));
    segments
}

/// Every corner is joined where its segments meet: the point after a segment is where the segment that follows
/// it ends.
pub proof fn a_corner_is_between_neighbours(count: int, closed: bool, index: int)
    requires
        2 <= count <= usize::MAX,
        0 <= index < count - 1 || (closed && index == count - 1),
        segment_at(count, closed, index).next is Some,
    ensures
        ({
            let here = segment_at(count, closed, index);
            let there = segment_at(count, closed, here.to as int);
            &&& there.from == here.to
            &&& here.next == Some(there.to)
        }),
{
}

/// What a corner is filled with.
#[derive(Clone, Copy, PartialEq, Eq, Structural, Debug)]
pub enum Corner {
    /// Nothing: the inner side, or a bevel, which the outline closes by itself.
    Nothing,
    /// An arc.
    Arc,
    /// A point, if it is within the limit.
    Spike,
}

/// What a corner is filled with, by the sign of its turn.
pub fn corner(cross: u32, join: Join) -> (filled: Corner)
    ensures
        filled == (if reaches(0, cross) {
            Corner::Nothing
        } else {
            match join {
                Join::Bevel => Corner::Nothing,
                Join::Round => Corner::Arc,
                Join::Miter => Corner::Spike,
            }
        }),
{
    if at_least(0, cross) {
        return Corner::Nothing;
    }
    match join {
        Join::Bevel => Corner::Nothing,
        Join::Round => Corner::Arc,
        Join::Miter => Corner::Spike,
    }
}

/// Whether a spike is drawn: one with a direction, in front, and no longer than the limit. A longer one is left
/// a bevel.
pub fn spike(length: u32, cosine: u32, reach: u32, limit: u32) -> (drawn: bool)
    ensures
        drawn == (finite(length) && below(0, length) && !reaches(0, cosine) && !below(limit, reach)),
{
    is_finite(length) && less(0, length) && !at_least(0, cosine) && !less(limit, reach)
}

/// How many segments an arc becomes: two for a radius too small to see, else no fewer than four and no more
/// than two hundred and fifty-six.
pub fn arc_steps(radius: u32, tolerance: u32, wanted: u32) -> (steps: u32)
    ensures
        steps == (if !(finite(radius) && below(tolerance, radius)) {
            2
        } else if wanted < 4 {
            4
        } else if wanted > 256 {
            256
        } else {
            wanted
        }),
{
    if !(is_finite(radius) && less(tolerance, radius)) {
        2
    } else if wanted < 4 {
        4
    } else if wanted > 256 {
        256
    } else {
        wanted
    }
}

// ---------------------------------------------------------------------------------------------
// Repeated points.
// ---------------------------------------------------------------------------------------------
/// The points of a contour without those that repeat the one before.
#[derive(Debug)]
pub struct Distinct {
    pub points: Vec<Point>,
}

impl Distinct {
    pub fn new() -> (made: Distinct)
        ensures
            made.points@.len() == 0,
    {
        Distinct { points: Vec::new() }
    }

    /// The last point kept, which the next is compared with.
    pub fn last(&self) -> (point: Option<Point>)
        ensures
            point == (if self.points@.len() == 0 {
                None
            } else {
                Some(self.points@.last())
            }),
    {
        let count: usize = self.points.len();
        if count == 0 {
            None
        } else {
            Some(self.points[count - 1])
        }
    }

    /// Offer the next point, and whether it is near the last one kept. One that is not finite is dropped, and one
    /// that repeats the last.
    pub fn offer(&mut self, point: Point, near: bool)
        ensures
            final(self).points@ == (if !finite(point.0) || !finite(point.1) || (near && old(self).points@.len()
                > 0) {
                old(self).points@
            } else {
                old(self).points@.push(point)
            }),
    {
        if !is_finite(point.0) || !is_finite(point.1) {
            return;
        }
        if near && self.points.len() > 0 {
            return;
        }
        self.points.push(point);
    }
}

// ---------------------------------------------------------------------------------------------
// Dashes.
// ---------------------------------------------------------------------------------------------
/// A contour being cut: whether the pattern starts with a dash or a gap, and segment by segment where it
/// changes.
#[derive(Debug)]
pub struct Walk {
    /// The points of the contour, the first again at the end where it is closed.
    pub points: Vec<Point>,
    /// Whether the pattern starts with a dash.
    pub on: bool,
    /// Where the pattern changes on each segment, in order; none for a segment of no length.
    pub cuts: Vec<Option<Vec<Point>>>,
}

/// The dashes so far, and the one being drawn.
#[verifier::ext_equal]
pub ghost struct Pieces {
    pub on: bool,
    pub current: Seq<Point>,
    pub out: Seq<Seq<Point>>,
}

impl Pieces {
    /// The pattern changes at a point: a dash ends there, or one starts.
    pub open spec fn changed(self, point: Point) -> Pieces {
        if self.on {
            Pieces { on: false, current: Seq::empty(), out: self.out.push(self.current.push(point)) }
        } else {
            Pieces { on: true, current: seq![point], out: self.out }
        }
    }

    /// The pattern changes at each of the first `count` points.
    pub open spec fn all_changed(self, points: Seq<Point>, count: nat) -> Pieces
        decreases count,
    {
        if count == 0 {
            self
        } else {
            self.all_changed(points, (count - 1) as nat).changed(points[count - 1])
        }
    }

    /// A segment ends at a point.
    pub open spec fn reached(self, point: Point) -> Pieces {
        if self.on {
            Pieces { current: self.current.push(point), ..self }
        } else {
            self
        }
    }

    /// The first `count` segments of a walk.
    pub open spec fn walked(self, walk: Walk, count: nat) -> Pieces
        decreases count,
    {
        if count == 0 {
            self
        } else {
            let before = self.walked(walk, (count - 1) as nat);
            match walk.cuts@[count - 1] {
                None => before,
                Some(points) => before.all_changed(points@, points@.len()).reached(walk.points@[count as int]),
            }
        }
    }

    /// The end of a contour: a dash that is longer than a point is one.
    pub open spec fn ended(self) -> Seq<Seq<Point>> {
        if self.on && self.current.len() > 1 {
            self.out.push(self.current)
        } else {
            self.out
        }
    }
}

/// Where a walk starts, after earlier contours gave `out`.
pub open spec fn begun(walk: Walk, out: Seq<Seq<Point>>) -> Pieces {
    Pieces {
        on: walk.on,
        current: if walk.on {
            seq![walk.points@[0]]
        } else {
            Seq::empty()
        },
        out,
    }
}

/// Whether a walk has two points, and an entry for every segment.
pub open spec fn walkable(walk: Walk) -> bool {
    walk.points@.len() >= 2 && walk.cuts@.len() == walk.points@.len() - 1
}

/// The dashes of the first `count` walks. A contour of one point leaves none.
pub open spec fn dashes(walks: Seq<Walk>, count: nat) -> Seq<Seq<Point>>
    decreases count,
{
    if count == 0 {
        Seq::empty()
    } else {
        let before = dashes(walks, (count - 1) as nat);
        let walk = walks[count - 1];
        if walkable(walk) {
            begun(walk, before).walked(walk, walk.cuts@.len()).ended()
        } else {
            before
        }
    }
}

/// Lists of points as mathematics.
pub open spec fn lines(lists: Seq<Vec<Point>>) -> Seq<Seq<Point>> {
    Seq::new(lists.len(), |i: int| lists[i]@)
}

/// The pieces a dash pattern leaves of a set of contours.
pub fn dashed(walks: &[Walk]) -> (pieces: Vec<Vec<Point>>)
    ensures
        lines(pieces@) == dashes(walks@, walks@.len()),
{
    let mut out: Vec<Vec<Point>> = Vec::new();
    let mut next: usize = 0;
    assert(lines(out@) =~= Seq::<Seq<Point>>::empty());
    while next < walks.len()
        invariant
            next <= walks@.len(),
            lines(out@) == dashes(walks@, next as nat),
        decreases walks@.len() - next,
    {
        let walk = &walks[next];
        if walk.points.len() >= 2 && walk.cuts.len() == walk.points.len() - 1 {
            dash_contour(walk, &mut out);
        }
        next = next + 1;
    }
    out
}

fn dash_contour(walk: &Walk, out: &mut Vec<Vec<Point>>)
    requires
        walkable(*walk),
    ensures
        lines(final(out)@) == begun(*walk, lines(old(out)@)).walked(*walk, walk.cuts@.len()).ended(),
{
    let mut on: bool = walk.on;
    let mut current: Vec<Point> = Vec::new();
    if on {
        current.push(walk.points[0]);
    }
    let ghost start = begun(*walk, lines(out@));
    assert(current@ =~= start.current);
    let mut index: usize = 0;
    while index < walk.cuts.len()
        invariant
            index <= walk.cuts@.len(),
            walkable(*walk),
            start.walked(*walk, index as nat) == (Pieces { on, current: current@, out: lines(out@) }),
        decreases walk.cuts@.len() - index,
    {
        let ghost before = start.walked(*walk, index as nat);
        if let Some(points) = &walk.cuts[index] {
            let mut cut: usize = 0;
            while cut < points.len()
                invariant
                    cut <= points@.len(),
                    before.all_changed(points@, cut as nat) == (Pieces {
                        on,
                        current: current@,
                        out: lines(out@),
                    }),
                decreases points@.len() - cut,
            {
                let point = points[cut];
                let ghost earlier = lines(out@);
                if on {
                    current.push(point);
                    let ghost dash = current@;
                    out.push(current);
                    current = Vec::new();
                    assert(lines(out@) =~= earlier.push(dash));
                } else {
                    current.clear();
                    current.push(point);
                    assert(current@ =~= seq![point]);
                }
                on = !on;
                cut = cut + 1;
            }
            if on {
                current.push(walk.points[index + 1]);
            }
        }
        index = index + 1;
    }
    if on && current.len() > 1 {
        let ghost earlier = lines(out@);
        let ghost dash = current@;
        out.push(current);
        assert(lines(out@) =~= earlier.push(dash));
    }
}

/// Whether a length is one: a finite number above nothing.
pub open spec fn measured(length: u32) -> bool {
    finite(length) && below(0, length)
}

/// Whether a length is one. Only such entries of a pattern count toward its whole, and only such a segment is walked.
pub fn measures(length: u32) -> (answer: bool)
    ensures
        answer == measured(length),
{
    is_finite(length) && less(0, length)
}

/// How often a pattern of so many entries is gone through before it repeats: an odd one swaps its dashes and its
/// gaps each time.
pub fn repeats(entries: usize) -> (times: u32)
    ensures
        times == (if entries as int % 2 == 1 {
            2int
        } else {
            1
        }),
{
    if entries % 2 == 1 {
        2
    } else {
        1
    }
}

/// A walk along a dash pattern: how many entries are behind, and how much of the one under way is left.
#[derive(Debug)]
pub struct Dasher {
    pub pattern: Vec<u32>,
    /// What the entries that count sum to.
    pub total: u32,
    pub index: usize,
    pub left: u32,
}

impl Dasher {
    /// A pattern that can be walked has an entry, and a length.
    pub open spec fn wf(self) -> bool {
        self.pattern@.len() > 0 && measured(self.total)
    }

    /// The length of an entry, no less than nothing. Behind the last comes the first again.
    pub open spec fn entry_at(self, index: int) -> u32 {
        larger(self.pattern@[index % self.pattern@.len() as int], 0)
    }

    /// What is walked of an entry: its length, or the whole of the pattern where that is nothing.
    pub open spec fn walked_of(self, index: int) -> u32 {
        if reaches(0, self.entry_at(index)) {
            self.total
        } else {
            self.entry_at(index)
        }
    }

    /// The start of a pattern; none where it has no length, and then what it is laid on stays whole.
    pub fn new(pattern: Vec<u32>, total: u32) -> (made: Option<Dasher>)
        ensures
            match made {
                Some(dasher) => dasher.wf() && dasher.pattern@ == pattern@ && dasher.total == total && dasher.index
                    == 0 && dasher.left == dasher.entry_at(0),
                None => pattern@.len() == 0 || !measured(total),
            },
    {
        if pattern.len() == 0 || !measures(total) {
            return None;
        }
        let left: u32 = greater_of(pattern[0], 0);
        Some(Dasher { pattern, total, index: 0, left })
    }

    /// The length of the entry under way.
    pub fn entry(&self) -> (length: u32)
        requires
            self.wf(),
        ensures
            length == self.entry_at(self.index as int),
    {
        greater_of(self.pattern[self.index % self.pattern.len()], 0)
    }

    /// Whether the entry under way is a dash: the first is one, and they alternate.
    pub fn on(&self) -> (dash: bool)
        ensures
            dash == (self.index as int % 2 == 0),
    {
        in_a_dash(self.index)
    }

    /// Pass the entry under way, where what remains of the phase reaches its end: the length that is to be taken
    /// off.
    pub fn pass(&mut self, remaining: u32) -> (length: Option<u32>)
        requires
            old(self).wf(),
            old(self).index < usize::MAX,
        ensures
            final(self).wf(),
            ({
                let entry = old(self).entry_at(old(self).index as int);
                if below(0, remaining) && !below(remaining, entry) {
                    length == Some(entry) && *final(self) == (Dasher {
                        index: (old(self).index + 1) as usize,
                        ..*old(self)
                    })
                } else {
                    length is None && *final(self) == *old(self)
                }
            }),
    {
        let entry: u32 = self.entry();
        if less(0, remaining) && !less(remaining, entry) {
            self.index = self.index + 1;
            Some(entry)
        } else {
            None
        }
    }

    /// Begin in the entry under way, with so much of it left. It is no less than nothing.
    pub fn enter(&mut self, left: u32)
        ensures
            *final(self) == (Dasher { left: larger(left, 0), ..*old(self) }),
    {
        self.left = greater_of(left, 0);
    }

    /// Go to the end of the entry under way, where more than what is left of it lies ahead: how far that is. The
    /// next one is then under way.
    pub fn cut(&mut self, ahead: u32) -> (step: Option<u32>)
        requires
            old(self).wf(),
            old(self).index < usize::MAX,
        ensures
            final(self).wf(),
            if below(old(self).left, ahead) {
                step == Some(old(self).left) && *final(self) == (Dasher {
                    index: (old(self).index + 1) as usize,
                    left: old(self).walked_of(old(self).index + 1),
                    ..*old(self)
                })
            } else {
                step is None && *final(self) == *old(self)
            },
    {
        if less(self.left, ahead) {
            let step: u32 = self.left;
            self.index = self.index + 1;
            let entry: u32 = self.entry();
            self.left = if at_least(0, entry) {
                self.total
            } else {
                entry
            };
            Some(step)
        } else {
            None
        }
    }

    /// Stop inside the entry under way, with so much of it left.
    pub fn stay(&mut self, left: u32)
        ensures
            *final(self) == (Dasher { left, ..*old(self) }),
    {
        self.left = left;
    }
}

/// Every entry moves a walk on: what is walked of it is above nothing, whatever the entry is.
pub proof fn every_entry_moves_on(dasher: Dasher, index: int)
    requires
        dasher.wf(),
        0 <= index,
    ensures
        below(0, dasher.walked_of(index)),
{
}

/// Whether the pattern is in a dash after so many of its entries: the first is one, and they alternate.
pub fn in_a_dash(entries: usize) -> (on: bool)
    ensures
        on == (entries as int % 2 == 0),
{
    entries % 2 == 0
}

/// Whether every dash has two points at least, and the one being drawn has begun.
spec fn drawable(pieces: Pieces) -> bool {
    (pieces.on ==> pieces.current.len() >= 1) && forall|i: int|
        0 <= i < pieces.out.len() ==> (#[trigger] pieces.out[i]).len() >= 2
}

proof fn changing_keeps_dashes(pieces: Pieces, points: Seq<Point>, count: nat)
    requires
        drawable(pieces),
    ensures
        drawable(pieces.all_changed(points, count)),
    decreases count,
{
    if count > 0 {
        changing_keeps_dashes(pieces, points, (count - 1) as nat);
    }
}

proof fn walking_keeps_dashes(pieces: Pieces, walk: Walk, count: nat)
    requires
        drawable(pieces),
        count <= walk.cuts@.len(),
    ensures
        drawable(pieces.walked(walk, count)),
    decreases count,
{
    if count > 0 {
        walking_keeps_dashes(pieces, walk, (count - 1) as nat);
        if let Some(points) = walk.cuts@[count - 1] {
            changing_keeps_dashes(pieces.walked(walk, (count - 1) as nat), points@, points@.len());
        }
    }
}

/// Every dash is a line of two points at least.
pub proof fn every_dash_is_a_line(walks: Seq<Walk>, count: nat, i: int)
    requires
        count <= walks.len(),
        0 <= i < dashes(walks, count).len(),
    ensures
        dashes(walks, count)[i].len() >= 2,
    decreases count,
{
    all_dashes_are_lines(walks, count);
}

proof fn all_dashes_are_lines(walks: Seq<Walk>, count: nat)
    requires
        count <= walks.len(),
    ensures
        forall|i: int| 0 <= i < dashes(walks, count).len() ==> (#[trigger] dashes(walks, count)[i]).len() >= 2,
    decreases count,
{
    if count > 0 {
        all_dashes_are_lines(walks, (count - 1) as nat);
        let walk = walks[count - 1];
        if walkable(walk) {
            let start = begun(walk, dashes(walks, (count - 1) as nat));
            walking_keeps_dashes(start, walk, walk.cuts@.len());
        }
    }
}

// ---------------------------------------------------------------------------------------------
// Laws of strokes and dashes.
// ---------------------------------------------------------------------------------------------
/// A side goes from each point to the next, round to the first again where the contour is closed; it has a corner wherever
/// another segment follows, and that corner's far end is two points on.
pub proof fn a_side_goes_from_point_to_point(count: usize, closed: bool, segments: Vec<Segment>, i: int)
    requires
        2 <= count < usize::MAX - 1,
        call_ensures(offset_side, (count, closed), segments),
        0 <= i < segments@.len(),
    ensures
        closed ==> segments@.len() == count,
        !closed ==> segments@.len() == count - 1,
        segments@[i].from == i,
        segments@[i].to == (i + 1) % count as int,
        closed ==> segments@[i].next == Some(((i + 2) % count as int) as usize),
        !closed && i + 2 < count ==> segments@[i].next == Some((i + 2) as usize),
        !closed && i + 2 >= count ==> segments@[i].next is None,
{
    let n = count as int;
    assert(segments@[i] == segment_at(n, closed, i));
    if i + 1 < n {
        vstd::arithmetic::div_mod::lemma_small_mod((i + 1) as nat, n as nat);
    } else {
        vstd::arithmetic::div_mod::lemma_mod_self_0(n);
    }
    if i + 2 < n {
        vstd::arithmetic::div_mod::lemma_small_mod((i + 2) as nat, n as nat);
    } else {
        vstd::arithmetic::div_mod::lemma_fundamental_div_mod_converse(i + 2, n, 1, i + 2 - n);
    }
}

/// An outline is nothing for no point, a dot for one under a cap that is no butt, and otherwise two loops where the contour
/// is closed and one where it is open.
pub proof fn an_outline_is_by_its_points(points: &[Point], closed: bool, cap: Cap, made: Plan)
    requires
        call_ensures(plan, (points, closed, cap), made),
    ensures
        points@.len() == 0 ==> made is Nothing,
        points@.len() == 1 && cap is Butt ==> made is Nothing,
        points@.len() == 1 && cap is Round ==> made == Plan::Circle(points@[0]),
        points@.len() == 1 && cap is Square ==> made == Plan::Square(points@[0]),
        points@.len() >= 2 && closed ==> made is TwoLoops,
        points@.len() >= 2 && !closed ==> made is OneLoop,
{
}

/// The way back has the points of the way there, the last one first.
pub proof fn the_way_back_is_reversed(points: &[Point], back: Vec<Point>, i: int)
    requires
        call_ensures(reversed, (points,), back),
        0 <= i < points@.len(),
    ensures
        back@.len() == points@.len(),
        back@[i] == points@[points@.len() - 1 - i],
{
}

/// A corner is filled on the outer side alone, where the turn is above nothing, and with what its join says.
pub proof fn a_corner_is_filled_on_its_outer_side(cross: u32, join: Join, filled: Corner)
    requires
        call_ensures(corner, (cross, join), filled),
        !nan(cross),
    ensures
        number(cross) <= 0 || join is Bevel ==> filled is Nothing,
        number(cross) > 0 && join is Round ==> filled is Arc,
        number(cross) > 0 && join is Miter ==> filled is Spike,
{
    order_is_by_number(0, cross);
    assert(number(0) == 0);
}

/// A spike is drawn where it has a length, lies in front and reaches no further than its limit.
pub proof fn a_spike_is_within_its_limit(length: u32, cosine: u32, reach: u32, limit: u32, drawn: bool)
    requires
        call_ensures(spike, (length, cosine, reach, limit), drawn),
        finite(length),
        !nan(cosine) && !nan(reach) && !nan(limit),
    ensures
        drawn <==> number(length) > 0 && number(cosine) > 0 && number(reach) <= number(limit),
{
    order_is_by_number(0, length);
    order_is_by_number(0, cosine);
    order_is_by_number(limit, reach);
    assert(number(0) == 0);
}

/// A stroke draws where half of its width is a number above nothing, and a length counts where it is one.
pub proof fn a_width_is_above_nothing(half: u32, draws: bool)
    requires
        call_ensures(has_width, (half,), draws),
        finite(half),
    ensures
        draws <==> number(half) > 0,
        measured(half) <==> number(half) > 0,
{
    order_is_by_number(0, half);
    assert(number(0) == 0);
}

/// An arc that can be seen has as many steps as were wanted, from four to two hundred and fifty-six.
pub proof fn an_arc_has_its_steps(radius: u32, tolerance: u32, wanted: u32, steps: u32)
    requires
        call_ensures(arc_steps, (radius, tolerance, wanted), steps),
        finite(radius),
        !nan(tolerance),
    ensures
        number(radius) <= number(tolerance) ==> steps == 2,
        number(radius) > number(tolerance) ==> 4 <= steps <= 256,
        number(radius) > number(tolerance) && 4 <= wanted <= 256 ==> steps == wanted,
        number(radius) > number(tolerance) && wanted < 4 ==> steps == 4,
        number(radius) > number(tolerance) && wanted > 256 ==> steps == 256,
{
    order_is_by_number(tolerance, radius);
}

/// A change ends the dash that is being drawn at its point, or starts one there; so two changes cut one dash out, from the
/// first point to the second, or one gap.
pub proof fn two_changes_cut_one_piece(pieces: Pieces, first: Point, second: Point)
    ensures
        !pieces.on ==> pieces.changed(first).changed(second) == (Pieces {
            on: false,
            current: Seq::empty(),
            out: pieces.out.push(seq![first, second]),
        }),
        pieces.on ==> pieces.changed(first).changed(second) == (Pieces {
            on: true,
            current: seq![second],
            out: pieces.out.push(pieces.current.push(first)),
        }),
{
    assert(seq![first].push(second) =~= seq![first, second]);
}

/// The end of a segment is on the dash that is being drawn, and on none in a gap.
pub proof fn a_dash_goes_round_corners(pieces: Pieces, point: Point)
    ensures
        pieces.on ==> pieces.reached(point) == (Pieces { current: pieces.current.push(point), ..pieces }),
        !pieces.on ==> pieces.reached(point) == pieces,
{
}

/// A walk takes its segments in order: first every change on the segment, one after the other, then the segment's end. A
/// segment of no length is passed over.
pub proof fn a_walk_takes_its_segments_in_order(pieces: Pieces, walk: Walk, k: int)
    requires
        walkable(walk),
        0 <= k < walk.cuts@.len(),
    ensures
        pieces.walked(walk, 0) == pieces,
        walk.cuts@[k] is None ==> pieces.walked(walk, (k + 1) as nat) == pieces.walked(walk, k as nat),
        walk.cuts@[k] matches Some(points) ==> {
            &&& points@.len() == 0 ==> pieces.walked(walk, (k + 1) as nat) == pieces.walked(walk, k as nat).reached(
                walk.points@[k + 1],
            )
            &&& points@.len() == 1 ==> pieces.walked(walk, (k + 1) as nat) == pieces.walked(walk, k as nat).changed(
                points@[0],
            ).reached(walk.points@[k + 1])
        },
{
    reveal_with_fuel(Pieces::all_changed, 3);
}

/// Changes are made one after the other.
pub proof fn changes_are_made_in_order(pieces: Pieces, points: Seq<Point>, k: int)
    requires
        0 <= k < points.len(),
    ensures
        pieces.all_changed(points, 0) == pieces,
        pieces.all_changed(points, (k + 1) as nat) == pieces.all_changed(points, k as nat).changed(points[k]),
{
}

/// A contour starts at its first point, in a dash where the pattern does, and its end ends the dash being drawn; one that
/// is no longer than a point is none.
pub proof fn a_contour_begins_and_ends_its_dashes(walk: Walk, out: Seq<Seq<Point>>, pieces: Pieces)
    requires
        walk.points@.len() > 0,
    ensures
        begun(walk, out).out == out && begun(walk, out).on == walk.on,
        walk.on ==> begun(walk, out).current =~= seq![walk.points@[0]],
        !walk.on ==> begun(walk, out).current.len() == 0,
        pieces.on && pieces.current.len() >= 2 ==> pieces.ended() == pieces.out.push(pieces.current),
        !pieces.on || pieces.current.len() < 2 ==> pieces.ended() == pieces.out,
{
}

/// A contour in one dash with no change is that dash whole, and one in a gap with no change leaves nothing.
pub proof fn an_unbroken_contour_is_one_piece(walk: Walk, count: nat)
    requires
        walkable(walk),
        count <= walk.cuts@.len(),
        forall|k: int|
            0 <= k < walk.cuts@.len() ==> ((#[trigger] walk.cuts@[k]) matches Some(points) && points@.len() == 0),
    ensures
        walk.on ==> begun(walk, Seq::empty()).walked(walk, count) == (Pieces {
            on: true,
            current: walk.points@.take(count as int + 1),
            out: Seq::empty(),
        }),
        !walk.on ==> begun(walk, Seq::empty()).walked(walk, count).ended().len() == 0 && !begun(
            walk,
            Seq::empty(),
        ).walked(walk, count).on,
    decreases count,
{
    let start = begun(walk, Seq::empty());
    if count == 0 {
        assert(seq![walk.points@[0]] =~= walk.points@.take(1));
    } else {
        an_unbroken_contour_is_one_piece(walk, (count - 1) as nat);
        assert(walk.cuts@[count - 1] matches Some(points) && points@.len() == 0);
        a_walk_takes_its_segments_in_order(start, walk, count - 1);
        assert(walk.points@.take(count as int).push(walk.points@[count as int]) =~= walk.points@.take(count as int + 1));
    }
}

/// An entry of a pattern is its own length, no less than nothing, and behind the last comes the first again; what is
/// walked of it is that, or the whole of the pattern where it is nothing.
pub proof fn a_pattern_repeats(dasher: Dasher, index: int)
    requires
        dasher.wf(),
        0 <= index,
        forall|i: int| 0 <= i < dasher.pattern@.len() ==> !nan(#[trigger] dasher.pattern@[i]),
    ensures
        dasher.entry_at(index + dasher.pattern@.len()) == dasher.entry_at(index),
        index < dasher.pattern@.len() && number(dasher.pattern@[index]) > 0 ==> dasher.entry_at(index)
            == dasher.pattern@[index] && dasher.walked_of(index) == dasher.pattern@[index],
        index < dasher.pattern@.len() && number(dasher.pattern@[index]) <= 0 ==> number(dasher.entry_at(index)) == 0
            && dasher.walked_of(index) == dasher.total,
{
    let count = dasher.pattern@.len() as int;
    vstd::arithmetic::div_mod::lemma_mod_add_multiples_vanish(index, count);
    assert(count + index == index + count);
    if index < count {
        vstd::arithmetic::div_mod::lemma_small_mod(index as nat, count as nat);
        let value = dasher.pattern@[index];
        assert(!nan(value));
        extremes_are_by_number(value, 0);
        order_is_by_number(value, 0);
        order_is_by_number(0, dasher.entry_at(index));
        assert(number(0) == 0);
    }
}

/// Dashes and gaps alternate, the first entry a dash.
pub proof fn dashes_and_gaps_alternate(entries: usize, on: bool, next: bool)
    requires
        entries < usize::MAX,
        call_ensures(in_a_dash, (entries,), on),
        call_ensures(in_a_dash, ((entries + 1) as usize,), next),
    ensures
        on != next,
        entries == 0 ==> on,
{
}

} // verus!
