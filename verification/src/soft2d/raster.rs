//! The integer side of the coverage rasteriser: the edge list, the sweep over it, the spans of an aliased
//! row, and the aliased line.
//!
//! Slopes, crossings and areas are floating-point work of the caller. Which edges there are and in what
//! order, which of them a row meets, where a row's spans begin and end, and which columns are emitted, are
//! decided here.
use super::geom::PixelRect;
use crate::bits::{
    at_least, below, equal, finite, is_finite, less, negate, number, opposite, order_is_by_number, rank, reaches, same,
    signs_are_by_number, ONE,
};
use vstd::prelude::*;

verus! {

// ---------------------------------------------------------------------------------------------
// Edges.
// ---------------------------------------------------------------------------------------------
/// A point: two binary32 values by their bits.
pub type Point = (u32, u32);

/// One edge, from its upper end to its lower, with the direction it had before they were put in order.
#[derive(Clone, Copy, PartialEq, Eq, Structural, Debug)]
pub struct Edge {
    pub top_x: u32,
    pub top_y: u32,
    pub bottom_x: u32,
    pub bottom_y: u32,
    pub winding: i32,
}

/// The edge between two points, or none where one of them is not finite or the edge is horizontal, since a
/// horizontal edge crosses no row.
pub open spec fn edge_between(from: Point, to: Point) -> Option<Edge> {
    if !finite(from.0) || !finite(from.1) || !finite(to.0) || !finite(to.1) || same(from.1, to.1) {
        None
    } else if below(from.1, to.1) {
        Some(Edge { top_x: from.0, top_y: from.1, bottom_x: to.0, bottom_y: to.1, winding: 1 })
    } else {
        Some(Edge { top_x: to.0, top_y: to.1, bottom_x: from.0, bottom_y: from.1, winding: (-1) as i32 })
    }
}

/// The edges of the first `count` sides of a contour. A contour is closed by its last side.
pub open spec fn sides(points: Seq<Point>, count: nat) -> Seq<Edge>
    decreases count,
{
    if count == 0 {
        Seq::empty()
    } else {
        let before = sides(points, (count - 1) as nat);
        let next = if count == points.len() {
            0
        } else {
            count as int
        };
        match edge_between(points[count - 1], points[next]) {
            Some(edge) => before.push(edge),
            None => before,
        }
    }
}

/// The edges of the first `count` contours. A contour of one point has none.
pub open spec fn outline(contours: Seq<Vec<Point>>, count: nat) -> Seq<Edge>
    decreases count,
{
    if count == 0 {
        Seq::empty()
    } else {
        let points = contours[count - 1]@;
        outline(contours, (count - 1) as nat) + (if points.len() < 2 {
            Seq::empty()
        } else {
            sides(points, points.len())
        })
    }
}

/// A list with one more edge, behind the last edge that does not start below it.
pub open spec fn placed(edges: Seq<Edge>, edge: Edge) -> Seq<Edge>
    decreases edges.len(),
{
    if edges.len() == 0 || !below(edge.top_y, edges.last().top_y) {
        edges.push(edge)
    } else {
        placed(edges.drop_last(), edge).push(edges.last())
    }
}

/// The edges of a list ordered by where they start; edges that start together keep their order.
pub open spec fn ordered(edges: Seq<Edge>) -> Seq<Edge>
    decreases edges.len(),
{
    if edges.len() == 0 {
        Seq::empty()
    } else {
        placed(ordered(edges.drop_last()), edges.last())
    }
}

/// Whether a list is ordered by where its edges start.
pub open spec fn in_order(edges: Seq<Edge>) -> bool {
    forall|i: int, j: int| 0 <= i < j < edges.len() ==> !below(#[trigger] edges[j].top_y, #[trigger] edges[i].top_y)
}

/// Whether the ends of every edge are finite and in order.
pub open spec fn proper(edges: Seq<Edge>) -> bool {
    forall|i: int|
        0 <= i < edges.len() ==> finite((#[trigger] edges[i]).top_y) && finite(edges[i].bottom_y) && below(
            edges[i].top_y,
            edges[i].bottom_y,
        )
}

/// The topmost start of the edges of a list, or infinitely far down where there is none.
pub open spec fn topmost(edges: Seq<Edge>) -> u32
    decreases edges.len(),
{
    if edges.len() == 0 {
        0x7F80_0000
    } else {
        let held = topmost(edges.drop_last());
        if below(edges.last().top_y, held) {
            edges.last().top_y
        } else {
            held
        }
    }
}

/// The lowest end of the edges of a list, or infinitely far up where there is none.
pub open spec fn lowest(edges: Seq<Edge>) -> u32
    decreases edges.len(),
{
    if edges.len() == 0 {
        0xFF80_0000
    } else {
        let held = lowest(edges.drop_last());
        if below(held, edges.last().bottom_y) {
            edges.last().bottom_y
        } else {
            held
        }
    }
}

/// A shape's edges, in order, and the rows they span.
#[derive(Debug)]
pub struct Edges {
    pub edges: Vec<Edge>,
    pub top: u32,
    pub bottom: u32,
}

proof fn placing_inserts(edges: Seq<Edge>, edge: Edge, at: int)
    requires
        0 <= at <= edges.len(),
        at == 0 || !below(edge.top_y, edges[at - 1].top_y),
        forall|i: int| at <= i < edges.len() ==> below(edge.top_y, (#[trigger] edges[i]).top_y),
    ensures
        placed(edges, edge) == edges.insert(at, edge),
    decreases edges.len(),
{
    if at == edges.len() {
        assert(edges.insert(at, edge) =~= edges.push(edge));
    } else {
        let rest = edges.drop_last();
        assert forall|i: int| at <= i < rest.len() implies below(edge.top_y, (#[trigger] rest[i]).top_y) by {
            assert(rest[i] == edges[i]);
        }
        placing_inserts(rest, edge, at);
        assert(rest.insert(at, edge).push(edges.last()) =~= edges.insert(at, edge));
    }
}

proof fn placing_keeps_order(edges: Seq<Edge>, edge: Edge)
    requires
        in_order(edges),
        proper(edges),
        finite(edge.top_y) && finite(edge.bottom_y) && below(edge.top_y, edge.bottom_y),
    ensures
        in_order(placed(edges, edge)),
        proper(placed(edges, edge)),
        placed(edges, edge).len() == edges.len() + 1,
        forall|i: int|
            0 <= i < placed(edges, edge).len() ==> (#[trigger] placed(edges, edge)[i]) == edge
                || edges.contains(placed(edges, edge)[i]),
        placed(edges, edge).to_multiset() == edges.to_multiset().insert(edge),
    decreases edges.len(),
{
    broadcast use vstd::seq_lib::group_to_multiset_ensures;

    if edges.len() == 0 || !below(edge.top_y, edges.last().top_y) {
        let all = edges.push(edge);
        assert forall|i: int, j: int| 0 <= i < j < all.len() implies !below(
            #[trigger] all[j].top_y,
            #[trigger] all[i].top_y,
        ) by {
            if j == edges.len() {
                if i < edges.len() - 1 {
                    assert(!below(edges.last().top_y, edges[i].top_y));
                }
            }
        }
    } else {
        let rest = edges.drop_last();
        assert(in_order(rest));
        assert(proper(rest));
        placing_keeps_order(rest, edge);
        let inner = placed(rest, edge);
        let all = inner.push(edges.last());
        assert forall|i: int, j: int| 0 <= i < j < all.len() implies !below(
            #[trigger] all[j].top_y,
            #[trigger] all[i].top_y,
        ) by {
            if j == inner.len() {
                if inner[i] != edge {
                    let k = choose|k: int| 0 <= k < rest.len() && rest[k] == inner[i];
                    assert(edges[k] == inner[i]);
                    assert(!below(edges.last().top_y, edges[k].top_y));
                }
            }
        }
        assert forall|i: int| 0 <= i < all.len() implies (#[trigger] all[i]) == edge || edges.contains(
            all[i],
        ) by {
            if i < inner.len() {
                if inner[i] != edge {
                    let k = choose|k: int| 0 <= k < rest.len() && rest[k] == inner[i];
                    assert(edges[k] == all[i]);
                }
            } else {
                assert(edges[edges.len() - 1] == all[i]);
            }
        }
        assert(edges =~= rest.push(edges.last()));
        assert(all.to_multiset() =~= edges.to_multiset().insert(edge));
    }
}

/// Ordering keeps every edge and puts them in order.
pub proof fn ordering_sorts(edges: Seq<Edge>)
    requires
        proper(edges),
    ensures
        in_order(ordered(edges)),
        proper(ordered(edges)),
        ordered(edges).len() == edges.len(),
        ordered(edges).to_multiset() == edges.to_multiset(),
    decreases edges.len(),
{
    broadcast use vstd::seq_lib::group_to_multiset_ensures;

    if edges.len() > 0 {
        let rest = edges.drop_last();
        assert(proper(rest)) by {
            assert forall|i: int| 0 <= i < rest.len() implies finite((#[trigger] rest[i]).top_y) && finite(
                rest[i].bottom_y,
            ) && below(rest[i].top_y, rest[i].bottom_y) by {
                assert(rest[i] == edges[i]);
            }
        }
        ordering_sorts(rest);
        placing_keeps_order(ordered(rest), edges.last());
        assert(edges =~= rest.push(edges.last()));
    }
}

proof fn sides_are_proper(points: Seq<Point>, count: nat)
    requires
        count <= points.len(),
    ensures
        proper(sides(points, count)),
    decreases count,
{
    if count > 0 {
        sides_are_proper(points, (count - 1) as nat);
        crate::bits::order_is_total_on_numbers(
            points[count - 1].1,
            points[if count == points.len() {
                0
            } else {
                count as int
            }].1,
        );
    }
}

proof fn outlines_are_proper(contours: Seq<Vec<Point>>, count: nat)
    requires
        count <= contours.len(),
    ensures
        proper(outline(contours, count)),
    decreases count,
{
    if count > 0 {
        outlines_are_proper(contours, (count - 1) as nat);
        let points = contours[count - 1]@;
        if points.len() >= 2 {
            sides_are_proper(points, points.len());
        }
    }
}

proof fn a_longer_list(edges: Seq<Edge>, edge: Edge)
    ensures
        edges.push(edge).drop_last() == edges,
        edges.push(edge).last() == edge,
{
    assert(edges.push(edge).drop_last() =~= edges);
}

impl Edges {
    /// Whether these are the edges of contours, in order.
    pub open spec fn of(self, contours: Seq<Vec<Point>>) -> bool {
        let raw = outline(contours, contours.len());
        self.edges@ == ordered(raw) && self.top == topmost(raw) && self.bottom == lowest(raw)
    }

    /// The edges of a set of contours.
    pub fn build(contours: &[Vec<Point>]) -> (made: Edges)
        ensures
            made.of(contours@),
            in_order(made.edges@),
            proper(made.edges@),
    {
        let mut made = Edges { edges: Vec::new(), top: 0x7F80_0000, bottom: 0xFF80_0000 };
        let mut next: usize = 0;
        let ghost mut raw: Seq<Edge> = Seq::empty();
        while next < contours.len()
            invariant
                next <= contours@.len(),
                raw == outline(contours@, next as nat),
                made.edges@ == ordered(raw),
                made.top == topmost(raw),
                made.bottom == lowest(raw),
            decreases contours@.len() - next,
        {
            let points = &contours[next];
            let ghost start = raw;
            let mut index: usize = 0;
            if points.len() >= 2 {
                assert(start =~= start + sides(points@, 0));
                while index < points.len()
                    invariant
                        index <= points@.len(),
                        points@.len() >= 2,
                        raw == start + sides(points@, index as nat),
                        made.edges@ == ordered(raw),
                        made.top == topmost(raw),
                        made.bottom == lowest(raw),
                    decreases points@.len() - index,
                {
                    let following: usize = if index + 1 == points.len() {
                        0
                    } else {
                        index + 1
                    };
                    let ghost before = raw;
                    if let Some(edge) = side(points[index], points[following]) {
                        made.add_edge(edge, Ghost(before));
                        proof {
                            raw = raw.push(edge);
                        }
                    }
                    assert(raw =~= start + sides(points@, (index + 1) as nat));
                    index = index + 1;
                }
            } else {
                assert(start =~= start + Seq::<Edge>::empty());
            }
            next = next + 1;
        }
        proof {
            outlines_are_proper(contours@, contours@.len());
            ordering_sorts(raw);
        }
        made
    }

    /// Put one more edge in its place.
    fn add_edge(&mut self, edge: Edge, Ghost(raw): Ghost<Seq<Edge>>)
        requires
            old(self).edges@ == ordered(raw),
            old(self).top == topmost(raw),
            old(self).bottom == lowest(raw),
        ensures
            final(self).edges@ == ordered(raw.push(edge)),
            final(self).top == topmost(raw.push(edge)),
            final(self).bottom == lowest(raw.push(edge)),
    {
        let mut at: usize = self.edges.len();
        while at > 0 && less(edge.top_y, self.edges[at - 1].top_y)
            invariant
                at <= self.edges@.len(),
                forall|i: int|
                    at <= i < self.edges@.len() ==> below(edge.top_y, (#[trigger] self.edges@[i]).top_y),
            decreases at,
        {
            at = at - 1;
        }
        proof {
            placing_inserts(self.edges@, edge, at as int);
            a_longer_list(raw, edge);
        }
        self.edges.insert(at, edge);
        if less(edge.top_y, self.top) {
            self.top = edge.top_y;
        }
        if less(self.bottom, edge.bottom_y) {
            self.bottom = edge.bottom_y;
        }
    }

    pub fn len(&self) -> (count: usize)
        ensures
            count == self.edges@.len(),
    {
        self.edges.len()
    }

    pub fn is_empty(&self) -> (empty: bool)
        ensures
            empty == (self.edges@.len() == 0),
    {
        self.edges.len() == 0
    }

    /// Whether any edge reaches into a band of rows.
    pub fn reaches_into(&self, top: u32, bottom: u32) -> (reached: bool)
        ensures
            reached == (self.edges@.len() > 0 && below(top, self.bottom) && below(self.top, bottom)),
    {
        self.edges.len() > 0 && less(top, self.bottom) && less(self.top, bottom)
    }
}

fn side(from: Point, to: Point) -> (edge: Option<Edge>)
    ensures
        edge == edge_between(from, to),
{
    if !is_finite(from.0) || !is_finite(from.1) || !is_finite(to.0) || !is_finite(to.1) || equal(
        from.1,
        to.1,
    ) {
        None
    } else if less(from.1, to.1) {
        Some(Edge { top_x: from.0, top_y: from.1, bottom_x: to.0, bottom_y: to.1, winding: 1 })
    } else {
        Some(Edge { top_x: to.0, top_y: to.1, bottom_x: from.0, bottom_y: from.1, winding: -1 })
    }
}

// ---------------------------------------------------------------------------------------------
// The sweep.
// ---------------------------------------------------------------------------------------------
/// What a row asks of an edge: to start above `until`, or at it where that counts, and to end below `floor`.
#[derive(Clone, Copy, PartialEq, Eq, Structural, Debug)]
pub struct Mark {
    pub until: u32,
    pub inclusive: bool,
    pub floor: u32,
}

impl Mark {
    /// Whether an edge has started by this row.
    pub open spec fn begun(self, edge: Edge) -> bool {
        if self.inclusive {
            reaches(self.until, edge.top_y)
        } else {
            below(edge.top_y, self.until)
        }
    }

    /// Whether an edge goes on past the start of this row.
    pub open spec fn live(self, edge: Edge) -> bool {
        below(self.floor, edge.bottom_y)
    }

    /// Whether this row is no higher than another.
    pub open spec fn follows(self, earlier: Mark) -> bool {
        reaches(self.until, earlier.until) && reaches(self.floor, earlier.floor) && self.inclusive
            == earlier.inclusive
    }
}

/// Which of the first `count` edges a row meets, in their order.
pub open spec fn met(edges: Seq<Edge>, mark: Mark, count: nat) -> Seq<u32>
    decreases count,
{
    if count == 0 {
        Seq::empty()
    } else {
        let before = met(edges, mark, (count - 1) as nat);
        if mark.begun(edges[count - 1]) && mark.live(edges[count - 1]) {
            before.push((count - 1) as u32)
        } else {
            before
        }
    }
}

/// Which of the first `count` edges go on past the start of a row.
spec fn alive(edges: Seq<Edge>, floor: Mark, count: nat) -> Seq<u32>
    decreases count,
{
    if count == 0 {
        Seq::empty()
    } else {
        let before = alive(edges, floor, (count - 1) as nat);
        if floor.live(edges[count - 1]) {
            before.push((count - 1) as u32)
        } else {
            before
        }
    }
}

/// The members of a list that go on past the start of a row, up to one.
spec fn kept(edges: Seq<Edge>, list: Seq<u32>, mark: Mark, count: nat) -> Seq<u32>
    decreases count,
{
    if count == 0 {
        Seq::empty()
    } else {
        let before = kept(edges, list, mark, (count - 1) as nat);
        if mark.live(edges[list[count - 1] as int]) {
            before.push(list[count - 1])
        } else {
            before
        }
    }
}

proof fn keeping_is_prefix_stable(edges: Seq<Edge>, list: Seq<u32>, more: u32, mark: Mark, count: nat)
    requires
        count <= list.len(),
    ensures
        kept(edges, list.push(more), mark, count) == kept(edges, list, mark, count),
    decreases count,
{
    if count > 0 {
        keeping_is_prefix_stable(edges, list, more, mark, (count - 1) as nat);
    }
}

/// Dropping what ended keeps what is alive: an edge alive at a lower row was alive at a higher one.
proof fn keeping_the_alive(edges: Seq<Edge>, earlier: Mark, later: Mark, count: nat)
    requires
        later.follows(earlier),
        count <= edges.len() <= u32::MAX,
    ensures
        kept(edges, alive(edges, earlier, count), later, alive(edges, earlier, count).len()) == alive(
            edges,
            later,
            count,
        ),
        forall|i: int|
            0 <= i < alive(edges, earlier, count).len() ==> (#[trigger] alive(edges, earlier, count)[i])
                < count,
    decreases count,
{
    if count > 0 {
        keeping_the_alive(edges, earlier, later, (count - 1) as nat);
        let before = alive(edges, earlier, (count - 1) as nat);
        if earlier.live(edges[count - 1]) {
            keeping_is_prefix_stable(edges, before, (count - 1) as u32, later, before.len());
        }
    }
}

proof fn begun_is_a_prefix(edges: Seq<Edge>, mark: Mark, cursor: nat, count: nat)
    requires
        in_order(edges),
        proper(edges),
        cursor <= count <= edges.len(),
        forall|i: int| 0 <= i < cursor ==> mark.begun(#[trigger] edges[i]),
        cursor < edges.len() ==> !mark.begun(edges[cursor as int]),
        !crate::bits::nan(mark.until),
    ensures
        met(edges, mark, count) == alive(edges, mark, cursor),
    decreases count,
{
    if count > cursor {
        begun_is_a_prefix(edges, mark, cursor, (count - 1) as nat);
        if count - 1 > cursor {
            assert(!below(edges[count - 1].top_y, edges[cursor as int].top_y));
        }
    } else if count > 0 {
        all_begun(edges, mark, count);
    }
}

proof fn all_begun(edges: Seq<Edge>, mark: Mark, count: nat)
    requires
        count <= edges.len(),
        forall|i: int| 0 <= i < count ==> mark.begun(#[trigger] edges[i]),
    ensures
        met(edges, mark, count) == alive(edges, mark, count),
    decreases count,
{
    if count > 0 {
        all_begun(edges, mark, (count - 1) as nat);
    }
}

/// Which edges each row meets, for rows that follow one another: one pass over the edges, keeping those that
/// go on and adding those that start.
pub fn sweep(edges: &Edges, rows: &[Mark]) -> (lists: Vec<Vec<u32>>)
    requires
        in_order(edges.edges@),
        proper(edges.edges@),
        edges.edges@.len() <= u32::MAX,
        forall|i: int|
            0 <= i < rows@.len() ==> finite((#[trigger] rows@[i]).until) && finite(rows@[i].floor),
        forall|i: int, j: int| 0 <= i < j < rows@.len() ==> (#[trigger] rows@[j]).follows(#[trigger] rows@[i]),
    ensures
        lists@.len() == rows@.len(),
        forall|r: int|
            0 <= r < rows@.len() ==> (#[trigger] lists@[r])@ == met(
                edges.edges@,
                rows@[r],
                edges.edges@.len(),
            ),
{
    let mut lists: Vec<Vec<u32>> = Vec::new();
    let mut active: Vec<u32> = Vec::new();
    let mut cursor: usize = 0;
    let mut row: usize = 0;
    let ghost all = edges.edges@;
    while row < rows.len()
        invariant
            row <= rows@.len(),
            all == edges.edges@,
            in_order(all),
            proper(all),
            all.len() <= u32::MAX,
            cursor <= all.len(),
            lists@.len() == row,
            forall|i: int|
                0 <= i < rows@.len() ==> finite((#[trigger] rows@[i]).until) && finite(rows@[i].floor),
            forall|i: int, j: int|
                0 <= i < j < rows@.len() ==> (#[trigger] rows@[j]).follows(#[trigger] rows@[i]),
            row == 0 ==> cursor == 0 && active@.len() == 0,
            row > 0 ==> active@ == alive(all, rows@[row - 1], cursor as nat),
            row > 0 ==> forall|i: int| 0 <= i < cursor ==> rows@[row - 1].begun(#[trigger] all[i]),
            forall|r: int|
                0 <= r < row ==> (#[trigger] lists@[r])@ == met(all, rows@[r], all.len()),
        decreases rows@.len() - row,
    {
        let mark = rows[row];
        assert(finite(rows@[row as int].until) && finite(rows@[row as int].floor));
        let mut now: Vec<u32> = Vec::new();
        let mut next: usize = 0;
        proof {
            if row > 0 {
                assert(rows@[row as int].follows(rows@[row - 1]));
                keeping_the_alive(all, rows@[row - 1], mark, cursor as nat);
                assert forall|i: int| 0 <= i < cursor implies mark.begun(#[trigger] all[i]) by {
                    assert(rows@[row - 1].begun(all[i]));
                }
            }
        }
        while next < active.len()
            invariant
                next <= active@.len(),
                all == edges.edges@,
                cursor <= all.len(),
                forall|i: int| 0 <= i < active@.len() ==> (#[trigger] active@[i]) < cursor,
                now@ == kept(all, active@, mark, next as nat),
            decreases active@.len() - next,
        {
            let index: u32 = active[next];
            assert(active@[next as int] < cursor);
            if less(mark.floor, edges.edges[index as usize].bottom_y) {
                now.push(index);
            }
            next = next + 1;
        }
        assert(now@ == alive(all, mark, cursor as nat));
        while cursor < edges.edges.len() && started(&mark, &edges.edges[cursor])
            invariant
                cursor <= all.len() <= u32::MAX,
                all == edges.edges@,
                now@ == alive(all, mark, cursor as nat),
                forall|i: int| 0 <= i < cursor ==> mark.begun(#[trigger] all[i]),
            decreases all.len() - cursor,
        {
            if less(mark.floor, edges.edges[cursor].bottom_y) {
                now.push(cursor as u32);
            }
            cursor = cursor + 1;
        }
        proof {
            begun_is_a_prefix(all, mark, cursor as nat, all.len());
        }
        let list = copy_list(&now);
        lists.push(list);
        active = now;
        row = row + 1;
    }
    lists
}

fn started(mark: &Mark, edge: &Edge) -> (answer: bool)
    ensures
        answer == mark.begun(*edge),
{
    if mark.inclusive {
        at_least(mark.until, edge.top_y)
    } else {
        less(edge.top_y, mark.until)
    }
}

fn copy_list(list: &Vec<u32>) -> (copy: Vec<u32>)
    ensures
        copy@ == list@,
{
    let mut copy: Vec<u32> = Vec::new();
    let mut next: usize = 0;
    while next < list.len()
        invariant
            next <= list@.len(),
            copy@ == list@.take(next as int),
        decreases list@.len() - next,
    {
        copy.push(list[next]);
        next = next + 1;
        assert(copy@ =~= list@.take(next as int));
    }
    assert(list@.take(list@.len() as int) =~= list@);
    copy
}

// ---------------------------------------------------------------------------------------------
// The spans of an aliased row.
// ---------------------------------------------------------------------------------------------
/// Which winding numbers are inside.
#[derive(Clone, Copy, PartialEq, Eq, Structural, Debug)]
pub enum FillRule {
    NonZero,
    EvenOdd,
}

impl FillRule {
    /// Whether a winding number is inside.
    pub open spec fn fills(self, winding: int) -> bool {
        match self {
            FillRule::NonZero => winding != 0,
            FillRule::EvenOdd => winding % 2 != 0,
        }
    }
}

/// Where a row crosses an edge, and the edge's direction there.
pub type Crossing = (u32, i32);

/// A list with one more crossing, behind the last that does not lie right of it.
pub open spec fn placed_crossing(list: Seq<Crossing>, crossing: Crossing) -> Seq<Crossing>
    decreases list.len(),
{
    if list.len() == 0 || !below(crossing.0, list.last().0) {
        list.push(crossing)
    } else {
        placed_crossing(list.drop_last(), crossing).push(list.last())
    }
}

/// The finite ones of the first `count` crossings, from left to right.
pub open spec fn crossings_in_order(list: Seq<Crossing>, count: nat) -> Seq<Crossing>
    decreases count,
{
    if count == 0 {
        Seq::empty()
    } else {
        let before = crossings_in_order(list, (count - 1) as nat);
        if finite(list[count - 1].0) {
            placed_crossing(before, list[count - 1])
        } else {
            before
        }
    }
}

/// The winding number right of the first `count` crossings.
pub open spec fn winding_after(list: Seq<Crossing>, count: nat) -> int
    decreases count,
{
    if count == 0 {
        0
    } else {
        winding_after(list, (count - 1) as nat) + list[count - 1].1
    }
}

/// Where the span the first `count` crossings leave open began.
pub open spec fn opened_at(list: Seq<Crossing>, rule: FillRule, count: nat) -> u32
    decreases count,
{
    if count == 0 {
        0
    } else if !rule.fills(winding_after(list, (count - 1) as nat)) && rule.fills(winding_after(list, count)) {
        list[count - 1].0
    } else {
        opened_at(list, rule, (count - 1) as nat)
    }
}

/// The spans the first `count` crossings close, from left to right.
pub open spec fn spans_of(list: Seq<Crossing>, rule: FillRule, count: nat) -> Seq<(u32, u32)>
    decreases count,
{
    if count == 0 {
        Seq::empty()
    } else {
        let before = spans_of(list, rule, (count - 1) as nat);
        if rule.fills(winding_after(list, (count - 1) as nat)) && !rule.fills(winding_after(list, count)) {
            before.push((opened_at(list, rule, (count - 1) as nat), list[count - 1].0))
        } else {
            before
        }
    }
}

proof fn placing_inserts_a_crossing(list: Seq<Crossing>, crossing: Crossing, at: int)
    requires
        0 <= at <= list.len(),
        at == 0 || !below(crossing.0, list[at - 1].0),
        forall|i: int| at <= i < list.len() ==> below(crossing.0, (#[trigger] list[i]).0),
    ensures
        placed_crossing(list, crossing) == list.insert(at, crossing),
    decreases list.len(),
{
    if at == list.len() {
        assert(list.insert(at, crossing) =~= list.push(crossing));
    } else {
        let rest = list.drop_last();
        assert forall|i: int| at <= i < rest.len() implies below(crossing.0, (#[trigger] rest[i]).0) by {
            assert(rest[i] == list[i]);
        }
        placing_inserts_a_crossing(rest, crossing, at);
        assert(rest.insert(at, crossing).push(list.last()) =~= list.insert(at, crossing));
    }
}

fn order_crossings(list: &[Crossing]) -> (sorted: Vec<Crossing>)
    requires
        forall|i: int| 0 <= i < list@.len() ==> -1 <= (#[trigger] list@[i]).1 <= 1,
    ensures
        sorted@ == crossings_in_order(list@, list@.len()),
        sorted@.len() <= list@.len(),
        forall|i: int| 0 <= i < sorted@.len() ==> -1 <= (#[trigger] sorted@[i]).1 <= 1,
{
    let mut sorted: Vec<Crossing> = Vec::new();
    let mut next: usize = 0;
    while next < list.len()
        invariant
            next <= list@.len(),
            sorted@.len() <= next,
            sorted@ == crossings_in_order(list@, next as nat),
            forall|i: int| 0 <= i < list@.len() ==> -1 <= (#[trigger] list@[i]).1 <= 1,
            forall|i: int| 0 <= i < sorted@.len() ==> -1 <= (#[trigger] sorted@[i]).1 <= 1,
        decreases list@.len() - next,
    {
        let crossing = list[next];
        assert(-1 <= list@[next as int].1 <= 1);
        if is_finite(crossing.0) {
            let mut at: usize = sorted.len();
            while at > 0 && less(crossing.0, sorted[at - 1].0)
                invariant
                    at <= sorted@.len(),
                    forall|i: int|
                        at <= i < sorted@.len() ==> below(crossing.0, (#[trigger] sorted@[i]).0),
                decreases at,
            {
                at = at - 1;
            }
            proof {
                placing_inserts_a_crossing(sorted@, crossing, at as int);
            }
            let ghost before = sorted@;
            sorted.insert(at, crossing);
            assert forall|i: int| 0 <= i < sorted@.len() implies -1 <= (#[trigger] sorted@[i]).1 <= 1 by {
                if i < at {
                    assert(sorted@[i] == before[i]);
                } else if i > at {
                    assert(sorted@[i] == before[i - 1]);
                }
            }
        }
        next = next + 1;
    }
    sorted
}

proof fn winding_is_bounded(list: Seq<Crossing>, count: nat)
    requires
        count <= list.len(),
        forall|i: int| 0 <= i < list.len() ==> -1 <= (#[trigger] list[i]).1 <= 1,
    ensures
        -count <= winding_after(list, count) <= count,
    decreases count,
{
    if count > 0 {
        winding_is_bounded(list, (count - 1) as nat);
    }
}

/// The spans of a row that are inside, from left to right, from where the row crosses its edges.
pub fn row_spans(crossings: &[Crossing], rule: FillRule) -> (spans: Vec<(u32, u32)>)
    requires
        crossings@.len() <= i32::MAX,
        forall|i: int| 0 <= i < crossings@.len() ==> -1 <= (#[trigger] crossings@[i]).1 <= 1,
    ensures
        ({
            let list = crossings_in_order(crossings@, crossings@.len());
            spans@ == spans_of(list, rule, list.len())
        }),
{
    let sorted = order_crossings(crossings);
    let ghost list = sorted@;
    let mut spans: Vec<(u32, u32)> = Vec::new();
    let mut winding: i32 = 0;
    let mut start: u32 = 0;
    let mut inside = false;
    let mut next: usize = 0;
    while next < sorted.len()
        invariant
            next <= sorted@.len() <= i32::MAX,
            list == sorted@,
            forall|i: int| 0 <= i < list.len() ==> -1 <= (#[trigger] list[i]).1 <= 1,
            winding == winding_after(list, next as nat),
            inside == rule.fills(winding as int),
            start == opened_at(list, rule, next as nat),
            spans@ == spans_of(list, rule, next as nat),
        decreases sorted@.len() - next,
    {
        let (x, direction): (u32, i32) = sorted[next];
        proof {
            winding_is_bounded(list, next as nat);
            winding_is_bounded(list, (next + 1) as nat);
            assert(-1 <= list[next as int].1 <= 1);
        }
        let was_inside = inside;
        winding = winding + direction;
        inside = match rule {
            FillRule::NonZero => winding != 0,
            FillRule::EvenOdd => is_odd(winding),
        };
        if !was_inside && inside {
            start = x;
        } else if was_inside && !inside {
            spans.push((start, x));
        }
        next = next + 1;
    }
    spans
}

fn is_odd(value: i32) -> (odd: bool)
    ensures
        odd == (value as int % 2 != 0),
{
    let low: i32 = value & 1;
    assert(value & 1i32 == 0 || value & 1i32 == 1) by (bit_vector);
    assert((value & 1i32 == 1) == (value % 2 != 0)) by (bit_vector);
    low == 1
}

/// Whether spans light a column, each span given by its first column and the one past its last.
pub open spec fn lights(spans: Seq<(i64, i64)>, column: int) -> bool {
    exists|i: int| 0 <= i < spans.len() && (#[trigger] spans[i]).0 <= column < spans[i].1
}

/// The columns of a row the spans light, each span given by its first column and the one past its last.
pub fn lit_columns(width: usize, spans: &[(i64, i64)]) -> (row: Vec<bool>)
    ensures
        row@.len() == width,
        forall|column: int|
            0 <= column < width ==> (#[trigger] row@[column] <==> exists|i: int|
                0 <= i < spans@.len() && (#[trigger] spans@[i]).0 <= column < spans@[i].1),
        forall|column: int| 0 <= column < width ==> #[trigger] row@[column] == lights(spans@, column),
{
    let mut row: Vec<bool> = Vec::new();
    let mut column: usize = 0;
    while column < width
        invariant
            column <= width,
            row@.len() == column,
            forall|c: int|
                0 <= c < column ==> (#[trigger] row@[c] <==> exists|i: int|
                    0 <= i < spans@.len() && (#[trigger] spans@[i]).0 <= c < spans@[i].1),
        decreases width - column,
    {
        let mut lit = false;
        let mut next: usize = 0;
        while next < spans.len()
            invariant
                next <= spans@.len(),
                lit <==> exists|i: int|
                    0 <= i < next && (#[trigger] spans@[i]).0 <= column < spans@[i].1,
            decreases spans@.len() - next,
        {
            let (first, last): (i64, i64) = spans[next];
            let ghost before = lit;
            if (first <= 0 || first as u64 <= column as u64) && last > 0 && (column as u64) < last as u64 {
                assert(spans@[next as int].0 <= column < spans@[next as int].1);
                lit = true;
            }
            proof {
                if before {
                    let i = choose|i: int|
                        0 <= i < next && (#[trigger] spans@[i]).0 <= column < spans@[i].1;
                    assert(spans@[i].0 <= column < spans@[i].1);
                }
            }
            next = next + 1;
        }
        row.push(lit);
        column = column + 1;
    }
    row
}

// ---------------------------------------------------------------------------------------------
// Which columns of a row are emitted.
// ---------------------------------------------------------------------------------------------
/// The columns one row's edges reached, as the first and the last of them.
#[derive(Clone, Copy, PartialEq, Eq, Structural, Debug)]
pub struct Touched {
    pub low: usize,
    pub high: usize,
}

impl Touched {
    /// The first and the last column reached, where one was.
    pub open spec fn reached(self) -> Option<(usize, usize)> {
        if self.low <= self.high {
            Some((self.low, self.high))
        } else {
            None
        }
    }

    /// No column.
    pub fn none() -> (made: Touched)
        ensures
            made.reached() is None,
            made.low == usize::MAX,
            made.high == 0,
    {
        Touched { low: usize::MAX, high: 0 }
    }

    /// Count a column in.
    pub fn mark(&mut self, index: usize)
        ensures
            final(self).low == (if old(self).low < index {
                old(self).low
            } else {
                index
            }),
            final(self).high == (if old(self).high > index {
                old(self).high
            } else {
                index
            }),
            final(self).reached() is Some,
    {
        if index < self.low {
            self.low = index;
        }
        if index > self.high {
            self.high = index;
        }
    }

    /// The first and the last column reached.
    pub fn range(&self) -> (columns: Option<(usize, usize)>)
        ensures
            columns == self.reached(),
    {
        if self.low <= self.high {
            Some((self.low, self.high))
        } else {
            None
        }
    }
}

/// The columns a row is emitted for, from the columns its edges reached and whether it is covered left and
/// right of them: nothing accumulated outside, so each side has one answer for all of it.
pub open spec fn emitted(
    touched: Option<(usize, usize)>,
    left: bool,
    right: bool,
    width: usize,
) -> Option<(usize, usize)> {
    match touched {
        None => if left {
            Some((0, width))
        } else {
            None
        },
        Some((low, high)) => Some(
            (
                if left {
                    0
                } else {
                    low
                },
                if right {
                    width
                } else {
                    (high + 1) as usize
                },
            ),
        ),
    }
}

/// The columns a row is emitted for.
pub fn emit_range(touched: &Touched, left: bool, right: bool, width: usize) -> (columns: Option<(usize, usize)>)
    requires
        touched.reached() matches Some((_, high)) ==> high < width,
    ensures
        columns == emitted(touched.reached(), left, right, width),
        columns matches Some((first, last)) ==> last <= width && (touched.reached() matches Some((low, high))
            ==> first <= low && high < last),
{
    match touched.range() {
        None => {
            if left {
                Some((0, width))
            } else {
                None
            }
        },
        Some((low, high)) => {
            let first: usize = if left {
                0
            } else {
                low
            };
            let last: usize = if right {
                width
            } else {
                high + 1
            };
            Some((first, last))
        },
    }
}

/// A winding-weighted area as a coverage under the non-zero rule: its size, and no more than one.
pub open spec fn saturated(value: u32) -> u32 {
    let size = if below(value, 0) {
        opposite(value)
    } else {
        value
    };
    if below(ONE, size) {
        ONE
    } else {
        size
    }
}

/// A winding-weighted area as a coverage under the non-zero rule.
pub fn wind_nonzero(value: u32) -> (covered: u32)
    ensures
        covered == saturated(value),
{
    let size: u32 = if less(value, 0) {
        negate(value)
    } else {
        value
    };
    if less(ONE, size) {
        ONE
    } else {
        size
    }
}

/// A coverage is never negative and never more than one, and does not depend on which way the area winds.
pub proof fn a_coverage_is_a_fraction(value: u32)
    requires
        !crate::bits::nan(value),
    ensures
        0 <= rank(saturated(value)) <= rank(ONE),
        same(saturated(value), saturated(opposite(value))),
{
}

// ---------------------------------------------------------------------------------------------
// The aliased line.
// ---------------------------------------------------------------------------------------------
/// `numerator / denominator` rounded to the nearest, a half going down; for a positive denominator.
pub open spec fn nearest_down(numerator: int, denominator: int) -> int {
    (2 * numerator + denominator - 1) / (2 * denominator)
}

/// The nearest is within a half, and at exactly a half it is the smaller.
pub proof fn the_nearest_is_within_a_half(numerator: int, denominator: int)
    requires
        denominator > 0,
    ensures
        ({
            let r = nearest_down(numerator, denominator);
            (2 * r - 1) * denominator < 2 * numerator && 2 * numerator <= (2 * r + 1) * denominator
        }),
{
    let (n, d) = (2 * numerator + denominator - 1, 2 * denominator);
    vstd::arithmetic::div_mod::lemma_fundamental_div_mod(n, d);
    let (q, rest) = (n / d, n % d);
    assert((2 * q - 1) * denominator < 2 * numerator && 2 * numerator <= (2 * q + 1) * denominator)
        by (nonlinear_arith)
        requires
            2 * numerator + denominator - 1 == d * q + rest,
            d == 2 * denominator,
            0 <= rest < d,
    ;
}

/// `numerator / denominator` rounded to the nearest, a half going down. A denominator of zero gives zero.
pub fn round_half_down(numerator: i128, denominator: i128) -> (rounded: i128)
    requires
        -0x1_0000_0000_0000_0000_0000 <= numerator <= 0x1_0000_0000_0000_0000_0000,
        -0x1_0000_0000_0000_0000_0000 <= denominator <= 0x1_0000_0000_0000_0000_0000,
    ensures
        rounded == (if denominator == 0 {
            0
        } else if denominator < 0 {
            nearest_down(-numerator, -denominator)
        } else {
            nearest_down(numerator as int, denominator as int)
        }),
{
    if denominator == 0 {
        return 0;
    }
    let (n, d): (i128, i128) = if denominator < 0 {
        (-numerator, -denominator)
    } else {
        (numerator, denominator)
    };
    let top: i128 = 2 * n + d - 1;
    let under: i128 = 2 * d;
    if top >= 0 {
        top / under
    } else {
        let mirrored: i128 = -1 - top;
        let quotient: i128 = mirrored / under;
        proof {
            vstd::arithmetic::div_mod::lemma_fundamental_div_mod(mirrored as int, under as int);
            let rest = mirrored as int % under as int;
            assert(top == (-1 - quotient) * under + (under - 1 - rest)) by (nonlinear_arith)
                requires
                    mirrored == -1 - top,
                    mirrored == under * quotient + rest,
            ;
            vstd::arithmetic::div_mod::lemma_fundamental_div_mod_converse(
                top as int,
                under as int,
                -1 - quotient,
                under - 1 - rest,
            );
        }
        -1 - quotient
    }
}

/// The size of a number.
pub open spec fn size(value: int) -> int {
    if value < 0 {
        -value
    } else {
        value
    }
}

/// How many steps a line takes along its longer axis.
pub open spec fn line_steps(from: (i32, i32), to: (i32, i32)) -> int {
    let (dx, dy) = (size(to.0 - from.0), size(to.1 - from.1));
    if dx >= dy {
        dx
    } else {
        dy
    }
}

/// Where one axis of a line stands after some steps of the longer axis, `steps` in all: walked exactly where
/// it is the longer, rounded where it is not.
pub open spec fn along(from: int, to: int, steps: int, step: int) -> int {
    from + nearest_down(step * (to - from), steps)
}

/// The pixel of a line at a step.
pub open spec fn line_point(from: (i32, i32), to: (i32, i32), step: int) -> (int, int) {
    let steps = line_steps(from, to);
    if steps == 0 {
        (from.0 as int, from.1 as int)
    } else {
        (
            along(from.0 as int, to.0 as int, steps, step),
            along(from.1 as int, to.1 as int, steps, step),
        )
    }
}

/// The pixels of the first `count` steps of a line that are in a clip.
pub open spec fn line_pixels(from: (i32, i32), to: (i32, i32), clip: PixelRect, count: nat) -> Seq<(u32, u32)>
    decreases count,
{
    if count == 0 {
        Seq::empty()
    } else {
        let before = line_pixels(from, to, clip, (count - 1) as nat);
        let (x, y) = line_point(from, to, count - 1);
        if clip.has(x, y) {
            before.push((x as u32, y as u32))
        } else {
            before
        }
    }
}

proof fn walking_is_exact(from: int, to: int, steps: int, step: int)
    requires
        steps > 0,
        to - from == steps || to - from == -steps,
    ensures
        along(from, to, steps, step) == (if to - from == steps {
            from + step
        } else {
            from - step
        }),
{
    let d = to - from;
    if d == steps {
        assert(2 * (step * d) + steps - 1 == step * (2 * steps) + (steps - 1)) by (nonlinear_arith)
            requires
                d == steps,
        ;
        vstd::arithmetic::div_mod::lemma_fundamental_div_mod_converse(
            2 * (step * d) + steps - 1,
            2 * steps,
            step,
            steps - 1,
        );
    } else {
        assert(2 * (step * d) + steps - 1 == (-step) * (2 * steps) + (steps - 1)) by (nonlinear_arith)
            requires
                d == -steps,
        ;
        vstd::arithmetic::div_mod::lemma_fundamental_div_mod_converse(
            2 * (step * d) + steps - 1,
            2 * steps,
            -step,
            steps - 1,
        );
    }
}

/// Each axis stays between its ends.
/// A line never leaves the rectangle between its ends: each axis stays between where it starts and where it
/// ends.
pub proof fn an_axis_stays_between(from: int, to: int, steps: int, step: int)
    requires
        steps > 0,
        0 <= step <= steps,
        -steps <= to - from <= steps,
    ensures
        from <= along(from, to, steps, step) <= to || to <= along(from, to, steps, step) <= from,
{
    let d = to - from;
    let n = step * d;
    the_nearest_is_within_a_half(n, steps);
    let r = nearest_down(n, steps);
    if d >= 0 {
        assert(0 <= n <= steps * d) by (nonlinear_arith)
            requires
                n == step * d,
                0 <= step <= steps,
                d >= 0,
        ;
        assert(0 <= r && r <= d) by (nonlinear_arith)
            requires
                (2 * r - 1) * steps < 2 * n,
                2 * n <= (2 * r + 1) * steps,
                0 <= n <= steps * d,
                steps > 0,
        ;
    } else {
        assert(steps * d <= n <= 0) by (nonlinear_arith)
            requires
                n == step * d,
                0 <= step <= steps,
                d < 0,
        ;
        assert(d <= r && r <= 0) by (nonlinear_arith)
            requires
                (2 * r - 1) * steps < 2 * n,
                2 * n <= (2 * r + 1) * steps,
                steps * d <= n <= 0,
                steps > 0,
        ;
    }
}

fn axis_at(from: i32, to: i32, steps: i64, step: i64) -> (at: i64)
    requires
        0 < steps <= 0x1_0000_0000,
        0 <= step <= steps,
        -steps <= to - from <= steps,
    ensures
        at == along(from as int, to as int, steps as int, step as int),
        from <= at <= to || to <= at <= from,
{
    let distance: i128 = to as i128 - from as i128;
    assert(-0x1_0000_0000_0000_0000 <= step * distance <= 0x1_0000_0000_0000_0000) by (nonlinear_arith)
        requires
            0 <= step <= 0x1_0000_0000,
            -0x1_0000_0000 <= distance <= 0x1_0000_0000,
    ;
    proof {
        an_axis_stays_between(from as int, to as int, steps as int, step as int);
    }
    (from as i128 + round_half_down(step as i128 * distance, steps as i128)) as i64
}

/// The pixels of a line that are in a clip, in the order the line walks them: both ends included, a tie on the
/// shorter axis going to the smaller coordinate. A clip whose far edge is no machine number shows nothing.
pub fn aliased_line(from: (i32, i32), to: (i32, i32), clip: PixelRect) -> (pixels: Vec<(u32, u32)>)
    ensures
        pixels@ == (if clip.x + clip.width > u32::MAX || clip.y + clip.height > u32::MAX {
            Seq::empty()
        } else {
            line_pixels(from, to, clip, (line_steps(from, to) + 1) as nat)
        }),
{
    let mut pixels: Vec<(u32, u32)> = Vec::new();
    let (right, bottom): (u32, u32) = match (clip.right(), clip.bottom()) {
        (Some(r), Some(b)) => (r, b),
        _ => {
            return pixels;
        },
    };
    let dx: i64 = if to.0 >= from.0 {
        to.0 as i64 - from.0 as i64
    } else {
        from.0 as i64 - to.0 as i64
    };
    let dy: i64 = if to.1 >= from.1 {
        to.1 as i64 - from.1 as i64
    } else {
        from.1 as i64 - to.1 as i64
    };
    let steps: i64 = if dx >= dy {
        dx
    } else {
        dy
    };
    let mut step: i64 = 0;
    while step <= steps
        invariant
            0 <= step <= steps + 1,
            steps == line_steps(from, to),
            steps <= 0xffff_ffff,
            right == clip.x + clip.width,
            bottom == clip.y + clip.height,
            pixels@ == line_pixels(from, to, clip, step as nat),
        decreases steps + 1 - step,
    {
        let (x, y): (i64, i64) = if steps == 0 {
            (from.0 as i64, from.1 as i64)
        } else {
            (axis_at(from.0, to.0, steps, step), axis_at(from.1, to.1, steps, step))
        };
        assert((x as int, y as int) == line_point(from, to, step as int));
        if x >= clip.x as i64 && x < right as i64 && y >= clip.y as i64 && y < bottom as i64 {
            pixels.push((x as u32, y as u32));
        }
        step = step + 1;
    }
    pixels
}

/// A line starts at its first end and stops at its second.
pub proof fn a_line_has_both_ends(from: (i32, i32), to: (i32, i32))
    ensures
        line_point(from, to, 0) == (from.0 as int, from.1 as int),
        line_point(from, to, line_steps(from, to)) == (to.0 as int, to.1 as int),
{
    let steps = line_steps(from, to);
    if steps > 0 {
        an_end_is_reached(from.0 as int, to.0 as int, steps);
        an_end_is_reached(from.1 as int, to.1 as int, steps);
    }
}

proof fn an_end_is_reached(from: int, to: int, steps: int)
    requires
        steps > 0,
    ensures
        along(from, to, steps, 0) == from,
        along(from, to, steps, steps) == to,
{
    let d = to - from;
    assert(2 * (0 * d) + steps - 1 == 0 * (2 * steps) + (steps - 1)) by (nonlinear_arith);
    vstd::arithmetic::div_mod::lemma_fundamental_div_mod_converse(
        2 * (0 * d) + steps - 1,
        2 * steps,
        0,
        steps - 1,
    );
    assert(2 * (steps * d) + steps - 1 == d * (2 * steps) + (steps - 1)) by (nonlinear_arith);
    vstd::arithmetic::div_mod::lemma_fundamental_div_mod_converse(
        2 * (steps * d) + steps - 1,
        2 * steps,
        d,
        steps - 1,
    );
}

/// The pixels of the first `count` steps of a line, in order, clipped by nothing.
pub open spec fn line_points(from: (i32, i32), to: (i32, i32), count: nat) -> Seq<(int, int)> {
    Seq::new(count, |step: int| line_point(from, to, step))
}

/// A clip shows exactly the part of a line that is in it, in the line's order and each pixel as often as the line
/// passes it: the clipped line is the whole one with the pixels outside left out.
pub proof fn a_clipped_line_is_the_visible_part(from: (i32, i32), to: (i32, i32), clip: PixelRect, count: nat)
    ensures
        line_pixels(from, to, clip, count) == line_points(from, to, count).filter(
            |at: (int, int)| clip.has(at.0, at.1),
        ).map_values(|at: (int, int)| (at.0 as u32, at.1 as u32)),
    decreases count,
{
    reveal(Seq::filter);
    let shown = |at: (int, int)| clip.has(at.0, at.1);
    let named = |at: (int, int)| (at.0 as u32, at.1 as u32);
    let points = line_points(from, to, count);
    if count == 0 {
        assert(line_pixels(from, to, clip, count) =~= points.filter(shown).map_values(named));
    } else {
        a_clipped_line_is_the_visible_part(from, to, clip, (count - 1) as nat);
        assert(points.drop_last() =~= line_points(from, to, (count - 1) as nat));
        assert(points.last() == line_point(from, to, count - 1));
        assert(line_pixels(from, to, clip, count) =~= points.filter(shown).map_values(named));
    }
}

/// What a smaller clip shows of a line is what a larger one shows of it, with the pixels outside the smaller one
/// left out.
pub proof fn a_smaller_clip_shows_less_of_the_same(
    from: (i32, i32),
    to: (i32, i32),
    clip: PixelRect,
    larger: PixelRect,
    count: nat,
)
    requires
        larger.x + larger.width <= u32::MAX,
        larger.y + larger.height <= u32::MAX,
        forall|x: int, y: int| #[trigger] clip.has(x, y) ==> larger.has(x, y),
    ensures
        line_pixels(from, to, clip, count) == line_pixels(from, to, larger, count).filter(
            |at: (u32, u32)| clip.has(at.0 as int, at.1 as int),
        ),
    decreases count,
{
    reveal(Seq::filter);
    let shown = |at: (u32, u32)| clip.has(at.0 as int, at.1 as int);
    let whole = line_pixels(from, to, larger, count);
    if count == 0 {
        assert(line_pixels(from, to, clip, count) =~= whole.filter(shown));
    } else {
        a_smaller_clip_shows_less_of_the_same(from, to, clip, larger, (count - 1) as nat);
        let before = line_pixels(from, to, larger, (count - 1) as nat);
        let (x, y) = line_point(from, to, count - 1);
        if larger.has(x, y) {
            assert(whole.drop_last() =~= before);
            assert(whole.last() == (x as u32, y as u32));
        } else {
            assert(!clip.has(x, y));
        }
    }
}

/// A clip shows a pixel just where it holds it and the line passes it.
pub proof fn a_shown_pixel_is_passed(
    from: (i32, i32),
    to: (i32, i32),
    clip: PixelRect,
    count: nat,
    x: u32,
    y: u32,
)
    requires
        clip.x + clip.width <= u32::MAX,
        clip.y + clip.height <= u32::MAX,
    ensures
        line_pixels(from, to, clip, count).contains((x, y)) <==> clip.has(x as int, y as int) && (exists|
            step: int,
        |
            0 <= step < count && #[trigger] line_point(from, to, step) == (x as int, y as int)),
    decreases count,
{
    if count > 0 {
        a_shown_pixel_is_passed(from, to, clip, (count - 1) as nat, x, y);
        let before = line_pixels(from, to, clip, (count - 1) as nat);
        let all = line_pixels(from, to, clip, count);
        let here = line_point(from, to, count - 1);
        if all.contains((x, y)) {
            let i = choose|i: int| 0 <= i < all.len() && all[i] == (x, y);
            if i < before.len() {
                assert(before[i] == (x, y));
            } else {
                assert(line_point(from, to, count - 1) == (x as int, y as int));
            }
        }
        if clip.has(x as int, y as int) && (exists|step: int|
            0 <= step < count && #[trigger] line_point(from, to, step) == (x as int, y as int)) {
            let step = choose|step: int|
                0 <= step < count && #[trigger] line_point(from, to, step) == (x as int, y as int);
            if step == count - 1 {
                assert(all[before.len() as int] == (x, y));
            } else {
                let i = choose|i: int| 0 <= i < before.len() && before[i] == (x, y);
                assert(before.contains((x, y)));
                assert(all[i] == (x, y));
            }
        }
    }
}

/// The longer axis of a line is walked one pixel a step.
pub proof fn the_longer_axis_is_walked_exactly(from: (i32, i32), to: (i32, i32), step: int)
    requires
        line_steps(from, to) > 0,
    ensures
        size(to.0 - from.0) == line_steps(from, to) ==> line_point(from, to, step).0 == (if to.0 > from.0 {
            from.0 + step
        } else {
            from.0 - step
        }),
        size(to.1 - from.1) == line_steps(from, to) ==> line_point(from, to, step).1 == (if to.1 > from.1 {
            from.1 + step
        } else {
            from.1 - step
        }),
{
    let steps = line_steps(from, to);
    if size(to.0 - from.0) == steps {
        walking_is_exact(from.0 as int, to.0 as int, steps, step);
    }
    if size(to.1 - from.1) == steps {
        walking_is_exact(from.1 as int, to.1 as int, steps, step);
    }
}

// ---------------------------------------------------------------------------------------------
// Laws of filling.
// ---------------------------------------------------------------------------------------------
/// An edge runs from the upper of its two points to the lower, each with its own column, and winds forward where the first
/// point is the upper one. Two points on one row make none, and neither does one that is no number.
pub proof fn an_edge_is_by_number(from: Point, to: Point)
    ensures
        ({
            let numbers = finite(from.0) && finite(from.1) && finite(to.0) && finite(to.1);
            match edge_between(from, to) {
                None => !numbers || number(from.1) == number(to.1),
                Some(edge) => {
                    &&& numbers
                    &&& number(edge.top_y) < number(edge.bottom_y)
                    &&& number(from.1) < number(to.1) ==> edge.winding == 1 && (edge.top_x, edge.top_y) == from && (
                    edge.bottom_x, edge.bottom_y) == to
                    &&& number(from.1) > number(to.1) ==> edge.winding == -1 && (edge.top_x, edge.top_y) == to && (
                    edge.bottom_x, edge.bottom_y) == from
                },
            }
        }),
{
    if finite(from.1) && finite(to.1) {
        order_is_by_number(from.1, to.1);
        order_is_by_number(to.1, from.1);
    }
}

/// A contour is closed: each of its points is joined to the one after it, and the last to the first.
pub proof fn a_contour_is_closed(points: Seq<Point>, k: int)
    requires
        0 <= k < points.len(),
    ensures
        sides(points, 0).len() == 0,
        sides(points, (k + 1) as nat) == (match edge_between(points[k], points[(k + 1) % points.len() as int]) {
            Some(edge) => sides(points, k as nat).push(edge),
            None => sides(points, k as nat),
        }),
{
    if k + 1 < points.len() {
        vstd::arithmetic::div_mod::lemma_small_mod((k + 1) as nat, points.len());
    } else {
        vstd::arithmetic::div_mod::lemma_mod_self_0(points.len() as int);
    }
}

/// An outline is its contours' sides, contour after contour; a contour of a single point has none.
pub proof fn an_outline_is_its_contours(contours: Seq<Vec<Point>>, k: int)
    requires
        0 <= k < contours.len(),
    ensures
        outline(contours, 0).len() == 0,
        outline(contours, (k + 1) as nat) == outline(contours, k as nat) + if contours[k]@.len() >= 2 {
            sides(contours[k]@, contours[k]@.len())
        } else {
            Seq::empty()
        },
{
}

/// No edge starts above the topmost or ends below the lowest, and some edge does just there.
pub proof fn the_extent_of_edges_is_reached(edges: Seq<Edge>, i: int)
    requires
        0 <= i < edges.len(),
        proper(edges),
    ensures
        number(topmost(edges)) <= number(edges[i].top_y),
        number(lowest(edges)) >= number(edges[i].bottom_y),
        exists|k: int| 0 <= k < edges.len() && topmost(edges) == (#[trigger] edges[k]).top_y,
        exists|k: int| 0 <= k < edges.len() && lowest(edges) == (#[trigger] edges[k]).bottom_y,
    decreases edges.len(),
{
    let rest = edges.drop_last();
    let last = edges.last();
    assert(edges[edges.len() - 1] == last);
    assert forall|k: int| 0 <= k < rest.len() implies finite((#[trigger] rest[k]).top_y) && finite(rest[k].bottom_y)
        && below(rest[k].top_y, rest[k].bottom_y) by {
        assert(rest[k] == edges[k]);
    }
    if rest.len() == 0 {
        assert(rank(last.top_y) < rank(0x7F80_0000) && rank(0xFF80_0000) < rank(last.bottom_y));
        assert(topmost(rest) == 0x7F80_0000 && lowest(rest) == 0xFF80_0000);
        assert(topmost(edges) == edges[0].top_y && lowest(edges) == edges[0].bottom_y);
    } else {
        let j = if i < rest.len() {
            i
        } else {
            0
        };
        the_extent_of_edges_is_reached(rest, j);
        let a = choose|k: int| 0 <= k < rest.len() && topmost(rest) == (#[trigger] rest[k]).top_y;
        let b = choose|k: int| 0 <= k < rest.len() && lowest(rest) == (#[trigger] rest[k]).bottom_y;
        assert(edges[a] == rest[a] && edges[b] == rest[b]);
        order_is_by_number(last.top_y, topmost(rest));
        order_is_by_number(lowest(rest), last.bottom_y);
        assert(rest[j] == edges[j]);
    }
}

/// A row meets an edge that has started by then and goes on past the row's own start, and no other; the edges it meets
/// keep their order.
pub proof fn a_row_meets_the_edges_across_it(edges: Seq<Edge>, mark: Mark, count: nat, k: int)
    requires
        count <= edges.len() <= u32::MAX,
        0 <= k < count,
        proper(edges),
        finite(mark.until) && finite(mark.floor),
    ensures
        met(edges, mark, count).contains(k as u32) <==> {
            &&& number(mark.floor) < number(edges[k].bottom_y)
            &&& if mark.inclusive {
                number(edges[k].top_y) <= number(mark.until)
            } else {
                number(edges[k].top_y) < number(mark.until)
            }
        },
        forall|i: int, j: int|
            0 <= i < j < met(edges, mark, count).len() ==> #[trigger] met(edges, mark, count)[i] < #[trigger] met(
                edges,
                mark,
                count,
            )[j],
{
    met_ascends(edges, mark, count);
    met_is_by_edge(edges, mark, count, k);
    assert(finite(edges[k].top_y) && finite(edges[k].bottom_y));
    order_is_by_number(mark.floor, edges[k].bottom_y);
    order_is_by_number(mark.until, edges[k].top_y);
    order_is_by_number(edges[k].top_y, mark.until);
}

proof fn met_ascends(edges: Seq<Edge>, mark: Mark, count: nat)
    requires
        count <= edges.len() <= u32::MAX,
    ensures
        ({
            let list = met(edges, mark, count);
            &&& forall|i: int| 0 <= i < list.len() ==> #[trigger] list[i] < count
            &&& forall|i: int, j: int| 0 <= i < j < list.len() ==> #[trigger] list[i] < #[trigger] list[j]
        }),
    decreases count,
{
    if count > 0 {
        met_ascends(edges, mark, (count - 1) as nat);
        let before = met(edges, mark, (count - 1) as nat);
        let list = met(edges, mark, count);
        assert forall|i: int| 0 <= i < list.len() implies #[trigger] list[i] < count by {
            if i < before.len() {
                assert(list[i] == before[i]);
            }
        }
        assert forall|i: int, j: int| 0 <= i < j < list.len() implies #[trigger] list[i] < #[trigger] list[j] by {
            assert(list[i] == before[i]);
            if j < before.len() {
                assert(list[j] == before[j]);
            }
        }
    }
}

proof fn met_is_by_edge(edges: Seq<Edge>, mark: Mark, count: nat, k: int)
    requires
        count <= edges.len() <= u32::MAX,
        0 <= k < count,
    ensures
        met(edges, mark, count).contains(k as u32) <==> mark.begun(edges[k]) && mark.live(edges[k]),
    decreases count,
{
    let before = met(edges, mark, (count - 1) as nat);
    let list = met(edges, mark, count);
    met_ascends(edges, mark, (count - 1) as nat);
    if k < count - 1 {
        met_is_by_edge(edges, mark, (count - 1) as nat, k);
        if before.contains(k as u32) {
            let i = choose|i: int| 0 <= i < before.len() && before[i] == k as u32;
            assert(list[i] == k as u32);
        }
        if list.contains(k as u32) {
            let i = choose|i: int| 0 <= i < list.len() && list[i] == k as u32;
            if i == before.len() {
                assert(list[i] == (count - 1) as u32);
            }
            assert(before[i] == k as u32);
        }
    } else {
        if list.contains(k as u32) {
            let i = choose|i: int| 0 <= i < list.len() && list[i] == k as u32;
            if i < before.len() {
                assert(before[i] < count - 1);
            }
        }
        if list.len() > before.len() {
            assert(list[before.len() as int] == k as u32);
        }
    }
}

/// A winding number is inside under the non-zero rule where it is not nothing, and under the even-odd rule where it is odd.
pub proof fn a_fill_rule_is_by_winding(winding: int)
    ensures
        FillRule::NonZero.fills(winding) <==> winding < 0 || winding > 0,
        FillRule::EvenOdd.fills(winding) <==> exists|half: int| winding == #[trigger] (2 * half) + 1,
{
    if winding % 2 != 0 {
        assert(winding == 2 * (winding / 2) + 1);
    }
}

/// Whether crossings go from left to right.
pub open spec fn rightward(list: Seq<Crossing>) -> bool {
    forall|i: int, j: int|
        0 <= i <= j < list.len() ==> number(#[trigger] list[i].0) <= number(#[trigger] list[j].0)
}

proof fn placing_keeps_rightward(list: Seq<Crossing>, crossing: Crossing)
    requires
        rightward(list),
        finite(crossing.0),
        forall|i: int| 0 <= i < list.len() ==> finite((#[trigger] list[i]).0),
    ensures
        rightward(placed_crossing(list, crossing)),
        forall|i: int| 0 <= i < placed_crossing(list, crossing).len() ==> finite((#[trigger] placed_crossing(list, crossing)[i]).0),
        placed_crossing(list, crossing).to_multiset() == list.to_multiset().insert(crossing),
        placed_crossing(list, crossing).len() == list.len() + 1,
        forall|i: int|
            0 <= i < placed_crossing(list, crossing).len() ==> number((#[trigger] placed_crossing(list, crossing)[i]).0)
                <= number(crossing.0) || (list.len() > 0 && number(placed_crossing(list, crossing)[i].0) <= number(
                list.last().0,
            )),
    decreases list.len(),
{
    vstd::seq_lib::to_multiset_build(list, crossing);
    let result = placed_crossing(list, crossing);
    if list.len() == 0 || !below(crossing.0, list.last().0) {
        if list.len() > 0 {
            assert(finite(list[list.len() - 1].0));
            order_is_by_number(crossing.0, list.last().0);
        }
        assert forall|i: int, j: int| 0 <= i <= j < result.len() implies number(#[trigger] result[i].0) <= number(
            #[trigger] result[j].0,
        ) by {
            if j < list.len() {
                assert(result[i] == list[i] && result[j] == list[j]);
            } else if i < list.len() {
                assert(result[i] == list[i]);
                assert(number(list[i].0) <= number(list[list.len() - 1].0));
            }
        }
    } else {
        let rest = list.drop_last();
        assert forall|i: int, j: int| 0 <= i <= j < rest.len() implies number(#[trigger] rest[i].0) <= number(
            #[trigger] rest[j].0,
        ) by {
            assert(rest[i] == list[i] && rest[j] == list[j]);
        }
        assert forall|i: int| 0 <= i < rest.len() implies finite((#[trigger] rest[i]).0) by {
            assert(rest[i] == list[i]);
        }
        placing_keeps_rightward(rest, crossing);
        let inner = placed_crossing(rest, crossing);
        let last = list.last();
        assert(finite(list[list.len() - 1].0));
        order_is_by_number(crossing.0, last.0);
        vstd::seq_lib::to_multiset_build(inner, last);
        vstd::seq_lib::to_multiset_build(rest, last);
        assert(rest.push(last) =~= list);
        assert(rest.to_multiset().insert(crossing).insert(last) =~= rest.to_multiset().insert(last).insert(crossing));
        if rest.len() > 0 {
            assert(rest[rest.len() - 1] == list[rest.len() - 1]);
            assert(number(list[rest.len() - 1].0) <= number(list[list.len() - 1].0));
        }
        assert forall|i: int| 0 <= i < result.len() implies number((#[trigger] result[i]).0) <= number(last.0) by {
            if i < inner.len() {
                assert(result[i] == inner[i]);
            }
        }
        assert forall|i: int, j: int| 0 <= i <= j < result.len() implies number(#[trigger] result[i].0) <= number(
            #[trigger] result[j].0,
        ) by {
            if j < inner.len() {
                assert(result[i] == inner[i] && result[j] == inner[j]);
            }
        }
        assert forall|i: int| 0 <= i < result.len() implies finite((#[trigger] result[i]).0) by {
            if i < inner.len() {
                assert(result[i] == inner[i]);
            }
        }
    }
}

/// The crossings of a row are taken from left to right: all of them that are numbers, each as often as it was given.
pub proof fn crossings_go_from_left_to_right(list: Seq<Crossing>, count: nat)
    requires
        count <= list.len(),
    ensures
        rightward(crossings_in_order(list, count)),
        forall|i: int|
            0 <= i < crossings_in_order(list, count).len() ==> finite((#[trigger] crossings_in_order(list, count)[i]).0),
        crossings_in_order(list, count).to_multiset() == list.take(count as int).filter(
            |crossing: Crossing| finite(crossing.0),
        ).to_multiset(),
    decreases count,
{
    reveal(Seq::filter);
    let numbers = |crossing: Crossing| finite(crossing.0);
    let given = list.take(count as int);
    if count == 0 {
        assert(given =~= Seq::<Crossing>::empty());
        assert(given.filter(numbers) =~= crossings_in_order(list, count));
    } else {
        crossings_go_from_left_to_right(list, (count - 1) as nat);
        let before = crossings_in_order(list, (count - 1) as nat);
        assert(given.drop_last() =~= list.take(count - 1));
        assert(given.last() == list[count - 1]);
        if finite(list[count - 1].0) {
            placing_keeps_rightward(before, list[count - 1]);
            vstd::seq_lib::to_multiset_build(list.take(count - 1).filter(numbers), list[count - 1]);
        }
    }
}

/// Whether some span holds a place: its start is at the place or left of it, and its end is right of it.
pub open spec fn spanned(spans: Seq<(u32, u32)>, place: int) -> bool {
    exists|i: int| 0 <= i < spans.len() && number((#[trigger] spans[i]).0) <= place < number(spans[i].1)
}

proof fn an_open_span_began_at_a_crossing(list: Seq<Crossing>, rule: FillRule, count: nat) -> (i: int)
    requires
        count <= list.len(),
        rule.fills(winding_after(list, count)),
    ensures
        0 <= i < count,
        opened_at(list, rule, count) == list[i].0,
        forall|j: nat| i < j <= count ==> rule.fills(#[trigger] winding_after(list, j)),
        !rule.fills(winding_after(list, i as nat)),
    decreases count,
{
    if !rule.fills(winding_after(list, (count - 1) as nat)) {
        count - 1
    } else {
        let i = an_open_span_began_at_a_crossing(list, rule, (count - 1) as nat);
        assert forall|j: nat| i < j <= count implies rule.fills(#[trigger] winding_after(list, j)) by {
            if j == count {
                assert(rule.fills(winding_after(list, count)));
            } else {
                assert(j <= count - 1);
            }
        }
        i
    }
}

proof fn spans_end_by_the_place(list: Seq<Crossing>, rule: FillRule, count: nat, place: int)
    requires
        count <= list.len(),
        forall|i: int| 0 <= i < count ==> number((#[trigger] list[i]).0) <= place,
    ensures
        !spanned(spans_of(list, rule, count), place),
    decreases count,
{
    if count > 0 {
        spans_end_by_the_place(list, rule, (count - 1) as nat, place);
        let before = spans_of(list, rule, (count - 1) as nat);
        let spans = spans_of(list, rule, count);
        assert(number(list[count - 1].0) <= place);
        if spanned(spans, place) {
            let i = choose|i: int| 0 <= i < spans.len() && number((#[trigger] spans[i]).0) <= place < number(spans[i].1);
            assert(i < before.len());
            assert(before[i] == spans[i]);
        }
    }
}

proof fn spans_around_a_place(list: Seq<Crossing>, rule: FillRule, m: nat, count: nat, place: int)
    requires
        m <= count <= list.len(),
        forall|i: int| 0 <= i < m ==> number((#[trigger] list[i]).0) <= place,
        forall|i: int| m <= i < list.len() ==> number((#[trigger] list[i]).0) > place,
    ensures
        !rule.fills(winding_after(list, m)) ==> !spanned(spans_of(list, rule, count), place),
        rule.fills(winding_after(list, m)) ==> spanned(spans_of(list, rule, count), place) || forall|j: nat|
            m <= j <= count ==> rule.fills(#[trigger] winding_after(list, j)),
    decreases count,
{
    if count == m {
        spans_end_by_the_place(list, rule, m, place);
    } else {
        spans_around_a_place(list, rule, m, (count - 1) as nat, place);
        let before = spans_of(list, rule, (count - 1) as nat);
        let spans = spans_of(list, rule, count);
        let closes = rule.fills(winding_after(list, (count - 1) as nat)) && !rule.fills(winding_after(list, count));
        if spanned(before, place) {
            let i = choose|i: int|
                0 <= i < before.len() && number((#[trigger] before[i]).0) <= place < number(before[i].1);
            assert(spans[i] == before[i]);
        }
        if closes {
            let began = an_open_span_began_at_a_crossing(list, rule, (count - 1) as nat);
            let last = spans[before.len() as int];
            assert(last.0 == list[began].0 && last.1 == list[count - 1].0);
            assert(number(list[count - 1].0) > place);
            if rule.fills(winding_after(list, m)) && !spanned(before, place) {
                assert(rule.fills(winding_after(list, m)));
                if began >= m {
                    assert(rule.fills(winding_after(list, began as nat)));
                }
                assert(number(list[began].0) <= place);
                assert(number(spans[before.len() as int].0) <= place);
            }
            if !rule.fills(winding_after(list, m)) {
                if began < m {
                    assert(rule.fills(winding_after(list, m)));
                }
                assert(number(list[began].0) > place);
            }
        }
        if !rule.fills(winding_after(list, m)) && spanned(spans, place) {
            let i = choose|i: int| 0 <= i < spans.len() && number((#[trigger] spans[i]).0) <= place < number(spans[i].1);
            if i < before.len() {
                assert(before[i] == spans[i]);
            }
        }
        if rule.fills(winding_after(list, m)) && !closes && !spanned(before, place) {
            assert(rule.fills(winding_after(list, (count - 1) as nat)));
            assert forall|j: nat| m <= j <= count implies rule.fills(#[trigger] winding_after(list, j)) by {
                if j < count {
                    assert(j <= count - 1);
                }
            }
        }
    }
}

/// A place of a row is inside exactly where the winding number there is: the sum of the directions of the crossings at it
/// or left of it. The crossings go from left to right and `m` of them are at the place or left of it; the row is outside
/// at its far end.
pub proof fn a_place_is_inside_by_its_winding(list: Seq<Crossing>, rule: FillRule, m: nat, place: int)
    requires
        m <= list.len(),
        forall|i: int| 0 <= i < m ==> number((#[trigger] list[i]).0) <= place,
        forall|i: int| m <= i < list.len() ==> number((#[trigger] list[i]).0) > place,
        !rule.fills(winding_after(list, list.len())),
    ensures
        spanned(spans_of(list, rule, list.len()), place) <==> rule.fills(winding_after(list, m)),
{
    spans_around_a_place(list, rule, m, list.len(), place);
    if rule.fills(winding_after(list, m)) && !spanned(spans_of(list, rule, list.len()), place) {
        assert(rule.fills(winding_after(list, list.len())));
    }
}

/// A winding number is the sum of the directions before it.
pub proof fn a_winding_number_adds_up(list: Seq<Crossing>, count: nat)
    requires
        count < list.len(),
    ensures
        winding_after(list, 0) == 0,
        winding_after(list, count + 1) - winding_after(list, count) == list[count as int].1,
{
}

/// A column is lit where a span has it, its first column with it and the one past its last without.
pub proof fn a_column_is_lit_by_its_spans(spans: Seq<(i64, i64)>, column: int, i: int)
    requires
        0 <= i < spans.len(),
    ensures
        spans[i].0 <= column < spans[i].1 ==> lights(spans, column),
        lights(spans, column) ==> exists|k: int|
            0 <= k < spans.len() && (#[trigger] spans[k]).0 <= column && column < spans[k].1,
        !lights(Seq::empty(), column),
{
    if spans[i].0 <= column < spans[i].1 {
        let own = spans[i];
    }
}

/// A row is emitted for every column its edges reached, for all of its left where it is covered there and for all of its
/// right where it is covered there, and for nothing else.
pub proof fn a_row_is_emitted_where_it_is_covered(
    touched: Option<(usize, usize)>,
    left: bool,
    right: bool,
    width: usize,
    column: int,
)
    requires
        touched matches Some((low, high)) ==> low <= high < width,
        0 <= column < width,
    ensures
        ({
            let shown = emitted(touched, left, right, width) matches Some((first, last)) && first <= column && column < last;
            match touched {
                None => shown == left,
                Some((low, high)) => shown == (low <= column <= high || left && column < low || right && column > high),
            }
        }),
{
}

/// A coverage is the size of its area, and one at most.
pub proof fn a_coverage_is_by_number(value: u32)
    requires
        !crate::bits::nan(value),
    ensures
        ({
            let (n, one) = (number(value), number(0x3F80_0000));
            &&& -one <= n <= one ==> number(saturated(value)) == size(n)
            &&& n > one || n < -one ==> saturated(value) == 0x3F80_0000u32
        }),
{
    signs_are_by_number(value);
    order_is_by_number(value, 0);
    assert(number(0) == 0);
    let kept = if below(value, 0) {
        opposite(value)
    } else {
        value
    };
    order_is_by_number(ONE, kept);
}

/// A line takes as many steps as its longer axis is long, and at every step each axis is at the whole number nearest to
/// the ideal line there.
pub proof fn a_line_is_nearest_to_the_ideal(from: (i32, i32), to: (i32, i32), step: int)
    requires
        from != to,
    ensures
        ({
            let (dx, dy) = (to.0 - from.0, to.1 - from.1);
            let steps = line_steps(from, to);
            let (x, y) = line_point(from, to, step);
            &&& steps >= dx && steps >= -dx && steps >= dy && steps >= -dy
            &&& steps == dx || steps == -dx || steps == dy || steps == -dy
            &&& -steps <= 2 * (steps * (x - from.0) - step * dx) <= steps
            &&& -steps <= 2 * (steps * (y - from.1) - step * dy) <= steps
        }),
{
    let (dx, dy) = (to.0 - from.0, to.1 - from.1);
    let steps = line_steps(from, to);
    the_nearest_is_within_a_half(step * dx, steps);
    the_nearest_is_within_a_half(step * dy, steps);
    let (u, v) = (nearest_down(step * dx, steps), nearest_down(step * dy, steps));
    assert((2 * u - 1) * steps == 2 * (steps * u) - steps && (2 * u + 1) * steps == 2 * (steps * u) + steps)
        by (nonlinear_arith);
    assert((2 * v - 1) * steps == 2 * (steps * v) - steps && (2 * v + 1) * steps == 2 * (steps * v) + steps)
        by (nonlinear_arith);
}


/// An edge goes behind every edge that starts no lower and before those at the end that do: edges that start together stay
/// in the order they came in.
pub proof fn an_edge_goes_behind_its_equals(ordered: Seq<Edge>, edge: Edge) -> (k: int)
    ensures
        0 <= k <= ordered.len(),
        placed(ordered, edge) == ordered.take(k).push(edge) + ordered.skip(k),
        k > 0 ==> !below(edge.top_y, ordered[k - 1].top_y),
        forall|j: int| k <= j < ordered.len() ==> !(!below(edge.top_y, (#[trigger] ordered[j]).top_y)),
    decreases ordered.len(),
{
    if ordered.len() == 0 || !below(edge.top_y, ordered.last().top_y) {
        assert(placed(ordered, edge) =~= ordered.take(ordered.len() as int).push(edge) + ordered.skip(
            ordered.len() as int,
        ));
        ordered.len() as int
    } else {
        let shorter = ordered.drop_last();
        let k = an_edge_goes_behind_its_equals(shorter, edge);
        assert(placed(ordered, edge) =~= ordered.take(k).push(edge) + ordered.skip(k));
        assert forall|j: int| k <= j < ordered.len() implies !(!below(edge.top_y, (#[trigger] ordered[j]).top_y)) by {
            if j < shorter.len() {
                assert(ordered[j] == shorter[j]);
            }
        }
        k
    }
}

/// A crossing goes behind every crossing that is not to the right of it and before those at the end that are.
pub proof fn a_crossing_goes_behind_its_equals(ordered: Seq<Crossing>, crossing: Crossing) -> (k: int)
    ensures
        0 <= k <= ordered.len(),
        placed_crossing(ordered, crossing) == ordered.take(k).push(crossing) + ordered.skip(k),
        k > 0 ==> !below(crossing.0, ordered[k - 1].0),
        forall|j: int| k <= j < ordered.len() ==> !(!below(crossing.0, (#[trigger] ordered[j]).0)),
    decreases ordered.len(),
{
    if ordered.len() == 0 || !below(crossing.0, ordered.last().0) {
        assert(placed_crossing(ordered, crossing) =~= ordered.take(ordered.len() as int).push(crossing) + ordered.skip(
            ordered.len() as int,
        ));
        ordered.len() as int
    } else {
        let shorter = ordered.drop_last();
        let k = a_crossing_goes_behind_its_equals(shorter, crossing);
        assert(placed_crossing(ordered, crossing) =~= ordered.take(k).push(crossing) + ordered.skip(k));
        assert forall|j: int| k <= j < ordered.len() implies !(!below(crossing.0, (#[trigger] ordered[j]).0)) by {
            if j < shorter.len() {
                assert(ordered[j] == shorter[j]);
            }
        }
        k
    }
}

} // verus!
