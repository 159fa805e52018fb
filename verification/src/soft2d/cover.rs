//! What of a tile a frame has to read: nothing under a fill that overwrites the tile whole, and no pixel that no
//! command of the tile reaches.
use super::backend::{joined, union};
use super::filter::FilterNode;
use super::geom::PixelRect;
use super::paint::Paint;
use super::raster::Point;
use super::replay::{Answer, Canvas, Ink, Step, NORMAL, SOURCE_OVER};
use crate::bits::{
    at_least, below, between, equal, finite, floor_of, floored, is_finite, less, negate, number, opposite,
    order_is_by_number, reaches, same, signs_are_by_number, whole_numbers_are_by_number, ONE,
};
use vstd::arithmetic::power2::{lemma_pow2_pos, pow2};
use vstd::prelude::*;

verus! {

// ---------------------------------------------------------------------------------------------
// Fills that overwrite.
// ---------------------------------------------------------------------------------------------
/// The pixels that lie wholly inside a rectangle, each side the first or the one past the last.
#[derive(Clone, Copy, PartialEq, Eq, Structural, Debug)]
pub struct Inner {
    pub left: i64,
    pub top: i64,
    pub right: i64,
    pub bottom: i64,
}

impl Inner {
    /// Whether every pixel of an area is one of these.
    pub open spec fn holds(self, area: PixelRect) -> bool {
        self.left <= area.x && self.top <= area.y && area.x + area.width <= self.right && area.y + area.height
            <= self.bottom
    }

    fn covers(&self, area: &PixelRect) -> (all: bool)
        ensures
            all == self.holds(*area),
    {
        self.left <= area.x as i64 && self.top <= area.y as i64 && area.x as i64 + area.width as i64 <= self.right
            && area.y as i64 + area.height as i64 <= self.bottom
    }
}

/// Whether four corners are those of a rectangle along the axes, starting along either.
pub open spec fn along_the_axes(a: Point, b: Point, c: Point, d: Point) -> bool {
    ||| same(a.1, b.1) && same(b.0, c.0) && same(c.1, d.1) && same(d.0, a.0)
    ||| same(a.0, b.0) && same(b.1, c.1) && same(c.0, d.0) && same(d.1, a.1)
}

/// Whether contours are one rectangle along the axes: four corners, or five of which the last is the first.
pub open spec fn is_rectangle(contours: Seq<Vec<Point>>) -> bool {
    contours.len() == 1 && {
        let points = contours[0]@;
        &&& points.len() == 4 || (points.len() == 5 && same(points[4].0, points[0].0) && same(
            points[4].1,
            points[0].1,
        ))
        &&& forall|i: int| 0 <= i < points.len() ==> finite((#[trigger] points[i]).0) && finite(points[i].1)
        &&& along_the_axes(points[0], points[1], points[2], points[3])
    }
}

/// The lesser of two values.
pub open spec fn lesser(a: u32, b: u32) -> u32 {
    if below(b, a) {
        b
    } else {
        a
    }
}

/// The greater of two values.
pub open spec fn greater(a: u32, b: u32) -> u32 {
    if below(a, b) {
        b
    } else {
        a
    }
}

/// The first whole number that is no less than a value, of those an `i32` and its negation name.
pub open spec fn ceiling(value: u32) -> int {
    -between(i32::MIN as int, floored(opposite(value)), i32::MAX as int)
}

/// The last whole number that is no more than a value, of those an `i32` names.
pub open spec fn bottom_of(value: u32) -> int {
    between(i32::MIN as int, floored(value), i32::MAX as int)
}

/// The pixels wholly inside a rectangle with these opposite corners. Where a near side lies past every pixel that
/// can be named there are none.
pub open spec fn inside_corners(a: Point, b: Point) -> Option<Inner> {
    let (left, top) = (ceiling(lesser(a.0, b.0)), ceiling(lesser(a.1, b.1)));
    if left > i32::MAX || top > i32::MAX {
        None
    } else {
        Some(
            Inner {
                left: left as i64,
                top: top as i64,
                right: bottom_of(greater(a.0, b.0)) as i64,
                bottom: bottom_of(greater(a.1, b.1)) as i64,
            },
        )
    }
}

/// The pixels wholly inside contours that are one rectangle along the axes.
pub open spec fn inside(contours: Seq<Vec<Point>>) -> Option<Inner> {
    if is_rectangle(contours) {
        inside_corners(contours[0]@[0], contours[0]@[2])
    } else {
        None
    }
}

fn least(a: u32, b: u32) -> (value: u32)
    ensures
        value == lesser(a, b),
{
    if less(b, a) {
        b
    } else {
        a
    }
}

fn most(a: u32, b: u32) -> (value: u32)
    ensures
        value == greater(a, b),
{
    if less(a, b) {
        b
    } else {
        a
    }
}

fn ceiling_of(value: u32) -> (whole: i64)
    requires
        finite(value),
    ensures
        whole == ceiling(value),
{
    let turned: u32 = negate(value);
    assert(finite(turned));
    -(floor_of(turned) as i64)
}

/// The pixels wholly inside contours that are one rectangle along the axes.
pub fn inner_pixels(contours: &[Vec<Point>]) -> (found: Option<Inner>)
    ensures
        found == inside(contours@),
{
    if contours.len() != 1 {
        return None;
    }
    let points = &contours[0];
    let count: usize = points.len();
    if count != 4 && count != 5 {
        return None;
    }
    let mut next: usize = 0;
    while next < count
        invariant
            next <= count,
            count == points@.len(),
            *points == contours@[0],
            forall|i: int| 0 <= i < next ==> finite((#[trigger] points@[i]).0) && finite(points@[i].1),
        decreases count - next,
    {
        if !is_finite(points[next].0) || !is_finite(points[next].1) {
            assert(!(finite(contours@[0]@[next as int].0) && finite(contours@[0]@[next as int].1)));
            return None;
        }
        next = next + 1;
    }
    let (a, b, c, d): (Point, Point, Point, Point) = (points[0], points[1], points[2], points[3]);
    if count == 5 && !(equal(points[4].0, a.0) && equal(points[4].1, a.1)) {
        return None;
    }
    let across = equal(a.1, b.1) && equal(b.0, c.0) && equal(c.1, d.1) && equal(d.0, a.0);
    let down = equal(a.0, b.0) && equal(b.1, c.1) && equal(c.0, d.0) && equal(d.1, a.1);
    if !across && !down {
        return None;
    }
    let (left, top): (i64, i64) = (ceiling_of(least(a.0, c.0)), ceiling_of(least(a.1, c.1)));
    if left > 0x7fff_ffff || top > 0x7fff_ffff {
        return None;
    }
    let (right, bottom): (i64, i64) = (floor_of(most(a.0, c.0)) as i64, floor_of(most(a.1, c.1)) as i64);
    Some(Inner { left, top, right, bottom })
}

/// Whether what a fill leaves on a pixel it covers whole does not depend on what was there: one opaque colour, at
/// full opacity, laid over it plainly.
pub open spec fn overwrites(paint: Paint, alpha: u32, ink: Ink) -> bool {
    paint is Solid && reaches(alpha, ONE) && reaches(ink.opacity, ONE) && ink.blend == NORMAL && ink.operator
        == SOURCE_OVER
}

/// Whether what a fill leaves on a pixel it covers whole does not depend on what was there.
pub fn is_overwriting(paint: Paint, alpha: u32, ink: Ink) -> (plain: bool)
    ensures
        plain == overwrites(paint, alpha, ink),
{
    let solid = match paint {
        Paint::Solid => true,
        _ => false,
    };
    solid && at_least(alpha, ONE) && at_least(ink.opacity, ONE) && ink.blend == NORMAL && ink.operator == SOURCE_OVER
}

// ---------------------------------------------------------------------------------------------
// What is open.
// ---------------------------------------------------------------------------------------------
/// How many clips are open at most after a command, of so many before it.
pub open spec fn clips_after(step: Step, open: nat) -> nat {
    match step {
        Step::PushClip { .. } => open + 1,
        Step::PushClipMask { .. } => open + 1,
        Step::PopClip => if open == 0 {
            0
        } else {
            (open - 1) as nat
        },
        _ => open,
    }
}

/// How many layers are open after a command, of so many before it.
pub open spec fn layers_after(step: Step, open: nat) -> nat {
    match step {
        Step::BeginLayer { .. } => open + 1,
        Step::EndLayer => if open == 0 {
            0
        } else {
            (open - 1) as nat
        },
        _ => open,
    }
}

/// How many clips are open at most after the first `count` commands.
pub open spec fn clips_open(steps: Seq<Step>, count: nat) -> nat
    decreases count,
{
    if count == 0 {
        0
    } else {
        clips_after(steps[count - 1], clips_open(steps, (count - 1) as nat))
    }
}

/// How many layers are open after the first `count` commands.
pub open spec fn layers_open(steps: Seq<Step>, count: nat) -> nat
    decreases count,
{
    if count == 0 {
        0
    } else {
        layers_after(steps[count - 1], layers_open(steps, (count - 1) as nat))
    }
}

/// What is open, as a list of commands is gone through.
#[derive(Clone, Copy, PartialEq, Eq, Structural, Debug)]
pub struct Open {
    pub clips: usize,
    pub layers: usize,
}

impl Open {
    /// Nothing.
    pub fn nothing() -> (made: Open)
        ensures
            made.clips == 0,
            made.layers == 0,
    {
        Open { clips: 0, layers: 0 }
    }

    /// Whether a drawing goes to the target unclipped.
    pub fn is_nothing(&self) -> (plain: bool)
        ensures
            plain == (self.clips == 0 && self.layers == 0),
    {
        self.clips == 0 && self.layers == 0
    }

    /// Go past a command.
    pub fn pass(&mut self, step: &Step)
        requires
            old(self).clips < usize::MAX,
            old(self).layers < usize::MAX,
        ensures
            final(self).clips == clips_after(*step, old(self).clips as nat),
            final(self).layers == layers_after(*step, old(self).layers as nat),
            final(self).clips <= old(self).clips + 1,
            final(self).layers <= old(self).layers + 1,
    {
        match step {
            Step::PushClip { .. } | Step::PushClipMask { .. } => {
                self.clips = self.clips + 1;
            },
            Step::PopClip => {
                if self.clips > 0 {
                    self.clips = self.clips - 1;
                }
            },
            Step::BeginLayer { .. } => {
                self.layers = self.layers + 1;
            },
            Step::EndLayer => {
                if self.layers > 0 {
                    self.layers = self.layers - 1;
                }
            },
            _ => {},
        }
    }
}

/// The counts hold of a replay: it has no more clips open than are counted, and exactly the layers. So a drawing
/// for which both are zero goes to the target, unclipped.
pub proof fn the_counts_hold_of_a_replay(
    canvas: Canvas,
    step: Step,
    answer: Answer,
    filters: Seq<Vec<FilterNode>>,
    expansion: u32,
    ceiling: u64,
    clips: nat,
    layers: nat,
)
    requires
        canvas.clips.levels.len() <= clips,
        canvas.layers.len() == layers,
        canvas.performed(step, answer, filters, expansion, ceiling) is Done,
    ensures
        canvas.performed(step, answer, filters, expansion, ceiling)->Done_0.clips.levels.len() <= clips_after(
            step,
            clips,
        ),
        canvas.performed(step, answer, filters, expansion, ceiling)->Done_0.layers.len() == layers_after(
            step,
            layers,
        ),
{
    if step is EndLayer && canvas.layers.len() > 0 {
        closing_only_closes(canvas, canvas.layers.last().clip_depth);
    }
}

proof fn closing_only_closes(canvas: Canvas, depth: nat)
    ensures
        canvas.unclipped_to(depth).clips.levels.len() <= canvas.clips.levels.len(),
        canvas.unclipped_to(depth).layers == canvas.layers,
    decreases canvas.clips.levels.len(),
{
    if canvas.clips.levels.len() > depth {
        closing_only_closes(canvas.unclipped(), depth);
    }
}

// ---------------------------------------------------------------------------------------------
// Covered tiles.
// ---------------------------------------------------------------------------------------------
/// Whether one of the first `count` commands of a tile overwrites it whole.
pub open spec fn overwritten(covers: Seq<Option<Inner>>, list: Seq<u32>, area: PixelRect, count: nat) -> bool
    decreases count,
{
    count > 0 && (overwritten(covers, list, area, (count - 1) as nat) || (list[count - 1] < covers.len()
        && match covers[list[count - 1] as int] {
        Some(inner) => inner.holds(area),
        None => false,
    }))
}

/// Whether one of the commands of a tile overwrites it whole.
pub fn is_overwritten(covers: &[Option<Inner>], list: &[u32], area: &PixelRect) -> (whole: bool)
    ensures
        whole == overwritten(covers@, list@, *area, list@.len()),
{
    let mut whole = false;
    let mut next: usize = 0;
    while next < list.len()
        invariant
            next <= list@.len(),
            whole == overwritten(covers@, list@, *area, next as nat),
        decreases list@.len() - next,
    {
        let command: u32 = list[next];
        if (command as u64) < covers.len() as u64 {
            if let Some(inner) = covers[command as usize] {
                if inner.covers(area) {
                    whole = true;
                }
            }
        }
        next = next + 1;
    }
    whole
}

// ---------------------------------------------------------------------------------------------
// What makes the round trip.
// ---------------------------------------------------------------------------------------------
/// The pixels of a tile a command can change: those of its bounds, and all of them where it opens a layer, whose
/// filter may reach past what is drawn into it.
pub open spec fn reach(step: Step, bound: Option<PixelRect>, tile: PixelRect) -> Option<PixelRect> {
    if step is BeginLayer {
        Some(tile)
    } else {
        match bound {
            Some(area) => if tile.meet(area).empty() {
                None
            } else {
                Some(tile.meet(area))
            },
            None => None,
        }
    }
}

/// The pixels of a tile its first `count` commands can change.
pub open spec fn changed(
    steps: Seq<Step>,
    bounds: Seq<Option<PixelRect>>,
    list: Seq<u32>,
    tile: PixelRect,
    count: nat,
) -> Option<PixelRect>
    decreases count,
{
    if count == 0 {
        None
    } else {
        let before = changed(steps, bounds, list, tile, (count - 1) as nat);
        let command = list[count - 1] as int;
        if command < steps.len() && command < bounds.len() {
            match (before, reach(steps[command], bounds[command], tile)) {
                (Some(earlier), Some(area)) => Some(joined(earlier, area)),
                (None, Some(area)) => Some(area),
                _ => before,
            }
        } else {
            before
        }
    }
}

/// The pixels of a tile its commands can change.
pub fn changeable(
    steps: &[Step],
    bounds: &[Option<PixelRect>],
    list: &[u32],
    tile: &PixelRect,
) -> (area: Option<PixelRect>)
    ensures
        area == changed(steps@, bounds@, list@, *tile, list@.len()),
{
    let mut found: Option<PixelRect> = None;
    let mut next: usize = 0;
    while next < list.len()
        invariant
            next <= list@.len(),
            found == changed(steps@, bounds@, list@, *tile, next as nat),
        decreases list@.len() - next,
    {
        let command: u32 = list[next];
        if (command as u64) < steps.len() as u64 && (command as u64) < bounds.len() as u64 {
            let reached: Option<PixelRect> = match &steps[command as usize] {
                Step::BeginLayer { .. } => Some(*tile),
                _ => match bounds[command as usize] {
                    Some(bound) => {
                        let both = tile.intersection(&bound);
                        if both.is_empty() {
                            None
                        } else {
                            Some(both)
                        }
                    },
                    None => None,
                },
            };
            if let Some(area) = reached {
                found = match found {
                    Some(earlier) => Some(union(earlier, area)),
                    None => Some(area),
                };
            }
        }
        next = next + 1;
    }
    found
}

proof fn what_changed_is_nameable(
    steps: Seq<Step>,
    bounds: Seq<Option<PixelRect>>,
    list: Seq<u32>,
    tile: PixelRect,
    count: nat,
)
    requires
        tile.x + tile.width <= u32::MAX,
        tile.y + tile.height <= u32::MAX,
    ensures
        changed(steps, bounds, list, tile, count) matches Some(area) ==> area.x + area.width <= u32::MAX && area.y
            + area.height <= u32::MAX,
    decreases count,
{
    if count > 0 {
        what_changed_is_nameable(steps, bounds, list, tile, (count - 1) as nat);
    }
}

/// Every pixel a command of a tile can change makes the round trip.
pub proof fn what_can_change_makes_the_trip(
    steps: Seq<Step>,
    bounds: Seq<Option<PixelRect>>,
    list: Seq<u32>,
    tile: PixelRect,
    count: nat,
    k: int,
    x: int,
    y: int,
)
    requires
        tile.x + tile.width <= u32::MAX,
        tile.y + tile.height <= u32::MAX,
        0 <= k < count <= list.len(),
        list[k] < steps.len(),
        list[k] < bounds.len(),
        reach(steps[list[k] as int], bounds[list[k] as int], tile) matches Some(area) && area.has(x, y),
    ensures
        changed(steps, bounds, list, tile, count) matches Some(area) && area.has(x, y),
    decreases count,
{
    what_changed_is_nameable(steps, bounds, list, tile, (count - 1) as nat);
    if k < count - 1 {
        what_can_change_makes_the_trip(steps, bounds, list, tile, (count - 1) as nat, k, x, y);
    }
}

/// A tile that no command reaches and in which no layer is opened makes no round trip.
pub proof fn an_unreached_tile_makes_no_trip(
    steps: Seq<Step>,
    bounds: Seq<Option<PixelRect>>,
    list: Seq<u32>,
    tile: PixelRect,
    count: nat,
)
    requires
        count <= list.len(),
        forall|k: int|
            0 <= k < count && (#[trigger] list[k]) < steps.len() && list[k] < bounds.len() ==> reach(
                steps[list[k] as int],
                bounds[list[k] as int],
                tile,
            ) is None,
    ensures
        changed(steps, bounds, list, tile, count) is None,
    decreases count,
{
    if count > 0 {
        an_unreached_tile_makes_no_trip(steps, bounds, list, tile, (count - 1) as nat);
        assert(list[count - 1] < steps.len() && list[count - 1] < bounds.len() ==> reach(
            steps[list[count - 1] as int],
            bounds[list[count - 1] as int],
            tile,
        ) is None);
    }
}

/// A pixel among those inside a rectangle lies wholly inside it: its near sides are no nearer and its far ones no further
/// than the rectangle's.
pub proof fn an_inner_pixel_is_wholly_inside(a: Point, b: Point, inner: Inner, x: int, y: int)
    requires
        finite(a.0) && finite(a.1) && finite(b.0) && finite(b.1),
        inside_corners(a, b) == Some(inner),
        inner.left <= x < inner.right,
        inner.top <= y < inner.bottom,
    ensures
        number(a.0) <= x * pow2(149) || number(b.0) <= x * pow2(149),
        number(a.0) >= (x + 1) * pow2(149) || number(b.0) >= (x + 1) * pow2(149),
        number(a.1) <= y * pow2(149) || number(b.1) <= y * pow2(149),
        number(a.1) >= (y + 1) * pow2(149) || number(b.1) >= (y + 1) * pow2(149),
{
    a_whole_number_is_past_its_ceiling(lesser(a.0, b.0), x);
    a_whole_number_is_past_its_ceiling(lesser(a.1, b.1), y);
    a_whole_number_is_before_its_floor(greater(a.0, b.0), x + 1);
    a_whole_number_is_before_its_floor(greater(a.1, b.1), y + 1);
}

proof fn a_whole_number_is_past_its_ceiling(value: u32, at: int)
    requires
        finite(value),
        ceiling(value) <= i32::MAX,
        ceiling(value) <= at,
    ensures
        number(value) <= at * pow2(149),
{
    whole_numbers_are_by_number(opposite(value));
    signs_are_by_number(value);
    lemma_pow2_pos(149);
    let (f, unit) = (floored(opposite(value)), pow2(149) as int);
    assert(number(value) <= at * unit) by (nonlinear_arith)
        requires
            f * unit <= -number(value),
            -f <= at,
            unit > 0,
    ;
}

proof fn a_whole_number_is_before_its_floor(value: u32, at: int)
    requires
        finite(value),
        at <= bottom_of(value),
        at > i32::MIN,
    ensures
        number(value) >= at * pow2(149),
{
    whole_numbers_are_by_number(value);
    lemma_pow2_pos(149);
    let (f, unit) = (floored(value), pow2(149) as int);
    assert(number(value) >= at * unit) by (nonlinear_arith)
        requires
            f * unit <= number(value),
            at <= f,
            unit > 0,
    ;
}

/// A fill overwrites where it is one colour, opaque, at full opacity, and laid over plainly.
pub proof fn overwriting_is_by_number(paint: Paint, alpha: u32, ink: Ink)
    requires
        !crate::bits::nan(alpha) && !crate::bits::nan(ink.opacity),
    ensures
        overwrites(paint, alpha, ink) <==> paint is Solid && number(alpha) >= number(0x3F80_0000) && number(ink.opacity)
            >= number(0x3F80_0000) && ink.blend == 0 && ink.operator == 0,
{
    order_is_by_number(alpha, ONE);
    order_is_by_number(ink.opacity, ONE);
}

/// A tile is overwritten where some command of its list covers all of it.
pub proof fn a_tile_is_overwritten_by_a_command(
    covers: Seq<Option<Inner>>,
    list: Seq<u32>,
    area: PixelRect,
    count: nat,
    k: int,
)
    requires
        0 <= k < count <= list.len(),
        list[k] < covers.len(),
        covers[list[k] as int] matches Some(inner) && inner.left <= area.x && inner.top <= area.y && area.x + area.width
            <= inner.right && area.y + area.height <= inner.bottom,
    ensures
        overwritten(covers, list, area, count),
    decreases count,
{
    if k < count - 1 {
        a_tile_is_overwritten_by_a_command(covers, list, area, (count - 1) as nat, k);
    }
}


// ---------------------------------------------------------------------------------------------
// Laws of rectangles and of what is open.
// ---------------------------------------------------------------------------------------------
/// Four corners are a rectangle along the axes where the second and the fourth each share one coordinate with the first
/// and the other with the third, and not the same ones.
pub proof fn a_rectangle_is_by_its_diagonal(a: Point, b: Point, c: Point, d: Point)
    requires
        finite(a.0) && finite(a.1) && finite(b.0) && finite(b.1) && finite(c.0) && finite(c.1) && finite(d.0) && finite(
            d.1,
        ),
    ensures
        along_the_axes(a, b, c, d) <==> {
            let at = |p: Point| (number(p.0), number(p.1));
            let (over, under) = ((at(c).0, at(a).1), (at(a).0, at(c).1));
            at(b) == over && at(d) == under || at(b) == under && at(d) == over
        },
{
    order_is_by_number(a.0, b.0);
    order_is_by_number(a.1, b.1);
    order_is_by_number(b.0, c.0);
    order_is_by_number(b.1, c.1);
    order_is_by_number(c.0, d.0);
    order_is_by_number(c.1, d.1);
    order_is_by_number(d.0, a.0);
    order_is_by_number(d.1, a.1);
}

/// A clip and a layer that are opened and closed again leave as many open as there were, whatever is drawn between; a
/// drawing opens and closes none, and nothing is closed where nothing is open.
pub proof fn what_is_opened_is_closed(steps: Seq<Step>, count: nat)
    requires
        count < steps.len(),
    ensures
        clips_open(steps, 0) == 0 && layers_open(steps, 0) == 0,
        steps[count as int] is PushClip || steps[count as int] is PushClipMask ==> {
            &&& clips_open(steps, count + 1) == clips_open(steps, count) + 1
            &&& layers_open(steps, count + 1) == layers_open(steps, count)
            &&& count + 1 < steps.len() && steps[(count + 1) as int] is PopClip ==> clips_open(steps, count + 2) == clips_open(
                steps,
                count,
            )
        },
        steps[count as int] is BeginLayer ==> {
            &&& layers_open(steps, count + 1) == layers_open(steps, count) + 1
            &&& clips_open(steps, count + 1) == clips_open(steps, count)
            &&& count + 1 < steps.len() && steps[(count + 1) as int] is EndLayer ==> layers_open(steps, count + 2)
                == layers_open(steps, count)
        },
        steps[count as int] is Fill || steps[count as int] is Image || steps[count as int] is Glyphs
            || steps[count as int] is AliasedLines ==> clips_open(steps, count + 1) == clips_open(steps, count)
            && layers_open(steps, count + 1) == layers_open(steps, count),
        steps[count as int] is PopClip && clips_open(steps, count) == 0 ==> clips_open(steps, count + 1) == 0,
        steps[count as int] is EndLayer && layers_open(steps, count) == 0 ==> layers_open(steps, count + 1) == 0,
{
    reveal_with_fuel(clips_open, 3);
    reveal_with_fuel(layers_open, 3);
}


/// Only a rectangle along the axes has an inside that is known: one contour of four corners, or of five that end where
/// they began, every one of them finite and each side along an axis.
pub proof fn only_a_rectangle_has_an_inside(contours: Seq<Vec<Point>>, i: int)
    requires
        inside(contours) is Some,
    ensures
        contours.len() == 1,
        contours[0]@.len() == 4 || contours[0]@.len() == 5 && number(contours[0]@[4].0) == number(contours[0]@[0].0)
            && number(contours[0]@[4].1) == number(contours[0]@[0].1),
        0 <= i < contours[0]@.len() ==> finite(contours[0]@[i].0) && finite(contours[0]@[i].1),
        0 <= i < 3 ==> number(contours[0]@[i].0) == number(contours[0]@[i + 1].0) || number(contours[0]@[i].1) == number(
            contours[0]@[i + 1].1,
        ),
{
    let points = contours[0]@;
    let (a, b, c, d) = (points[0], points[1], points[2], points[3]);
    assert(finite(a.0) && finite(b.0) && finite(c.0) && finite(d.0));
    a_rectangle_is_by_its_diagonal(a, b, c, d);
    if points.len() == 5 {
        assert(finite(points[4].0) && finite(points[4].1));
        order_is_by_number(points[4].0, a.0);
        order_is_by_number(points[4].1, a.1);
    }
    let at = |p: Point| (number(p.0), number(p.1));
    assert(at(b).0 == number(b.0) && at(b).1 == number(b.1));
    assert(at(d).0 == number(d.0) && at(d).1 == number(d.1));
    assert(i == 0 || i == 1 || i == 2 || !(0 <= i < 3));
}

/// A tile that is overwritten has a command in its list that covers all of it.
pub proof fn an_overwritten_tile_has_its_command(
    covers: Seq<Option<Inner>>,
    list: Seq<u32>,
    area: PixelRect,
    count: nat,
) -> (k: int)
    requires
        overwritten(covers, list, area, count),
    ensures
        0 <= k < count,
        list[k] < covers.len(),
        covers[list[k] as int] matches Some(inner) && inner.left <= area.x && inner.top <= area.y && area.x + area.width
            <= inner.right && area.y + area.height <= inner.bottom,
    decreases count,
{
    if overwritten(covers, list, area, (count - 1) as nat) {
        an_overwritten_tile_has_its_command(covers, list, area, (count - 1) as nat)
    } else {
        count - 1
    }
}

} // verus!
