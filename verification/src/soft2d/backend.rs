//! Preparing a list of commands and walking the tiles of a frame.
//!
//! Preparing works out everything that depends on the list and the target but not on the frame: each command's
//! step and bounds, the tiles that replay it, how far filters reach, and the storage to reserve. What it cannot
//! fit it refuses before any pixel is written.
use super::clip::{ClipStack, MaskPool, Nesting};
use super::cover::{
    changeable, changed, clips_open, inner_pixels, inside, is_overwriting, is_overwritten, layers_open, overwrites,
    overwritten, Inner, Open,
};
use super::error::{Error, Limit, ResourceKind};
use super::geom::{capped_sum, cover, saturating_sum, Extent2D, Outward, PixelRect};
use super::layer::Pool;
use super::paint::{ImageQuality, Paint};
use super::prepared::{PreparedKey, TargetDescription};
use super::raster::{aliased_line, line_pixels, line_point, line_steps, Edges, FillRule, Point};
use super::replay::{Ink, Step};
use super::tile::{replayed, rounded_up, Bins, Tiling, TILE_SIZE};
use crate::bits::{
    at_least, between, finite, floor_of, floored, is_finite, number, order_is_by_number, reaches,
    whole_numbers_are_by_number, ONE,
};
use crate::grid::{cell, every_index_is_a_cell};
use vstd::arithmetic::power2::pow2;
use vstd::prelude::*;

verus! {

/// The version of the prepared form.
pub const BACKEND_VERSION: u32 = 1;

// ---------------------------------------------------------------------------------------------
// Polylines.
// ---------------------------------------------------------------------------------------------
/// A flattened contour.
#[derive(Debug)]
pub struct Line {
    pub points: Vec<Point>,
    pub closed: bool,
}

/// Whether every point is finite.
pub open spec fn all_finite(points: Seq<Point>) -> bool {
    forall|i: int| 0 <= i < points.len() ==> finite((#[trigger] points[i]).0) && finite(points[i].1)
}

/// Whether contours are one open polyline of a length the line rule is for.
pub open spec fn one_polyline(contours: Seq<Line>) -> bool {
    contours.len() == 1 && !contours[0].closed && 2 <= contours[0].points@.len() <= 1024 && all_finite(
        contours[0].points@,
    )
}

/// The pixel a point falls in, held to the coordinates of an `i32`.
pub open spec fn pixel_of(point: Point) -> (i32, i32) {
    (
        between(i32::MIN as int, floored(point.0), i32::MAX as int) as i32,
        between(i32::MIN as int, floored(point.1), i32::MAX as int) as i32,
    )
}

/// The pixels the points of a polyline fall in.
pub open spec fn pixels_of(points: Seq<Point>) -> Seq<(i32, i32)> {
    Seq::new(points.len(), |i: int| pixel_of(points[i]))
}

/// The pixels of contours that are one open polyline and nothing else, which the aliased line is drawn for.
pub fn integer_polyline(contours: &[Line]) -> (pixels: Option<Vec<(i32, i32)>>)
    ensures
        match pixels {
            Some(found) => one_polyline(contours@) && found@ == pixels_of(contours@[0].points@),
            None => !one_polyline(contours@),
        },
{
    if contours.len() != 1 || contours[0].closed {
        return None;
    }
    let points = &contours[0].points;
    if points.len() < 2 || points.len() > 1024 {
        return None;
    }
    let mut pixels: Vec<(i32, i32)> = Vec::new();
    let mut next: usize = 0;
    while next < points.len()
        invariant
            next <= points@.len(),
            contours@.len() == 1,
            *points == contours@[0].points,
            pixels@.len() == next,
            forall|i: int| 0 <= i < next ==> finite((#[trigger] points@[i]).0) && finite(points@[i].1),
            forall|i: int| 0 <= i < next ==> #[trigger] pixels@[i] == pixel_of(points@[i]),
        decreases points@.len() - next,
    {
        if !is_finite(points[next].0) || !is_finite(points[next].1) {
            assert(!(finite(points@[next as int].0) && finite(points@[next as int].1)));
            return None;
        }
        pixels.push((floor_of(points[next].0), floor_of(points[next].1)));
        next = next + 1;
    }
    assert(pixels@ =~= pixels_of(points@));
    Some(pixels)
}

/// The smallest and largest coordinates of the first `count` points.
pub open spec fn extremes(points: Seq<(i32, i32)>, count: nat) -> (i32, i32, i32, i32)
    decreases count,
{
    if count == 0 {
        (i32::MAX, i32::MAX, i32::MIN, i32::MIN)
    } else {
        let before = extremes(points, (count - 1) as nat);
        let (x, y) = points[count - 1];
        (
            if x < before.0 {
                x
            } else {
                before.0
            },
            if y < before.1 {
                y
            } else {
                before.1
            },
            if x > before.2 {
                x
            } else {
                before.2
            },
            if y > before.3 {
                y
            } else {
                before.3
            },
        )
    }
}

/// A coordinate, or none where it is less than none.
pub open spec fn not_negative(value: i32) -> int {
    if value < 0 {
        0
    } else {
        value as int
    }
}

/// The pixels a polyline covers, conservatively.
pub open spec fn polyline_area(points: Seq<(i32, i32)>) -> Option<PixelRect> {
    if points.len() == 0 {
        None
    } else {
        let (left, top, right, bottom) = extremes(points, points.len());
        Some(
            PixelRect {
                x: not_negative(left) as u32,
                y: not_negative(top) as u32,
                width: (not_negative(right) - not_negative(left) + 1) as u32,
                height: (not_negative(bottom) - not_negative(top) + 1) as u32,
            },
        )
    }
}

proof fn extremes_hold(points: Seq<(i32, i32)>, count: nat, i: int)
    requires
        count <= points.len(),
        0 <= i < count,
    ensures
        extremes(points, count).0 <= points[i].0 <= extremes(points, count).2,
        extremes(points, count).1 <= points[i].1 <= extremes(points, count).3,
    decreases count,
{
    if i < count - 1 {
        extremes_hold(points, (count - 1) as nat, i);
    }
}

/// The pixels a polyline covers, conservatively.
pub fn polyline_bounds(points: &[(i32, i32)]) -> (bounds: Option<PixelRect>)
    ensures
        bounds == polyline_area(points@),
{
    let mut left: i32 = 0x7fff_ffff;
    let mut top: i32 = 0x7fff_ffff;
    let mut right: i32 = -0x8000_0000;
    let mut bottom: i32 = -0x8000_0000;
    let mut next: usize = 0;
    while next < points.len()
        invariant
            next <= points@.len(),
            (left, top, right, bottom) == extremes(points@, next as nat),
        decreases points@.len() - next,
    {
        let (x, y): (i32, i32) = points[next];
        if x < left {
            left = x;
        }
        if y < top {
            top = y;
        }
        if x > right {
            right = x;
        }
        if y > bottom {
            bottom = y;
        }
        next = next + 1;
    }
    if points.len() == 0 {
        return None;
    }
    proof {
        extremes_hold(points@, points@.len(), 0);
    }
    let (x, y): (u32, u32) = (floor_at_none(left), floor_at_none(top));
    let (far, low): (u32, u32) = (floor_at_none(right), floor_at_none(bottom));
    Some(PixelRect { x, y, width: far - x + 1, height: low - y + 1 })
}

fn floor_at_none(value: i32) -> (kept: u32)
    ensures
        kept == not_negative(value),
        kept <= 0x7fff_ffff,
{
    if value < 0 {
        0
    } else {
        value as u32
    }
}

/// The pixels of the first `count` pieces of a polyline that are in the bounds and that the clip lets something
/// through of.
pub open spec fn polyline_landings(
    points: Seq<(i32, i32)>,
    bounds: PixelRect,
    clips: Nesting,
    count: nat,
) -> Seq<(u32, u32)>
    decreases count,
{
    if count == 0 {
        Seq::empty()
    } else {
        let (from, to) = (points[count - 1], points[count as int]);
        let piece = line_pixels(from, to, bounds, (line_steps(from, to) + 1) as nat);
        polyline_landings(points, bounds, clips, (count - 1) as nat) + open_pixels(piece, clips, piece.len())
    }
}

/// Those of the first `count` pixels that the clip lets something through of.
pub open spec fn open_pixels(pixels: Seq<(u32, u32)>, clips: Nesting, count: nat) -> Seq<(u32, u32)>
    decreases count,
{
    if count == 0 {
        Seq::empty()
    } else {
        let before = open_pixels(pixels, clips, (count - 1) as nat);
        let (x, y) = pixels[count - 1];
        if clips.blocks(x as int, y as int) {
            before
        } else {
            before.push((x, y))
        }
    }
}

/// The pixels an aliased polyline is drawn in, piece by piece. Bounds whose far edge is no machine number show
/// nothing.
pub fn draw_aliased_lines(points: &[(i32, i32)], bounds: PixelRect, clips: &ClipStack) -> (pixels: Vec<(u32, u32)>)
    ensures
        pixels@ == (if points@.len() == 0 || bounds.x + bounds.width > u32::MAX || bounds.y + bounds.height > u32::MAX {
            Seq::empty()
        } else {
            polyline_landings(points@, bounds, clips@, (points@.len() - 1) as nat)
        }),
{
    let mut pixels: Vec<(u32, u32)> = Vec::new();
    if points.len() == 0 || bounds.right().is_none() || bounds.bottom().is_none() {
        return pixels;
    }
    let pieces: usize = points.len() - 1;
    let mut next: usize = 0;
    while next < pieces
        invariant
            next <= pieces,
            pieces == points@.len() - 1,
            bounds.x + bounds.width <= u32::MAX,
            bounds.y + bounds.height <= u32::MAX,
            pixels@ == polyline_landings(points@, bounds, clips@, next as nat),
        decreases pieces - next,
    {
        let piece = aliased_line(points[next], points[next + 1], bounds);
        let ghost before = pixels@;
        let mut index: usize = 0;
        assert(before + open_pixels(piece@, clips@, 0) =~= before);
        while index < piece.len()
            invariant
                index <= piece@.len(),
                pixels@ == before + open_pixels(piece@, clips@, index as nat),
            decreases piece@.len() - index,
        {
            let (x, y): (u32, u32) = piece[index];
            if !clips.blocks(x, y) {
                pixels.push((x, y));
            }
            assert(pixels@ =~= before + open_pixels(piece@, clips@, (index + 1) as nat));
            index = index + 1;
        }
        next = next + 1;
    }
    pixels
}

// ---------------------------------------------------------------------------------------------
// Unions.
// ---------------------------------------------------------------------------------------------
/// The smallest rectangle with the pixels of both.
pub open spec fn joined(left: PixelRect, right: PixelRect) -> PixelRect {
    let x = if left.x < right.x {
        left.x
    } else {
        right.x
    };
    let y = if left.y < right.y {
        left.y
    } else {
        right.y
    };
    let (a, b) = (capped_sum(left.x, left.width), capped_sum(right.x, right.width));
    let (c, d) = (capped_sum(left.y, left.height), capped_sum(right.y, right.height));
    PixelRect {
        x,
        y,
        width: ((if a > b {
            a
        } else {
            b
        }) - x) as u32,
        height: ((if c > d {
            c
        } else {
            d
        }) - y) as u32,
    }
}

/// The smallest rectangle with the pixels of both.
pub fn union(left: PixelRect, right: PixelRect) -> (both: PixelRect)
    ensures
        both == joined(left, right),
{
    let x: u32 = if left.x < right.x {
        left.x
    } else {
        right.x
    };
    let y: u32 = if left.y < right.y {
        left.y
    } else {
        right.y
    };
    let (a, b): (u32, u32) = (saturating_sum(left.x, left.width), saturating_sum(right.x, right.width));
    let (c, d): (u32, u32) = (saturating_sum(left.y, left.height), saturating_sum(right.y, right.height));
    let far: u32 = if a > b {
        a
    } else {
        b
    };
    let low: u32 = if c > d {
        c
    } else {
        d
    };
    PixelRect { x, y, width: far - x, height: low - y }
}

/// The union of those of the first `count` bounds that hold a pixel.
pub open spec fn damaged(bounds: Seq<Option<PixelRect>>, count: nat) -> Option<PixelRect>
    decreases count,
{
    if count == 0 {
        None
    } else {
        let before = damaged(bounds, (count - 1) as nat);
        match bounds[count - 1] {
            Some(bound) if !bound.empty() => match before {
                Some(earlier) => Some(joined(earlier, bound)),
                None => Some(bound),
            },
            _ => before,
        }
    }
}

fn damage_of(bounds: &Vec<Option<PixelRect>>) -> (damage: Option<PixelRect>)
    ensures
        damage == damaged(bounds@, bounds@.len()),
{
    let mut damage: Option<PixelRect> = None;
    let mut next: usize = 0;
    while next < bounds.len()
        invariant
            next <= bounds@.len(),
            damage == damaged(bounds@, next as nat),
        decreases bounds@.len() - next,
    {
        if let Some(bound) = bounds[next] {
            if !bound.is_empty() {
                damage = match damage {
                    Some(earlier) => Some(union(earlier, bound)),
                    None => Some(bound),
                };
            }
        }
        next = next + 1;
    }
    damage
}

// ---------------------------------------------------------------------------------------------
// Commands.
// ---------------------------------------------------------------------------------------------
/// The contours of a shape in device space, and the rectangle of whole pixels around them; none where no point
/// of them is finite.
#[derive(Debug)]
pub struct Shape {
    pub contours: Vec<Vec<Point>>,
    pub outward: Option<Outward>,
}

/// A path as the caller flattened it.
#[derive(Debug)]
#[allow(inconsistent_fields)]
pub enum Flattened<T> {
    /// There is no such path.
    Unknown,
    Refused(Error),
    Made(T),
}

/// A dash pattern a stroke asks for, and whether it is there.
#[derive(Clone, Copy, PartialEq, Eq, Structural, Debug)]
pub struct Dash {
    pub pattern: u32,
    pub known: bool,
}

/// A stroke as the caller flattened and outlined it: the contours, and the outline to fill.
#[derive(Debug)]
pub struct Stroked {
    pub lines: Vec<Line>,
    pub outline: Shape,
}

/// One command of a list.
#[derive(Debug)]
#[allow(inconsistent_fields)]
pub enum Command {
    FillPath {
        path: u32,
        shape: Flattened<Shape>,
        rule: FillRule,
        antialias: bool,
        paint: Paint,
        /// The alpha of a solid paint.
        alpha: u32,
        ink: Ink,
    },
    StrokePath {
        path: u32,
        stroke: Flattened<Stroked>,
        width: u32,
        dash: Option<Dash>,
        antialias: bool,
        paint: Paint,
        ink: Ink,
    },
    DrawImage { shape: Shape, paint: Paint, ink: Ink },
    DrawGlyphRun { run: u32, reach: Option<PixelRect>, paint: Paint, ink: Ink },
    PushClip { path: u32, shape: Flattened<Shape>, rule: FillRule, antialias: bool, inverse: bool },
    PushClipMask { image: u32, inverse: bool },
    PopClip,
    BeginLayer { bounds: Option<PixelRect>, ink: Ink, filter: Option<u32> },
    EndLayer,
}

/// Why a path was not flattened.
pub open spec fn path_refusal<T>(path: u32, flattened: Flattened<T>) -> Option<Error> {
    match flattened {
        Flattened::Unknown => Some(Error::UnknownResource { kind: ResourceKind::Path, index: path }),
        Flattened::Refused(error) => Some(error),
        Flattened::Made(_) => None,
    }
}

/// Why a command is refused.
pub open spec fn refusal(command: Command) -> Option<Error> {
    match command {
        Command::FillPath { path, shape, .. } => path_refusal(path, shape),
        Command::PushClip { path, shape, .. } => path_refusal(path, shape),
        Command::StrokePath { path, stroke, dash, .. } => match path_refusal(path, stroke) {
            Some(error) => Some(error),
            None => match dash {
                Some(asked) => if asked.known {
                    None
                } else {
                    Some(Error::UnknownResource { kind: ResourceKind::Dashes, index: asked.pattern })
                },
                None => None,
            },
        },
        _ => None,
    }
}

/// The pixels a rectangle around a shape is, within the target.
pub open spec fn covered(outward: Option<Outward>, target: PixelRect) -> PixelRect {
    covered_anywhere(outward).meet(target)
}

/// The pixels a rectangle around a shape is.
pub open spec fn covered_anywhere(outward: Option<Outward>) -> PixelRect {
    match outward {
        None => PixelRect { x: 0, y: 0, width: 0, height: 0 },
        Some(edges) => if edges.right <= edges.left || edges.bottom <= edges.top {
            PixelRect { x: 0, y: 0, width: 0, height: 0 }
        } else {
            PixelRect {
                x: super::geom::pixel_number(edges.left),
                y: super::geom::pixel_number(edges.top),
                width: super::geom::pixel_number(edges.width),
                height: super::geom::pixel_number(edges.height),
            }
        },
    }
}

/// Whether a stroke is drawn as an aliased line: not antialiased, no wider than a pixel, not dashed, and one
/// polyline.
pub open spec fn thin(antialias: bool, width: u32, dash: Option<Dash>, stroke: Stroked) -> bool {
    !antialias && reaches(ONE, width) && dash is None && one_polyline(stroke.lines@)
}

/// The bounds of a command within the target. A command that only changes the state has none.
pub open spec fn command_bounds(command: Command, target: PixelRect) -> Option<PixelRect> {
    match command {
        Command::FillPath { shape: Flattened::Made(shape), .. } => match shape.outward {
            Some(_) => Some(covered(shape.outward, target)),
            None => None,
        },
        Command::StrokePath { stroke: Flattened::Made(stroke), width, dash, antialias, .. } => if thin(
            antialias,
            width,
            dash,
            stroke,
        ) {
            match polyline_area(pixels_of(stroke.lines@[0].points@)) {
                Some(area) => Some(area.meet(target)),
                None => None,
            }
        } else {
            match stroke.outline.outward {
                Some(_) => Some(covered(stroke.outline.outward, target)),
                None => None,
            }
        },
        Command::DrawImage { shape, .. } => match shape.outward {
            Some(_) => Some(covered(shape.outward, target)),
            None => None,
        },
        Command::DrawGlyphRun { reach, .. } => match reach {
            Some(area) => Some(area.meet(target)),
            None => None,
        },
        _ => None,
    }
}

/// Whether a step is what a command becomes.
pub open spec fn becomes(command: Command, target: PixelRect, step: Step) -> bool {
    match command {
        Command::FillPath { shape: Flattened::Made(shape), rule, antialias, ink, .. } => step matches Step::Fill {
            edges,
            rule: kept,
            antialias: smooth,
            ink: mixed,
        } && edges.of(shape.contours@) && kept == rule && smooth == antialias && mixed == ink,
        Command::StrokePath { stroke: Flattened::Made(stroke), width, dash, antialias, ink, .. } => if thin(
            antialias,
            width,
            dash,
            stroke,
        ) {
            step matches Step::AliasedLines { points, ink: mixed } && points@ == pixels_of(stroke.lines@[0].points@)
                && mixed == ink
        } else {
            step matches Step::Fill { edges, rule, antialias: smooth, ink: mixed } && edges.of(
                stroke.outline.contours@,
            ) && rule == FillRule::NonZero && smooth == antialias && mixed == ink
        },
        Command::DrawImage { shape, ink, .. } => step matches Step::Image { edges, ink: mixed } && edges.of(
            shape.contours@,
        ) && mixed == ink,
        Command::DrawGlyphRun { run, ink, .. } => step == (Step::Glyphs { run, ink }),
        Command::PushClip { shape: Flattened::Made(shape), rule, antialias, inverse, .. } => step matches
            Step::PushClip { edges, rule: kept, antialias: smooth, bounds, inverse: turned } && edges.of(
            shape.contours@,
        ) && kept == rule && smooth == antialias && bounds == covered(shape.outward, target) && turned == inverse,
        Command::PushClipMask { image, inverse } => step == (Step::PushClipMask { image, inverse }),
        Command::PopClip => step == Step::PopClip,
        Command::BeginLayer { bounds, ink, filter } => step == (Step::BeginLayer { bounds, ink, filter }),
        Command::EndLayer => step == Step::EndLayer,
        _ => false,
    }
}

fn shape_bounds(shape: &Shape, target: &PixelRect) -> (bounds: Option<PixelRect>)
    ensures
        bounds == (match shape.outward {
            Some(_) => Some(covered(shape.outward, *target)),
            None => None,
        }),
{
    match shape.outward {
        Some(_) => Some(cover(shape.outward).intersection(target)),
        None => None,
    }
}

/// What a command becomes, and its bounds.
fn plan_command(command: &Command, target: &PixelRect) -> (planned: Result<(Step, Option<PixelRect>), Error>)
    ensures
        match planned {
            Err(error) => refusal(*command) == Some(error),
            Ok((step, bounds)) => refusal(*command) is None && becomes(*command, *target, step) && bounds
                == command_bounds(*command, *target),
        },
{
    match command {
        Command::FillPath { path, shape, rule, antialias, ink, .. } => match shape {
            Flattened::Unknown => Err(Error::UnknownResource { kind: ResourceKind::Path, index: *path }),
            Flattened::Refused(error) => Err(*error),
            Flattened::Made(shape) => Ok(
                (
                    Step::Fill {
                        edges: Edges::build(shape.contours.as_slice()),
                        rule: *rule,
                        antialias: *antialias,
                        ink: *ink,
                    },
                    shape_bounds(shape, target),
                ),
            ),
        },
        Command::StrokePath { path, stroke, width, dash, antialias, ink, .. } => match stroke {
            Flattened::Unknown => Err(Error::UnknownResource { kind: ResourceKind::Path, index: *path }),
            Flattened::Refused(error) => Err(*error),
            Flattened::Made(stroke) => {
                if let Some(asked) = dash {
                    if !asked.known {
                        return Err(
                            Error::UnknownResource { kind: ResourceKind::Dashes, index: asked.pattern },
                        );
                    }
                }
                if !*antialias && at_least(ONE, *width) && dash.is_none() {
                    if let Some(points) = integer_polyline(stroke.lines.as_slice()) {
                        let bounds = match polyline_bounds(points.as_slice()) {
                            Some(area) => Some(area.intersection(target)),
                            None => None,
                        };
                        return Ok((Step::AliasedLines { points, ink: *ink }, bounds));
                    }
                }
                Ok(
                    (
                        Step::Fill {
                            edges: Edges::build(stroke.outline.contours.as_slice()),
                            rule: FillRule::NonZero,
                            antialias: *antialias,
                            ink: *ink,
                        },
                        shape_bounds(&stroke.outline, target),
                    ),
                )
            },
        },
        Command::DrawImage { shape, ink, .. } => Ok(
            (
                Step::Image { edges: Edges::build(shape.contours.as_slice()), ink: *ink },
                shape_bounds(shape, target),
            ),
        ),
        Command::DrawGlyphRun { run, reach, ink, .. } => {
            let bounds = match reach {
                Some(area) => Some(area.intersection(target)),
                None => None,
            };
            Ok((Step::Glyphs { run: *run, ink: *ink }, bounds))
        },
        Command::PushClip { path, shape, rule, antialias, inverse } => match shape {
            Flattened::Unknown => Err(Error::UnknownResource { kind: ResourceKind::Path, index: *path }),
            Flattened::Refused(error) => Err(*error),
            Flattened::Made(shape) => Ok(
                (
                    Step::PushClip {
                        edges: Edges::build(shape.contours.as_slice()),
                        rule: *rule,
                        antialias: *antialias,
                        bounds: cover(shape.outward).intersection(target),
                        inverse: *inverse,
                    },
                    None,
                ),
            ),
        },
        Command::PushClipMask { image, inverse } => Ok(
            (Step::PushClipMask { image: *image, inverse: *inverse }, None),
        ),
        Command::PopClip => Ok((Step::PopClip, None)),
        Command::BeginLayer { bounds, ink, filter } => Ok(
            (Step::BeginLayer { bounds: *bounds, ink: *ink, filter: *filter }, None),
        ),
        Command::EndLayer => Ok((Step::EndLayer, None)),
    }
}

/// How many points the contours of a shape have together.
pub open spec fn edge_total(contours: Seq<Vec<Point>>, count: nat) -> nat
    decreases count,
{
    if count == 0 {
        0
    } else {
        edge_total(contours, (count - 1) as nat) + contours[count - 1]@.len()
    }
}

/// How many points the contours of a shape have together.
pub fn edge_count(contours: &[Vec<Point>]) -> (count: usize)
    requires
        edge_total(contours@, contours@.len()) <= usize::MAX,
    ensures
        count == edge_total(contours@, contours@.len()),
{
    let mut count: usize = 0;
    let mut next: usize = 0;
    while next < contours.len()
        invariant
            next <= contours@.len(),
            edge_total(contours@, contours@.len()) <= usize::MAX,
            count == edge_total(contours@, next as nat),
        decreases contours@.len() - next,
    {
        proof {
            edge_totals_grow(contours@, (next + 1) as nat, contours@.len());
        }
        count = count + contours[next].len();
        next = next + 1;
    }
    count
}

proof fn edge_totals_grow(contours: Seq<Vec<Point>>, some: nat, all: nat)
    requires
        some <= all,
    ensures
        edge_total(contours, some) <= edge_total(contours, all),
    decreases all - some,
{
    if some < all {
        edge_totals_grow(contours, some, (all - 1) as nat);
    }
}

/// Whether a command samples an image by its pyramid.
pub open spec fn minifies(command: Command, image: u32) -> bool {
    let paint = match command {
        Command::FillPath { paint, .. } => Some(paint),
        Command::StrokePath { paint, .. } => Some(paint),
        Command::DrawImage { paint, .. } => Some(paint),
        Command::DrawGlyphRun { paint, .. } => Some(paint),
        _ => None,
    };
    paint == Some(Paint::Image { image, quality: ImageQuality::Mipmapped })
}

/// Whether some command of a list samples an image by its pyramid.
pub open spec fn some_minifies(commands: Seq<Command>, image: u32) -> bool {
    exists|i: int| 0 <= i < commands.len() && minifies(#[trigger] commands[i], image)
}

/// Whether some command of a list samples an image by its pyramid.
pub fn wants_pyramid(commands: &[Command], image: u32) -> (wanted: bool)
    ensures
        wanted == exists|i: int| 0 <= i < commands@.len() && minifies(#[trigger] commands@[i], image),
        wanted == some_minifies(commands@, image),
{
    let mut next: usize = 0;
    while next < commands.len()
        invariant
            next <= commands@.len(),
            forall|i: int| 0 <= i < next ==> !minifies(#[trigger] commands@[i], image),
        decreases commands@.len() - next,
    {
        let paint: Option<Paint> = match &commands[next] {
            Command::FillPath { paint, .. } => Some(*paint),
            Command::StrokePath { paint, .. } => Some(*paint),
            Command::DrawImage { paint, .. } => Some(*paint),
            Command::DrawGlyphRun { paint, .. } => Some(*paint),
            _ => None,
        };
        if let Some(Paint::Image { image: sampled, quality }) = paint {
            if sampled == image && quality == ImageQuality::Mipmapped {
                assert(minifies(commands@[next as int], image));
                return true;
            }
        }
        next = next + 1;
    }
    false
}

// ---------------------------------------------------------------------------------------------
// Preparing.
// ---------------------------------------------------------------------------------------------
/// What a filter graph needs: how many pixels it reaches past its output, where it reaches past it, and how many
/// nodes it has.
#[derive(Clone, Copy, PartialEq, Eq, Structural, Debug)]
pub struct FilterNeed {
    pub grow: Option<u32>,
    pub nodes: usize,
}

/// The farthest the first `count` filters reach.
pub open spec fn farthest(filters: Seq<FilterNeed>, count: nat) -> u32
    decreases count,
{
    if count == 0 {
        0
    } else {
        let before = farthest(filters, (count - 1) as nat);
        match filters[count - 1].grow {
            Some(grow) => if grow > before {
                grow
            } else {
                before
            },
            None => before,
        }
    }
}

/// The most nodes one of the first `count` filters has.
pub open spec fn most_nodes(filters: Seq<FilterNeed>, count: nat) -> usize
    decreases count,
{
    if count == 0 {
        0
    } else {
        let before = most_nodes(filters, (count - 1) as nat);
        if filters[count - 1].nodes > before {
            filters[count - 1].nodes
        } else {
            before
        }
    }
}

/// How many of the first `count` commands open a layer.
pub open spec fn layers_wanted(commands: Seq<Command>, count: nat) -> nat
    decreases count,
{
    if count == 0 {
        0
    } else {
        layers_wanted(commands, (count - 1) as nat) + (if commands[count - 1] is BeginLayer {
            1nat
        } else {
            0nat
        })
    }
}

/// How many of the first `count` commands open a clip.
pub open spec fn clips_wanted(commands: Seq<Command>, count: nat) -> nat
    decreases count,
{
    if count == 0 {
        0
    } else {
        clips_wanted(commands, (count - 1) as nat) + (if commands[count - 1] is PushClip || commands[count - 1]
            is PushClipMask {
            1nat
        } else {
            0nat
        })
    }
}

/// The refusal of the first of the first `count` commands that is refused.
pub open spec fn first_refusal(commands: Seq<Command>, count: nat) -> Option<Error>
    decreases count,
{
    if count == 0 {
        None
    } else {
        match first_refusal(commands, (count - 1) as nat) {
            Some(error) => Some(error),
            None => refusal(commands[count - 1]),
        }
    }
}

/// The bounds of every command.
pub open spec fn all_bounds(commands: Seq<Command>, target: PixelRect) -> Seq<Option<PixelRect>> {
    Seq::new(commands.len(), |i: int| command_bounds(commands[i], target))
}

/// A value, or a limit where it is past it.
pub open spec fn limited(value: u32, limit: u32) -> u32 {
    if value > limit {
        limit
    } else {
        value
    }
}

/// The pixels a command overwrites, whatever was there: those wholly inside a plain rectangle filled with an
/// opaque colour outside every clip and layer.
pub open spec fn cover_at(commands: Seq<Command>, steps: Seq<Step>, i: int) -> Option<Inner> {
    if clips_open(steps, i as nat) > 0 || layers_open(steps, i as nat) > 0 {
        None
    } else {
        match commands[i] {
            Command::FillPath { shape: Flattened::Made(shape), paint, alpha, ink, .. } => if overwrites(
                paint,
                alpha,
                ink,
            ) {
                inside(shape.contours@)
            } else {
                None
            },
            _ => None,
        }
    }
}

/// The pixels each command overwrites.
fn find_covers(commands: &[Command], steps: &Vec<Step>) -> (covers: Vec<Option<Inner>>)
    requires
        steps@.len() == commands@.len(),
    ensures
        covers@ == Seq::new(commands@.len(), |i: int| cover_at(commands@, steps@, i)),
{
    let mut covers: Vec<Option<Inner>> = Vec::new();
    let mut open = Open::nothing();
    let mut next: usize = 0;
    while next < commands.len()
        invariant
            next <= commands@.len(),
            steps@.len() == commands@.len(),
            open.clips == clips_open(steps@, next as nat),
            open.layers == layers_open(steps@, next as nat),
            open.clips <= next,
            open.layers <= next,
            covers@.len() == next,
            forall|i: int| 0 <= i < next ==> #[trigger] covers@[i] == cover_at(commands@, steps@, i),
        decreases commands@.len() - next,
    {
        let mut cover: Option<Inner> = None;
        if open.is_nothing() {
            if let Command::FillPath { shape: Flattened::Made(shape), paint, alpha, ink, .. } = &commands[next] {
                if is_overwriting(*paint, *alpha, *ink) {
                    cover = inner_pixels(shape.contours.as_slice());
                }
            }
        }
        covers.push(cover);
        open.pass(&steps[next]);
        next = next + 1;
    }
    assert(covers@ =~= Seq::new(commands@.len(), |i: int| cover_at(commands@, steps@, i)));
    covers
}

/// What preparing a list produced.
#[derive(Debug)]
pub struct SoftPrepared {
    pub steps: Vec<Step>,
    pub bounds: Vec<Option<PixelRect>>,
    pub bins: Bins,
    pub tiling: Tiling,
    /// How far the filters of the list reach past their output.
    pub expansion: u32,
    pub scratch_bytes: u64,
    pub damage: Option<PixelRect>,
    /// The pixels each command overwrites, whatever was there.
    pub covers: Vec<Option<Inner>>,
    /// What this is bound to.
    pub key: PreparedKey,
}

impl SoftPrepared {
    /// Whether this is what a list for an extent is prepared to.
    pub open spec fn of(self, commands: Seq<Command>, extent: Extent2D) -> bool {
        let target = PixelRect { x: 0, y: 0, width: extent.width, height: extent.height };
        &&& self.steps@.len() == commands.len()
        &&& forall|i: int| 0 <= i < commands.len() ==> becomes(commands[i], target, #[trigger] self.steps@[i])
        &&& self.bounds@ == all_bounds(commands, target)
        &&& self.tiling.wf()
        &&& self.tiling.extent == extent
        &&& self.tiling.size == TILE_SIZE
        &&& self.bins.lists@.len() == self.tiling.tiles()
        &&& forall|column: int, row: int|
            0 <= column < self.tiling.columns && 0 <= row < self.tiling.rows ==> self.bins.list(
                #[trigger] cell(column, row, self.tiling.columns as int),
            ) == replayed(self.tiling, self.bounds@, column, row, self.bounds@.len())
        &&& self.damage == damaged(self.bounds@, self.bounds@.len())
        &&& self.covers@ == Seq::new(commands.len(), |i: int| cover_at(commands, self.steps@, i))
    }

    /// Whether a command overwrites every pixel of a tile.
    pub open spec fn overwritten(self, tile: int) -> bool {
        let list = self.bins.list(tile);
        overwritten(self.covers@, list, self.tile_area(tile), list.len())
    }

    /// The pixels of a tile.
    pub open spec fn tile_area(self, tile: int) -> PixelRect {
        self.tiling.pixels(tile % self.tiling.columns as int, tile / self.tiling.columns as int)
    }

    /// How many of the first `count` tiles a command overwrites whole.
    pub open spec fn overwritten_tiles(self, count: nat) -> nat
        decreases count,
    {
        if count == 0 {
            0
        } else {
            self.overwritten_tiles((count - 1) as nat) + (if self.overwritten(count - 1) {
                1nat
            } else {
                0nat
            })
        }
    }

    /// Whether what is in the target has to be read for a tile: unless a fill overwrites it whole.
    pub fn needs_backdrop(&self, tile: usize) -> (read: bool)
        requires
            self.tiling.wf(),
            tile < self.tiling.tiles(),
        ensures
            read == !self.overwritten(tile as int),
    {
        let area = self.tiling.tile(tile);
        !is_overwritten(self.covers.as_slice(), self.bins.commands(tile), &area)
    }

    /// How many tiles are drawn without reading the target first.
    pub fn tiles_without_backdrop(&self) -> (count: usize)
        requires
            self.tiling.wf(),
            self.tiling.tiles() <= usize::MAX,
        ensures
            count == self.overwritten_tiles(self.tiling.tiles() as nat),
    {
        let total: usize = self.tiling.count();
        let mut count: usize = 0;
        let mut next: usize = 0;
        while next < total
            invariant
                count <= next <= total,
                total == self.tiling.tiles(),
                self.tiling.wf(),
                count == self.overwritten_tiles(next as nat),
            decreases total - next,
        {
            if !self.needs_backdrop(next) {
                count = count + 1;
            }
            next = next + 1;
        }
        count
    }

    /// The pixels of a tile that are read and written back: those its commands can change. None are where no
    /// command reaches it.
    pub fn round_trip(&self, tile: usize) -> (area: Option<PixelRect>)
        requires
            self.tiling.wf(),
            tile < self.tiling.tiles(),
        ensures
            ({
                let list = self.bins.list(tile as int);
                area == changed(self.steps@, self.bounds@, list, self.tile_area(tile as int), list.len())
            }),
    {
        let whole = self.tiling.tile(tile);
        changeable(self.steps.as_slice(), self.bounds.as_slice(), self.bins.commands(tile), &whole)
    }

    /// The conservative damage of the whole list: the union of every command's bounds.
    pub fn damage(&self) -> (area: Option<PixelRect>)
        ensures
            area == self.damage,
    {
        self.damage
    }

    /// The damage of one command; none for one that reached no pixel.
    pub fn command_damage(&self, command: usize) -> (area: Option<PixelRect>)
        ensures
            area == (if command < self.bounds@.len() {
                match self.bounds@[command as int] {
                    Some(bound) => if bound.empty() {
                        None
                    } else {
                        Some(bound)
                    },
                    None => None,
                }
            } else {
                None
            }),
    {
        if command >= self.bounds.len() {
            return None;
        }
        match self.bounds[command] {
            Some(bound) => if bound.is_empty() {
                None
            } else {
                Some(bound)
            },
            None => None,
        }
    }

    /// How many commands this preparation carries.
    pub fn commands(&self) -> (count: usize)
        ensures
            count == self.bounds@.len(),
    {
        self.bounds.len()
    }

    pub fn tiles(&self) -> (count: usize)
        requires
            self.tiling.tiles() <= usize::MAX,
        ensures
            count == self.tiling.tiles(),
    {
        self.tiling.count()
    }

    pub fn scratch_bytes(&self) -> (bytes: u64)
        ensures
            bytes == self.scratch_bytes,
    {
        self.scratch_bytes
    }

    /// Note what the storage was measured to be. A list that does not fit its budget is refused before a pixel is
    /// drawn.
    pub fn measured(self, scratch_bytes: u64, ceiling: u64) -> (outcome: Result<SoftPrepared, Error>)
        ensures
            match outcome {
                Ok(kept) => scratch_bytes <= ceiling && kept == (SoftPrepared { scratch_bytes, ..self }),
                Err(error) => scratch_bytes > ceiling && error == (Error::LimitExceeded {
                    limit: Limit::PreparedScratch,
                    ceiling,
                }),
            },
    {
        if scratch_bytes > ceiling {
            return Err(Error::LimitExceeded { limit: Limit::PreparedScratch, ceiling });
        }
        let mut kept = self;
        kept.scratch_bytes = scratch_bytes;
        Ok(kept)
    }
}

fn count_layers(commands: &[Command]) -> (count: usize)
    ensures
        count == layers_wanted(commands@, commands@.len()),
        count <= commands@.len(),
{
    let mut count: usize = 0;
    let mut next: usize = 0;
    while next < commands.len()
        invariant
            count <= next <= commands@.len(),
            count == layers_wanted(commands@, next as nat),
        decreases commands@.len() - next,
    {
        if let Command::BeginLayer { .. } = &commands[next] {
            count = count + 1;
        }
        next = next + 1;
    }
    count
}

fn count_clips(commands: &[Command]) -> (count: usize)
    ensures
        count == clips_wanted(commands@, commands@.len()),
        count <= commands@.len(),
{
    let mut count: usize = 0;
    let mut next: usize = 0;
    while next < commands.len()
        invariant
            count <= next <= commands@.len(),
            count == clips_wanted(commands@, next as nat),
        decreases commands@.len() - next,
    {
        let clips: bool = match &commands[next] {
            Command::PushClip { .. } => true,
            Command::PushClipMask { .. } => true,
            _ => false,
        };
        if clips {
            count = count + 1;
        }
        next = next + 1;
    }
    count
}

fn filter_needs(filters: &[FilterNeed]) -> (needs: (u32, usize))
    ensures
        needs.0 == farthest(filters@, filters@.len()),
        needs.1 == most_nodes(filters@, filters@.len()),
{
    let mut reach: u32 = 0;
    let mut nodes: usize = 0;
    let mut next: usize = 0;
    while next < filters.len()
        invariant
            next <= filters@.len(),
            reach == farthest(filters@, next as nat),
            nodes == most_nodes(filters@, next as nat),
        decreases filters@.len() - next,
    {
        if let Some(grow) = filters[next].grow {
            if grow > reach {
                reach = grow;
            }
        }
        if filters[next].nodes > nodes {
            nodes = filters[next].nodes;
        }
        next = next + 1;
    }
    (reach, nodes)
}

/// What every command becomes, or the first refusal.
fn plan_all(commands: &[Command], target: &PixelRect) -> (planned: Result<
    (Vec<Step>, Vec<Option<PixelRect>>),
    Error,
>)
    ensures
        match planned {
            Err(error) => first_refusal(commands@, commands@.len()) == Some(error),
            Ok((steps, bounds)) => {
                &&& first_refusal(commands@, commands@.len()) is None
                &&& steps@.len() == commands@.len()
                &&& forall|i: int|
                    0 <= i < commands@.len() ==> becomes(commands@[i], *target, #[trigger] steps@[i])
                &&& bounds@ == all_bounds(commands@, *target)
            },
        },
{
    let mut steps: Vec<Step> = Vec::new();
    let mut bounds: Vec<Option<PixelRect>> = Vec::new();
    let mut next: usize = 0;
    while next < commands.len()
        invariant
            next <= commands@.len(),
            first_refusal(commands@, next as nat) is None,
            steps@.len() == next,
            bounds@.len() == next,
            forall|i: int| 0 <= i < next ==> becomes(commands@[i], *target, #[trigger] steps@[i]),
            forall|i: int| 0 <= i < next ==> #[trigger] bounds@[i] == command_bounds(commands@[i], *target),
        decreases commands@.len() - next,
    {
        match plan_command(&commands[next], target) {
            Err(error) => {
                proof {
                    a_refusal_stands(commands@, (next + 1) as nat, commands@.len());
                }
                return Err(error);
            },
            Ok((step, bound)) => {
                steps.push(step);
                bounds.push(bound);
            },
        }
        next = next + 1;
    }
    assert(bounds@ =~= all_bounds(commands@, *target));
    Ok((steps, bounds))
}

proof fn a_refusal_stands(commands: Seq<Command>, some: nat, all: nat)
    requires
        some <= all,
        first_refusal(commands, some) is Some,
    ensures
        first_refusal(commands, all) == first_refusal(commands, some),
    decreases all - some,
{
    if some < all {
        a_refusal_stands(commands, some, (all - 1) as nat);
    }
}

/// How wide and tall the surfaces are that layers and filters of a reach work in.
pub open spec fn scratch_side(expansion: u32) -> int {
    TILE_SIZE + 2 * expansion
}

/// Prepare a list of commands, named by its identity, for a target: a step and bounds for each, the tiles that
/// replay it, the storage reserved, and the key that says what all of this is bound to. The first command that names what is not there refuses the list, and nothing is reserved.
pub fn prepare(
    commands: &[Command],
    list: u64,
    description: TargetDescription,
    filters: &[FilterNeed],
    max_filter_radius: u32,
    generation: u64,
    pool: &mut Pool,
    masks: &mut MaskPool,
) -> (outcome: Result<SoftPrepared, Error>)
    requires
        old(pool).wf(),
        old(masks).wf(),
        ({
            let side = scratch_side(limited(farthest(filters@, filters@.len()), max_filter_radius));
            side * side <= u32::MAX
        }),
        commands@.len() <= u32::MAX,
        layers_wanted(commands@, commands@.len()) + most_nodes(filters@, filters@.len()) + 2 <= usize::MAX,
        rounded_up(description.extent.width, TILE_SIZE) * rounded_up(description.extent.height, TILE_SIZE)
            <= usize::MAX,
    ensures
        final(pool).wf(),
        final(masks).wf(),
        match outcome {
            Err(error) => {
                &&& first_refusal(commands@, commands@.len()) == Some(error)
                &&& *final(pool) == *old(pool)
                &&& *final(masks) == *old(masks)
            },
            Ok(prepared) => {
                let side = scratch_side(prepared.expansion);
                &&& first_refusal(commands@, commands@.len()) is None
                &&& prepared.of(commands@, description.extent)
                &&& prepared.expansion == limited(farthest(filters@, filters@.len()), max_filter_radius)
                &&& prepared.key == (PreparedKey {
                    list,
                    target: description,
                    version: BACKEND_VERSION,
                    generation,
                })
                &&& prepared.scratch_bytes == 0
                &&& final(pool).refilled(
                    *old(pool),
                    layers_wanted(commands@, commands@.len()) + most_nodes(filters@, filters@.len()) as nat + 2,
                    (side as u32, side as u32),
                )
                &&& final(masks).refilled(
                    *old(masks),
                    clips_wanted(commands@, commands@.len()),
                    (side * side) as usize,
                )
            },
        },
{
    let extent = description.extent;
    let target = PixelRect { x: 0, y: 0, width: extent.width, height: extent.height };
    let (steps, bounds) = match plan_all(commands, &target) {
        Err(error) => return Err(error),
        Ok(planned) => planned,
    };
    let (reach, nodes): (u32, usize) = filter_needs(filters);
    let expansion: u32 = if reach > max_filter_radius {
        max_filter_radius
    } else {
        reach
    };
    let tiling = Tiling::new(extent, TILE_SIZE);
    let bins = Bins::build(&tiling, bounds.as_slice());
    proof {
        let side = scratch_side(expansion);
        assert(side <= 0xffff) by (nonlinear_arith)
            requires
                side * side <= 0xffff_ffff,
                side >= 0,
        ;
    }
    let side: u32 = TILE_SIZE + expansion * 2;
    let surfaces: usize = count_layers(commands) + nodes + 2;
    pool.reserve(surfaces, (side, side));
    let clips: usize = count_clips(commands);
    masks.reserve(clips, side as usize * side as usize);
    let damage = damage_of(&bounds);
    let covers = find_covers(commands, &steps);
    let prepared = SoftPrepared {
        steps,
        bounds,
        bins,
        tiling,
        expansion,
        scratch_bytes: 0,
        damage,
        covers,
        key: PreparedKey { list, target: description, version: BACKEND_VERSION, generation },
    };
    Ok(prepared)
}

// ---------------------------------------------------------------------------------------------
// A frame.
// ---------------------------------------------------------------------------------------------
/// Whether a frame should stop.
pub trait Cancellation {
    fn cancelled(&self) -> bool;
}

/// The walk over the tiles of a frame.
#[derive(Debug)]
pub struct Frame {
    pub next: usize,
}

impl Frame {
    /// Start a frame of a prepared list. A target of another extent is refused.
    pub fn begin(prepared: &SoftPrepared, extent: Extent2D) -> (outcome: Result<Frame, Error>)
        ensures
            match outcome {
                Ok(frame) => extent == prepared.tiling.extent && frame.next == 0,
                Err(error) => extent != prepared.tiling.extent && error == (Error::LimitExceeded {
                    limit: Limit::TargetExtent,
                    ceiling: prepared.tiling.extent.width as u64,
                }),
            },
    {
        if extent.width != prepared.tiling.extent.width || extent.height != prepared.tiling.extent.height {
            return Err(
                Error::LimitExceeded {
                    limit: Limit::TargetExtent,
                    ceiling: prepared.tiling.extent.width as u64,
                },
            );
        }
        Ok(Frame { next: 0 })
    }

    /// The next tile, asking between tiles whether the frame should stop.
    pub fn advance<C: Cancellation>(
        &mut self,
        prepared: &SoftPrepared,
        cancellation: Option<&C>,
    ) -> (outcome: Result<Option<(usize, PixelRect)>, Error>)
        requires
            prepared.tiling.wf(),
            prepared.tiling.tiles() <= usize::MAX,
            old(self).next <= prepared.tiling.tiles(),
        ensures
            final(self).next <= prepared.tiling.tiles(),
            match outcome {
                Err(error) => error == Error::Cancelled && cancellation is Some && old(self).next
                    < prepared.tiling.tiles() && final(self).next == old(self).next,
                Ok(turn) => advanced(prepared.tiling, old(self).next as int, turn, final(self).next as int),
            },
            cancellation matches Some(asked) ==> old(self).next < prepared.tiling.tiles() ==> call_ensures(
                C::cancelled,
                (asked,),
                outcome is Err,
            ),
    {
        if self.next >= prepared.tiles() {
            return self.advance_given(prepared, false);
        }
        let cancelled: bool = match cancellation {
            Some(asked) => asked.cancelled(),
            None => false,
        };
        self.advance_given(prepared, cancelled)
    }

    /// The next tile, or the end of the frame: its last tile, or that it was cancelled.
    pub fn advance_given(
        &mut self,
        prepared: &SoftPrepared,
        cancelled: bool,
    ) -> (outcome: Result<Option<(usize, PixelRect)>, Error>)
        requires
            prepared.tiling.wf(),
            prepared.tiling.tiles() <= usize::MAX,
            old(self).next <= prepared.tiling.tiles(),
        ensures
            final(self).next <= prepared.tiling.tiles(),
            match outcome {
                Err(error) => error == Error::Cancelled && cancelled && old(self).next
                    < prepared.tiling.tiles() && final(self).next == old(self).next,
                Ok(turn) => advanced(prepared.tiling, old(self).next as int, turn, final(self).next as int) && (
                cancelled ==> turn is None),
            },
    {
        let index: usize = self.next;
        if index >= prepared.tiles() {
            return Ok(None);
        }
        if cancelled {
            return Err(Error::Cancelled);
        }
        self.next = index + 1;
        Ok(Some((index, prepared.tiling.tile(index))))
    }
}

/// What a walk over tiles gives next: the tile it stands at, or nothing past the last.
pub open spec fn advanced(tiling: Tiling, at: int, turn: Option<(usize, PixelRect)>, after: int) -> bool {
    match turn {
        None => at >= tiling.tiles() && after == at,
        Some((index, area)) => {
            &&& index == at
            &&& at < tiling.tiles()
            &&& after == at + 1
            &&& area == tiling.pixels(at % tiling.columns as int, at / tiling.columns as int)
        },
    }
}

// ---------------------------------------------------------------------------------------------
// Laws of the preparation.
// ---------------------------------------------------------------------------------------------
/// Every pixel of a polyline is in the bounds it is binned by.
pub proof fn a_polyline_stays_in_its_bounds(points: Seq<(i32, i32)>, piece: int, step: int)
    requires
        0 <= piece < points.len() - 1,
        0 <= step <= line_steps(points[piece], points[piece + 1]),
        line_point(points[piece], points[piece + 1], step).0 >= 0,
        line_point(points[piece], points[piece + 1], step).1 >= 0,
    ensures
        polyline_area(points) matches Some(area) && area.has(
            line_point(points[piece], points[piece + 1], step).0,
            line_point(points[piece], points[piece + 1], step).1,
        ),
{
    let (from, to) = (points[piece], points[piece + 1]);
    let steps = line_steps(from, to);
    extremes_hold(points, points.len(), piece);
    extremes_hold(points, points.len(), piece + 1);
    if steps > 0 {
        super::raster::an_axis_stays_between(from.0 as int, to.0 as int, steps, step);
        super::raster::an_axis_stays_between(from.1 as int, to.1 as int, steps, step);
    }
}

/// A union holds every pixel of both.
pub proof fn a_union_holds_both(left: PixelRect, right: PixelRect, x: int, y: int)
    requires
        left.x + left.width <= u32::MAX,
        left.y + left.height <= u32::MAX,
        right.x + right.width <= u32::MAX,
        right.y + right.height <= u32::MAX,
        left.has(x, y) || right.has(x, y),
    ensures
        joined(left, right).has(x, y),
{
}

/// Whether the far edges of every bound are machine numbers.
spec fn nameable(bounds: Seq<Option<PixelRect>>) -> bool {
    forall|i: int|
        0 <= i < bounds.len() ==> match #[trigger] bounds[i] {
            Some(bound) => bound.x + bound.width <= u32::MAX && bound.y + bound.height <= u32::MAX,
            None => true,
        }
}

proof fn damage_grows(bounds: Seq<Option<PixelRect>>, count: nat, i: int, x: int, y: int)
    requires
        nameable(bounds),
        count <= bounds.len(),
        0 <= i < count,
        bounds[i] matches Some(bound) && bound.has(x, y),
    ensures
        damaged(bounds, count) matches Some(damage) && damage.has(x, y) && damage.x + damage.width <= u32::MAX
            && damage.y + damage.height <= u32::MAX,
    decreases count,
{
    damage_is_nameable(bounds, (count - 1) as nat);
    if i < count - 1 {
        damage_grows(bounds, (count - 1) as nat, i, x, y);
    }
}

proof fn damage_is_nameable(bounds: Seq<Option<PixelRect>>, count: nat)
    requires
        nameable(bounds),
        count <= bounds.len(),
    ensures
        damaged(bounds, count) matches Some(damage) ==> damage.x + damage.width <= u32::MAX && damage.y
            + damage.height <= u32::MAX,
    decreases count,
{
    if count > 0 {
        damage_is_nameable(bounds, (count - 1) as nat);
        assert(match bounds[count - 1] {
            Some(bound) => bound.x + bound.width <= u32::MAX && bound.y + bound.height <= u32::MAX,
            None => true,
        });
    }
}

/// The damage of a list is conservative: it holds every pixel of every command's bounds.
pub proof fn damage_holds_every_command(commands: Seq<Command>, extent: Extent2D, i: int, x: int, y: int)
    requires
        0 <= i < commands.len(),
        ({
            let target = PixelRect { x: 0, y: 0, width: extent.width, height: extent.height };
            command_bounds(commands[i], target) matches Some(bound) && bound.has(x, y)
        }),
    ensures
        ({
            let target = PixelRect { x: 0, y: 0, width: extent.width, height: extent.height };
            let bounds = all_bounds(commands, target);
            damaged(bounds, bounds.len()) matches Some(damage) && damage.has(x, y)
        }),
{
    let target = PixelRect { x: 0, y: 0, width: extent.width, height: extent.height };
    let bounds = all_bounds(commands, target);
    assert forall|j: int| 0 <= j < bounds.len() implies match #[trigger] bounds[j] {
        Some(bound) => bound.x + bound.width <= u32::MAX && bound.y + bound.height <= u32::MAX,
        None => true,
    } by {
        a_bound_is_in_the_target(commands[j], target);
    }
    assert(bounds[i] == command_bounds(commands[i], target));
    damage_grows(bounds, bounds.len(), i, x, y);
}

proof fn a_bound_is_in_the_target(command: Command, target: PixelRect)
    requires
        target.x == 0,
        target.y == 0,
    ensures
        command_bounds(command, target) matches Some(bound) ==> bound.x + bound.width <= target.width && bound.y
            + bound.height <= target.height,
{
}

proof fn a_present_command_is_listed(
    tiling: Tiling,
    bounds: Seq<Option<PixelRect>>,
    column: int,
    row: int,
    count: nat,
    i: int,
)
    requires
        count <= bounds.len() <= u32::MAX,
        0 <= i < count,
        match bounds[i] {
            None => true,
            Some(bound) => tiling.touches(bound, column, row),
        },
    ensures
        replayed(tiling, bounds, column, row, count).contains(i as u32),
    decreases count,
{
    let before = replayed(tiling, bounds, column, row, (count - 1) as nat);
    let after = replayed(tiling, bounds, column, row, count);
    if i < count - 1 {
        a_present_command_is_listed(tiling, bounds, column, row, (count - 1) as nat, i);
        let at = choose|k: int| 0 <= k < before.len() && before[k] == i as u32;
        assert(after[at] == i as u32);
    } else {
        assert(after[before.len() as int] == i as u32);
    }
}

/// A command that can touch a pixel is replayed by the pixel's tile, and one that changes the state by every
/// tile: no tile replays the rest of a list without the clips and layers it is under.
pub proof fn a_tile_replays_what_it_needs(
    prepared: SoftPrepared,
    commands: Seq<Command>,
    extent: Extent2D,
    i: int,
    x: int,
    y: int,
)
    requires
        prepared.of(commands, extent),
        commands.len() <= u32::MAX,
        0 <= i < commands.len(),
        0 <= x < extent.width,
        0 <= y < extent.height,
        match prepared.bounds@[i] {
            None => true,
            Some(bound) => bound.has(x, y),
        },
    ensures
        prepared.bins.list(
            cell(x / TILE_SIZE as int, y / TILE_SIZE as int, prepared.tiling.columns as int),
        ).contains(i as u32),
{
    let tiling = prepared.tiling;
    let (column, row) = (x / TILE_SIZE as int, y / TILE_SIZE as int);
    super::tile::a_pixel_is_in_its_tile(tiling, x, y);
    if let Some(bound) = prepared.bounds@[i] {
        super::tile::a_touched_tile_replays(tiling, bound, x, y);
    }
    a_present_command_is_listed(tiling, prepared.bounds@, column, row, prepared.bounds@.len(), i);
    assert(prepared.bins.list(cell(column, row, tiling.columns as int)) == replayed(
        tiling,
        prepared.bounds@,
        column,
        row,
        prepared.bounds@.len(),
    ));
}

proof fn an_overwriter_is_listed(covers: Seq<Option<Inner>>, list: Seq<u32>, area: PixelRect, count: nat) -> (i: int)
    requires
        overwritten(covers, list, area, count),
    ensures
        0 <= i < covers.len(),
        covers[i] matches Some(inner) && inner.holds(area),
    decreases count,
{
    if overwritten(covers, list, area, (count - 1) as nat) {
        an_overwriter_is_listed(covers, list, area, (count - 1) as nat)
    } else {
        list[count - 1] as int
    }
}

/// A tile is drawn without reading the target only under a fill that overwrites it whole: some command outside
/// every clip and layer fills a rectangle that holds every pixel of the tile.
pub proof fn an_overwritten_tile_lies_in_a_fill(
    prepared: SoftPrepared,
    commands: Seq<Command>,
    extent: Extent2D,
    tile: int,
)
    requires
        prepared.of(commands, extent),
        prepared.overwritten(tile),
    ensures
        exists|i: int|
            0 <= i < commands.len() && match #[trigger] cover_at(commands, prepared.steps@, i) {
                Some(inner) => inner.holds(prepared.tile_area(tile)),
                None => false,
            },
{
    let list = prepared.bins.list(tile);
    let i = an_overwriter_is_listed(prepared.covers@, list, prepared.tile_area(tile), list.len());
    assert(prepared.covers@[i] == cover_at(commands, prepared.steps@, i));
}

/// The first command that is refused decides: no later one changes why a list is refused.
pub proof fn the_first_refusal_stands(commands: Seq<Command>, some: nat)
    requires
        some <= commands.len(),
        first_refusal(commands, some) is Some,
    ensures
        first_refusal(commands, commands.len()) == first_refusal(commands, some),
{
    a_refusal_stands(commands, some, commands.len());
}

/// Every tile of a frame is a part of the target that holds a pixel.
pub proof fn a_tile_is_never_empty(tiling: Tiling, index: int)
    requires
        tiling.wf(),
        0 <= index < tiling.tiles(),
    ensures
        !tiling.pixels(index % tiling.columns as int, index / tiling.columns as int).empty(),
{
    if tiling.columns == 0 {
        assert(tiling.columns * tiling.rows == 0) by (nonlinear_arith)
            requires
                tiling.columns == 0,
        ;
    }
    every_index_is_a_cell(index, tiling.columns as int, tiling.rows as int);
    super::tile::a_tile_starts_inside(tiling.extent.width, tiling.size, index % tiling.columns as int);
    super::tile::a_tile_starts_inside(tiling.extent.height, tiling.size, index / tiling.columns as int);
}

/// The pixel a point falls in is the one it is in by number, as far as pixels can be named.
pub proof fn a_point_falls_in_its_pixel(point: Point)
    requires
        finite(point.0) && finite(point.1),
        i32::MIN < pixel_of(point).0 < i32::MAX,
        i32::MIN < pixel_of(point).1 < i32::MAX,
    ensures
        pixel_of(point).0 * pow2(149) <= number(point.0) < (pixel_of(point).0 + 1) * pow2(149),
        pixel_of(point).1 * pow2(149) <= number(point.1) < (pixel_of(point).1 + 1) * pow2(149),
{
    whole_numbers_are_by_number(point.0);
    whole_numbers_are_by_number(point.1);
}

/// The rectangle around a polyline is the smallest: each of its sides is at a point, or at the target's own.
pub proof fn a_polyline_area_is_reached(points: Seq<(i32, i32)>, count: nat)
    requires
        0 < count <= points.len(),
    ensures
        exists|i: int| 0 <= i < count && extremes(points, count).0 == (#[trigger] points[i]).0,
        exists|i: int| 0 <= i < count && extremes(points, count).1 == (#[trigger] points[i]).1,
        exists|i: int| 0 <= i < count && extremes(points, count).2 == (#[trigger] points[i]).0,
        exists|i: int| 0 <= i < count && extremes(points, count).3 == (#[trigger] points[i]).1,
    decreases count,
{
    let last = points[count - 1];
    if count == 1 {
        let none = extremes(points, 0);
        assert(extremes(points, 1) == (last.0, last.1, last.0, last.1));
        assert(points[0] == last);
    } else {
        a_polyline_area_is_reached(points, (count - 1) as nat);
        let before = extremes(points, (count - 1) as nat);
        let a = choose|i: int| 0 <= i < count - 1 && before.0 == (#[trigger] points[i]).0;
        let b = choose|i: int| 0 <= i < count - 1 && before.1 == (#[trigger] points[i]).1;
        let c = choose|i: int| 0 <= i < count - 1 && before.2 == (#[trigger] points[i]).0;
        let d = choose|i: int| 0 <= i < count - 1 && before.3 == (#[trigger] points[i]).1;
        assert(points[a].0 == before.0 && points[b].1 == before.1 && points[c].0 == before.2 && points[d].1 == before.3);
        assert(points[count - 1] == last);
    }
}

/// What a clip lets through of some pixels is those of them that are not blocked, in order and as often as they come.
pub proof fn open_pixels_are_the_ones_not_blocked(pixels: Seq<(u32, u32)>, clips: Nesting, count: nat)
    requires
        count <= pixels.len(),
    ensures
        open_pixels(pixels, clips, count) == pixels.take(count as int).filter(
            |at: (u32, u32)| !clips.blocks(at.0 as int, at.1 as int),
        ),
    decreases count,
{
    reveal(Seq::filter);
    let shown = |at: (u32, u32)| !clips.blocks(at.0 as int, at.1 as int);
    if count == 0 {
        assert(pixels.take(0).filter(shown) =~= open_pixels(pixels, clips, count));
    } else {
        open_pixels_are_the_ones_not_blocked(pixels, clips, (count - 1) as nat);
        assert(pixels.take(count as int).drop_last() =~= pixels.take(count - 1));
        assert(pixels.take(count as int).last() == pixels[count - 1]);
    }
}

/// A polyline is drawn piece by piece, each piece from its own point to the next.
pub proof fn a_polyline_is_drawn_piece_by_piece(points: Seq<(i32, i32)>, bounds: PixelRect, clips: Nesting, k: int)
    requires
        0 <= k < points.len() - 1,
    ensures
        polyline_landings(points, bounds, clips, 0).len() == 0,
        polyline_landings(points, bounds, clips, (k + 1) as nat) == polyline_landings(points, bounds, clips, k as nat)
            + line_pixels(points[k], points[k + 1], bounds, (line_steps(points[k], points[k + 1]) + 1) as nat).filter(
            |at: (u32, u32)| !clips.blocks(at.0 as int, at.1 as int),
        ),
{
    let piece = line_pixels(points[k], points[k + 1], bounds, (line_steps(points[k], points[k + 1]) + 1) as nat);
    open_pixels_are_the_ones_not_blocked(piece, clips, piece.len());
    assert(piece.take(piece.len() as int) =~= piece);
}

/// A union's sides are the outermost of both rectangles'.
pub proof fn a_union_reaches_no_further(left: PixelRect, right: PixelRect)
    requires
        left.x + left.width <= u32::MAX && left.y + left.height <= u32::MAX,
        right.x + right.width <= u32::MAX && right.y + right.height <= u32::MAX,
    ensures
        ({
            let both = joined(left, right);
            &&& both.x <= left.x && both.x <= right.x && (both.x == left.x || both.x == right.x)
            &&& both.y <= left.y && both.y <= right.y && (both.y == left.y || both.y == right.y)
            &&& both.x + both.width == left.x + left.width || both.x + both.width == right.x + right.width
            &&& both.y + both.height == left.y + left.height || both.y + both.height == right.y + right.height
            &&& both.x + both.width >= left.x + left.width && both.x + both.width >= right.x + right.width
            &&& both.y + both.height >= left.y + left.height && both.y + both.height >= right.y + right.height
        }),
{
}

/// A stroke is drawn as a line of single pixels where it is not smoothed, no wider than one pixel, not dashed, and a
/// single open run of two points or more that are numbers, and of no more than a thousand and twenty-four.
pub proof fn a_thin_stroke_is_by_number(antialias: bool, width: u32, dash: Option<Dash>, stroke: Stroked)
    requires
        !crate::bits::nan(width),
    ensures
        thin(antialias, width, dash, stroke) <==> {
            &&& !antialias && dash is None && number(width) <= number(0x3F80_0000)
            &&& stroke.lines@.len() == 1 && !stroke.lines@[0].closed
            &&& 2 <= stroke.lines@[0].points@.len() <= 1024
            &&& forall|i: int|
                0 <= i < stroke.lines@[0].points@.len() ==> finite((#[trigger] stroke.lines@[0].points@[i]).0) && finite(
                    stroke.lines@[0].points@[i].1,
                )
        },
{
    order_is_by_number(ONE, width);
}

/// A command becomes a step of its own kind, with its own shape, rule, smoothing and ink; a stroke that is not thin is its
/// outline, filled by the non-zero rule.
pub proof fn a_command_becomes_its_own_step(command: Command, target: PixelRect, step: Step)
    requires
        becomes(command, target, step),
    ensures
        match command {
            Command::FillPath { shape, rule, antialias, ink, .. } => step matches Step::Fill {
                edges,
                rule: by,
                antialias: smooth,
                ink: mixed,
            } && (shape matches Flattened::Made(made) ==> edges.of(made.contours@)) && by == rule && smooth == antialias
                && mixed == ink,
            Command::StrokePath { stroke, width, dash, antialias, ink, .. } => stroke matches Flattened::Made(made) && (
            match step {
                Step::Fill { edges, rule, antialias: smooth, ink: mixed } => !thin(antialias, width, dash, made)
                    && edges.of(made.outline.contours@) && rule is NonZero && smooth == antialias && mixed == ink,
                Step::AliasedLines { points, ink: mixed } => thin(antialias, width, dash, made) && mixed == ink
                    && points@.len() == made.lines@[0].points@.len() && forall|i: int|
                    0 <= i < points@.len() ==> #[trigger] points@[i] == pixel_of(made.lines@[0].points@[i]),
                _ => false,
            }),
            Command::DrawImage { shape, ink, .. } => step matches Step::Image { edges, ink: mixed } && edges.of(
                shape.contours@,
            ) && mixed == ink,
            Command::DrawGlyphRun { run, ink, .. } => step matches Step::Glyphs { run: which, ink: mixed } && which == run
                && mixed == ink,
            Command::PushClip { shape, rule, antialias, inverse, .. } => step matches Step::PushClip {
                edges,
                rule: by,
                antialias: smooth,
                bounds,
                inverse: turned,
            } && (shape matches Flattened::Made(made) ==> edges.of(made.contours@)) && by == rule && smooth == antialias
                && turned == inverse,
            Command::PushClipMask { image, inverse } => step matches Step::PushClipMask { image: which, inverse: turned }
                && which == image && turned == inverse,
            Command::PopClip => step is PopClip,
            Command::BeginLayer { bounds, ink, filter } => step matches Step::BeginLayer {
                bounds: area,
                ink: mixed,
                filter: by,
            } && area == bounds && mixed == ink && by == filter,
            Command::EndLayer => step is EndLayer,
        },
{
}

/// A shape's bounds are the pixels of its rounded rectangle that are in the target: those from its left and top up to its
/// right and bottom. One without a finite point has none, and so has a command that draws nothing.
pub proof fn bounds_are_by_pixel(edges: Outward, target: PixelRect, x: int, y: int)
    requires
        0 <= edges.left < edges.right <= u32::MAX,
        0 <= edges.top < edges.bottom <= u32::MAX,
        edges.width == edges.right - edges.left,
        edges.height == edges.bottom - edges.top,
    ensures
        covered(Some(edges), target).has(x, y) <==> target.has(x, y) && edges.left <= x < edges.right && edges.top <= y
            < edges.bottom,
        !covered(None, target).has(x, y),
{
    super::geom::meeting_is_by_pixels(covered_anywhere(Some(edges)), target, x, y);
    super::geom::meeting_is_by_pixels(covered_anywhere(None), target, x, y);
}

/// A drawing command is bound by its own shape, stroke or run, within the target; a command of state is bound by nothing.
pub proof fn a_command_is_bound_by_its_own_shape(command: Command, target: PixelRect)
    requires
        refusal(command) is None,
    ensures
        match command {
            Command::FillPath { shape, .. } => shape matches Flattened::Made(made) && command_bounds(command, target)
                == if made.outward is Some {
                Some(covered(made.outward, target))
            } else {
                None
            },
            Command::StrokePath { stroke, width, dash, antialias, .. } => stroke matches Flattened::Made(made) && (
            !thin(antialias, width, dash, made) ==> command_bounds(command, target) == if made.outline.outward is Some {
                Some(covered(made.outline.outward, target))
            } else {
                None
            }),
            Command::DrawImage { shape, .. } => command_bounds(command, target) == if shape.outward is Some {
                Some(covered(shape.outward, target))
            } else {
                None
            },
            Command::DrawGlyphRun { reach, .. } => reach is None ==> command_bounds(command, target) is None,
            _ => command_bounds(command, target) is None,
        },
{
}

/// A list is refused for the first command that names what is not there, and for no other.
pub proof fn a_list_is_refused_for_its_first_unknown(commands: Seq<Command>, count: nat)
    requires
        count <= commands.len(),
    ensures
        first_refusal(commands, count) is None <==> forall|i: int|
            0 <= i < count ==> refusal(#[trigger] commands[i]) is None,
        first_refusal(commands, count) matches Some(error) ==> exists|i: int|
            0 <= i < count && refusal(#[trigger] commands[i]) == Some(error) && forall|j: int|
                0 <= j < i ==> refusal(#[trigger] commands[j]) is None,
    decreases count,
{
    if count > 0 {
        a_list_is_refused_for_its_first_unknown(commands, (count - 1) as nat);
        let before = first_refusal(commands, (count - 1) as nat);
        if let Some(error) = before {
            let i = choose|i: int|
                0 <= i < count - 1 && refusal(#[trigger] commands[i]) == Some(error) && forall|j: int|
                    0 <= j < i ==> refusal(#[trigger] commands[j]) is None;
            assert(refusal(commands[i]) is Some);
        } else if refusal(commands[count - 1]) is Some {
            assert(refusal(commands[count - 1]) == first_refusal(commands, count));
        }
    }
}

/// What is reserved is for the farthest filter and the longest: no filter reaches further or has more nodes.
pub proof fn the_farthest_filter_is_reserved_for(filters: Seq<FilterNeed>, count: nat, i: int)
    requires
        0 <= i < count <= filters.len(),
    ensures
        filters[i].grow matches Some(grow) ==> grow <= farthest(filters, count),
        filters[i].nodes <= most_nodes(filters, count),
        farthest(filters, count) == 0 || exists|k: int|
            0 <= k < count && (#[trigger] filters[k]).grow == Some(farthest(filters, count)),
        most_nodes(filters, count) == 0 || exists|k: int|
            0 <= k < count && (#[trigger] filters[k]).nodes == most_nodes(filters, count),
    decreases count,
{
    if count > 1 {
        if i < count - 1 {
            the_farthest_filter_is_reserved_for(filters, (count - 1) as nat, i);
        } else {
            the_farthest_filter_is_reserved_for(filters, (count - 1) as nat, 0);
        }
        let last = filters[count - 1];
        let (far, most) = (farthest(filters, (count - 1) as nat), most_nodes(filters, (count - 1) as nat));
        if far != 0 {
            let k = choose|k: int| 0 <= k < count - 1 && (#[trigger] filters[k]).grow == Some(far);
            assert(filters[k].grow == Some(far));
        }
        if most != 0 {
            let k = choose|k: int| 0 <= k < count - 1 && (#[trigger] filters[k]).nodes == most;
            assert(filters[k].nodes == most);
        }
        assert(filters[count - 1] == last);
    } else {
        assert(farthest(filters, 0) == 0 && most_nodes(filters, 0) == 0);
        assert(filters[0] == filters[count - 1]);
    }
}

/// A surface is reserved for every layer a list opens and a mask for every clip.
pub proof fn storage_is_counted_by_command(commands: Seq<Command>, k: int)
    requires
        0 <= k < commands.len(),
    ensures
        layers_wanted(commands, 0) == 0 && clips_wanted(commands, 0) == 0,
        layers_wanted(commands, (k + 1) as nat) - layers_wanted(commands, k as nat) == if commands[k] is BeginLayer {
            1int
        } else {
            0
        },
        clips_wanted(commands, (k + 1) as nat) - clips_wanted(commands, k as nat) == if commands[k] is PushClip
            || commands[k] is PushClipMask {
            1int
        } else {
            0
        },
{
}

/// A frame goes through the tiles row by row, each once, and ends after the last.
pub proof fn a_frame_visits_every_tile(tiling: Tiling, at: int, turn: Option<(usize, PixelRect)>, after: int, x: int, y: int)
    requires
        tiling.wf(),
        0 <= at,
        advanced(tiling, at, turn, after),
    ensures
        turn is None <==> at >= tiling.columns * tiling.rows,
        turn matches Some((index, area)) ==> index == at && after == at + 1 && (area.has(x, y) <==> 0 <= x
            < tiling.extent.width && 0 <= y < tiling.extent.height && x / (tiling.size as int) == at
            % tiling.columns as int && y / (tiling.size as int) == at / tiling.columns as int),
{
    if turn is Some {
        if tiling.columns == 0 {
            assert(tiling.columns * tiling.rows == 0) by (nonlinear_arith)
                requires
                    tiling.columns == 0,
            ;
        }
        every_index_is_a_cell(at, tiling.columns as int, tiling.rows as int);
        super::tile::a_tile_has_its_own_pixels(
            tiling,
            at % tiling.columns as int,
            at / tiling.columns as int,
            x,
            y,
        );
    }
}


/// A pyramid is made for an image where some drawing of the list paints with it and chooses among its levels, and for no
/// other image.
pub proof fn a_pyramid_is_for_what_is_painted_small(commands: Seq<Command>, image: u32, i: int)
    requires
        0 <= i < commands.len(),
    ensures
        (match commands[i] {
            Command::FillPath { paint, .. } => paint,
            Command::StrokePath { paint, .. } => paint,
            Command::DrawImage { paint, .. } => paint,
            Command::DrawGlyphRun { paint, .. } => paint,
            _ => Paint::Solid,
        }) == (Paint::Image { image, quality: ImageQuality::Mipmapped }) ==> some_minifies(commands, image),
        some_minifies(commands, image) ==> exists|k: int|
            0 <= k < commands.len() && (match #[trigger] commands[k] {
                Command::FillPath { paint, .. } => paint,
                Command::StrokePath { paint, .. } => paint,
                Command::DrawImage { paint, .. } => paint,
                Command::DrawGlyphRun { paint, .. } => paint,
                _ => Paint::Solid,
            }) == (Paint::Image { image, quality: ImageQuality::Mipmapped }),
{
    if some_minifies(commands, image) {
        let k = choose|k: int| 0 <= k < commands.len() && minifies(#[trigger] commands[k], image);
        assert(0 <= k < commands.len() && minifies(commands[k], image));
    }
}

/// The scratch surfaces hold a tile grown by what the filters reach, and no row or column more.
pub proof fn a_grown_tile_fits_its_scratch(tile: PixelRect, expansion: u32)
    requires
        tile.width <= TILE_SIZE,
        tile.height <= TILE_SIZE,
    ensures
        super::layer::grown(tile, expansion).width <= scratch_side(expansion),
        super::layer::grown(tile, expansion).height <= scratch_side(expansion),
        tile.width == TILE_SIZE && scratch_side(expansion) <= u32::MAX ==> super::layer::grown(tile, expansion).width
            == scratch_side(expansion),
{
}

} // verus!
