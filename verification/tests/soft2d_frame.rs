//! Whole 2D frames: a list is prepared and its tiles replayed into a picture. Outlines, areas, colours and
//! filters in floating point are computed here.
use softgraphics::bits;
use softgraphics::soft2d::area;
use softgraphics::soft2d::area::{Across, Landed};
use softgraphics::soft2d::backend;
use softgraphics::soft2d::backend::{Cancellation, Command, Dash, FilterNeed, Flattened, Frame, Line, Shape, SoftPrepared, Stroked};
use softgraphics::soft2d::clip::{ClipStack, MaskPool};
use softgraphics::soft2d::error::{Error, Limit, ResourceKind};
use softgraphics::soft2d::filter;
use softgraphics::soft2d::filter::{FilterNode, Keep};
use softgraphics::soft2d::geom::{Extent2D, Outward, PixelRect};
use softgraphics::soft2d::glyph;
use softgraphics::soft2d::glyph::{GlyphCacheKey, GlyphImage, GlyphKind, GlyphProvider, GlyphRaster, Landing, RasterisationMode, RunFace, RunGlyph, SubpixelLayout};
use softgraphics::soft2d::layer::Pool;
use softgraphics::soft2d::paint;
use softgraphics::soft2d::paint::{Mixture, Paint, Ramp, Spread, Stop};
use softgraphics::soft2d::prepared::{PreparedKey, RePrepare, TargetDescription};
use softgraphics::soft2d::raster;
use softgraphics::soft2d::raster::{Edges, FillRule, Mark, Point, Touched};
use softgraphics::soft2d::replay::{Answer, Ink, Replay, Row, Span, Step, Turn, NORMAL, SOURCE_OVER};
use softgraphics::soft2d::span;
use softgraphics::soft2d::stroke;
use softgraphics::soft2d::stroke::{Cap, Corner, Dasher, Distinct, Join, Plan, Walk};
use softgraphics::soft2d::target::Surface;
use softgraphics::soft2d::tile::TILE_SIZE;
use std::cell::Cell;

/// A premultiplied colour.
type Rgba = [f32; 4];

const RED: Rgba = [1.0, 0.0, 0.0, 1.0];

fn bits(value: Rgba) -> [u32; 4] {
    value.map(f32::to_bits)
}

fn floats(value: [u32; 4]) -> Rgba {
    value.map(f32::from_bits)
}

fn scaled(value: Rgba, by: f32) -> Rgba {
    value.map(|channel| channel * by)
}

fn over(source: Rgba, backdrop: Rgba) -> Rgba {
    [0, 1, 2, 3].map(|i: usize| source[i] + backdrop[i] * (1.0 - source[3]))
}

struct Picture {
    width: u32,
    height: u32,
    pixels: Vec<Rgba>,
}

fn target(width: u32, height: u32) -> Picture {
    Picture { width, height, pixels: vec![[0.0; 4]; (width * height) as usize] }
}

impl Picture {
    fn at(&self, x: u32, y: u32) -> Rgba {
        self.pixels[(y * self.width + x) as usize]
    }

    fn extent(&self) -> Extent2D {
        Extent2D { width: self.width, height: self.height }
    }
}

/// A pixel as bytes of straight alpha.
fn pixel(picture: &Picture, x: u32, y: u32) -> [u8; 4] {
    let value = picture.at(x, y);
    let straight = if value[3] > 0.0 { [value[0] / value[3], value[1] / value[3], value[2] / value[3], value[3]] } else { [0.0; 4] };
    straight.map(|channel| (channel.clamp(0.0, 1.0) * 255.0).round() as u8)
}

// Shapes.

fn point(x: f32, y: f32) -> Point {
    (x.to_bits(), y.to_bits())
}

fn rect(x: f32, y: f32, width: f32, height: f32) -> Vec<Point> {
    vec![point(x, y), point(x + width, y), point(x + width, y + height), point(x, y + height)]
}

fn outward(contours: &[Vec<Point>]) -> Option<Outward> {
    let finite: Vec<(f32, f32)> = contours.iter().flatten().map(|p| (f32::from_bits(p.0), f32::from_bits(p.1))).filter(|p| p.0.is_finite() && p.1.is_finite()).collect();
    if finite.is_empty() {
        return None;
    }
    let low = finite.iter().fold((f32::INFINITY, f32::INFINITY), |held, p| (held.0.min(p.0), held.1.min(p.1)));
    let high = finite.iter().fold((f32::NEG_INFINITY, f32::NEG_INFINITY), |held, p| (held.0.max(p.0), held.1.max(p.1)));
    let (width, height) = (high.0 - low.0, high.1 - low.1);
    if !width.is_finite() || !height.is_finite() {
        return Some(Outward { left: 0, top: 0, right: 0, bottom: 0, width: 0, height: 0 });
    }
    let near = |value: f32| value.floor().max(0.0) as i64;
    let far = |value: f32| value.ceil().max(0.0) as i64;
    let (left, top, right, bottom) = (near(low.0), near(low.1), far(low.0 + width), far(low.1 + height));
    Some(Outward { left, top, right, bottom, width: right.saturating_sub(left), height: bottom.saturating_sub(top) })
}

fn shape(contours: Vec<Vec<Point>>) -> Shape {
    let outward = outward(&contours);
    Shape { contours, outward }
}

// Strokes.

type Vector = (f32, f32);

fn vector(p: Point) -> Vector {
    (f32::from_bits(p.0), f32::from_bits(p.1))
}

fn normal_of(from: Vector, to: Vector, half: f32) -> Option<Vector> {
    let (dx, dy) = (to.0 - from.0, to.1 - from.1);
    let length = (dx * dx + dy * dy).sqrt();
    if !(length.is_finite() && length > 0.0) {
        return None;
    }
    Some((dy / length * half, -dx / length * half))
}

fn arc_steps(radius: f32) -> u32 {
    let tolerance = 1.0_f32 / 16.0;
    stroke::arc_steps(radius.to_bits(), tolerance.to_bits(), (radius * 1.234 / tolerance).sqrt() as u32)
}

struct Style {
    width: f32,
    cap: Cap,
    join: Join,
    miter_limit: f32,
}

fn join(out: &mut Vec<Point>, corner: Vector, from: Vector, to: Vector, style: &Style) {
    let half = style.width * 0.5;
    let cross = from.0 * to.1 - from.1 * to.0;
    match stroke::corner(cross.to_bits(), style.join) {
        Corner::Nothing => {}
        Corner::Arc => {
            let (start, end) = (from.1.atan2(from.0), to.1.atan2(to.0));
            let mut sweep = end - start;
            while sweep <= -std::f32::consts::PI {
                sweep += std::f32::consts::TAU;
            }
            while sweep > std::f32::consts::PI {
                sweep -= std::f32::consts::TAU;
            }
            let steps = arc_steps(half);
            for step in 1..steps {
                let angle = start + sweep * (step as f32 / steps as f32);
                out.push(point(corner.0 + angle.cos() * half, corner.1 + angle.sin() * half));
            }
        }
        Corner::Spike => {
            let middle = (from.0 + to.0, from.1 + to.1);
            let length = (middle.0 * middle.0 + middle.1 * middle.1).sqrt();
            let cosine = length / (2.0 * half);
            let reach = half / cosine;
            let limit = half * style.miter_limit.max(1.0);
            if stroke::spike(length.to_bits(), cosine.to_bits(), reach.to_bits(), limit.to_bits()) {
                out.push(point(corner.0 + middle.0 / length * reach, corner.1 + middle.1 / length * reach));
            }
        }
    }
}

fn side(points: &[Point], style: &Style, closed: bool) -> Vec<Point> {
    let half = style.width * 0.5;
    let mut out = Vec::new();
    for segment in stroke::offset_side(points.len(), closed) {
        let (from, to) = (vector(points[segment.from]), vector(points[segment.to]));
        let Some(normal) = normal_of(from, to, half) else { continue };
        out.push(point(from.0 + normal.0, from.1 + normal.1));
        out.push(point(to.0 + normal.0, to.1 + normal.1));
        let Some(next) = segment.next else { continue };
        if let Some(after) = normal_of(to, vector(points[next]), half) {
            join(&mut out, to, normal, after, style);
        }
    }
    out
}

fn cap(before: Vector, end: Vector, style: &Style) -> Vec<Point> {
    let half = style.width * 0.5;
    let Some(normal) = normal_of(before, end, half) else { return vec![] };
    let direction = (-normal.1, normal.0);
    match style.cap {
        Cap::Butt => vec![],
        Cap::Square => vec![
            point(end.0 + normal.0 + direction.0, end.1 + normal.1 + direction.1),
            point(end.0 - normal.0 + direction.0, end.1 - normal.1 + direction.1),
        ],
        Cap::Round => {
            let steps = arc_steps(half);
            let start = normal.1.atan2(normal.0);
            (1..steps)
                .map(|step| {
                    let angle = start + std::f32::consts::PI * (step as f32 / steps as f32);
                    point(end.0 + angle.cos() * half, end.1 + angle.sin() * half)
                })
                .collect()
        }
    }
}

fn distinct(points: &[Point]) -> Vec<Point> {
    let mut kept = Distinct::new();
    for p in points {
        let near = kept.last().map_or(false, |last| {
            let (a, b) = (vector(last), vector(*p));
            (a.0 - b.0).abs() < 1e-6 && (a.1 - b.1).abs() < 1e-6
        });
        kept.offer(*p, near);
    }
    kept.points
}

fn outline(lines: &[Line], style: &Style) -> Vec<Vec<Point>> {
    let half = style.width * 0.5;
    if !stroke::has_width(half.to_bits()) {
        return vec![];
    }
    let mut out = Vec::new();
    for line in lines {
        let points = distinct(&line.points);
        match stroke::plan(&points, line.closed, style.cap) {
            Plan::Nothing => {}
            Plan::Circle(at) => {
                let (centre, steps) = (vector(at), arc_steps(half));
                out.push(
                    (0..steps)
                        .map(|step| {
                            let angle = std::f32::consts::TAU * (step as f32 / steps as f32);
                            point(centre.0 + angle.cos() * half, centre.1 + angle.sin() * half)
                        })
                        .collect(),
                );
            }
            Plan::Square(at) => {
                let centre = vector(at);
                out.push(rect(centre.0 - half, centre.1 - half, style.width, style.width));
            }
            Plan::TwoLoops => {
                out.push(side(&points, style, true));
                out.push(side(&stroke::reversed(&points), style, true));
            }
            Plan::OneLoop => {
                let count = points.len();
                let end = cap(vector(points[count - 2]), vector(points[count - 1]), style);
                let start = cap(vector(points[1]), vector(points[0]), style);
                out.push(stroke::open_loop(&side(&points, style, false), &end, &side(&stroke::reversed(&points), style, false), &start));
            }
        }
    }
    out
}

/// The pieces a dash pattern leaves, its cuts found by arc length.
fn dash(lines: &[Line], pattern: &[f32], phase: f32) -> Vec<Line> {
    let total: f32 = pattern.iter().filter(|length| stroke::measures(length.to_bits())).sum();
    let period = total * stroke::repeats(pattern.len()) as f32;
    let walks: Vec<Walk> = lines
        .iter()
        .map(|line| {
            let mut points = distinct(&line.points);
            if line.closed && points.len() > 1 {
                points.push(points[0]);
            }
            let mut remaining = phase - (phase / period).floor() * period;
            let mut dasher = Dasher::new(pattern.iter().map(|length| length.to_bits()).collect(), total.to_bits()).expect("a pattern with a length");
            while let Some(length) = dasher.pass(remaining.to_bits()) {
                remaining -= f32::from_bits(length);
            }
            let on = dasher.on();
            dasher.enter((f32::from_bits(dasher.entry()) - remaining).to_bits());
            let cuts = points
                .windows(2)
                .map(|pair| {
                    let (from, to) = (vector(pair[0]), vector(pair[1]));
                    let (dx, dy) = (to.0 - from.0, to.1 - from.1);
                    let length = (dx * dx + dy * dy).sqrt();
                    if !stroke::measures(length.to_bits()) {
                        return None;
                    }
                    let mut cut = Vec::new();
                    let mut walked = 0.0;
                    while let Some(step) = dasher.cut((length - walked).to_bits()) {
                        walked += f32::from_bits(step);
                        let t = walked / length;
                        cut.push(point(from.0 + dx * t, from.1 + dy * t));
                    }
                    dasher.stay((f32::from_bits(dasher.left) - (length - walked)).to_bits());
                    Some(cut)
                })
                .collect();
            Walk { points, on, cuts }
        })
        .collect();
    stroke::dashed(&walks).into_iter().map(|points| Line { points, closed: false }).collect()
}

// Coverage.

fn wind(value: f32, rule: FillRule) -> f32 {
    match rule {
        FillRule::NonZero => f32::from_bits(raster::wind_nonzero(value.to_bits())),
        FillRule::EvenOdd => {
            let folded = value.abs() - 2.0 * (value.abs() / 2.0).floor();
            if folded > 1.0 {
                2.0 - folded
            } else {
                folded
            }
        }
    }
}

struct Sums {
    cover: Vec<f32>,
    area: Vec<f32>,
    seed: f32,
    touched: Touched,
}

impl Sums {
    fn piece(&mut self, column: f32, from_x: f32, to_x: f32, extent: f32) {
        match area::land(column.to_bits(), extent.to_bits(), self.cover.len() as u32) {
            Landed::Nothing => {}
            Landed::Left => self.seed += extent,
            Landed::Column(index) => {
                let index = index as usize;
                let right = f32::from_bits(bits::clamp((column + 1.0 - (from_x + to_x) * 0.5).to_bits(), 0, bits::ONE));
                self.area[index] += extent * right;
                self.cover[index] += extent;
                self.touched.mark(index);
            }
        }
    }

    fn accumulate(&mut self, x0: f32, y0: f32, x1: f32, y1: f32, winding: f32) {
        let width = self.cover.len() as u32;
        let (dx, dy) = (x1 - x0, y1 - y0);
        let part = |ends: (u32, u32)| (f32::from_bits(ends.0), f32::from_bits(ends.1));
        match area::across(x0.to_bits(), x1.to_bits(), dx.to_bits(), dy.to_bits(), width, (width as f32).to_bits()) {
            Across::Nothing => {}
            Across::Upright => self.piece(x0.floor(), x0, x0, dy * winding),
            Across::Slanted { seeds, rising, columns } => {
                if let Some((from, to)) = area::left_part(rising, (-x0 / dx).to_bits()).filter(|_| seeds).map(part) {
                    self.seed += (to - from) * dy * winding;
                }
                let Some((first, last)) = columns else { return };
                for column in first..=last {
                    let (lower, upper) = ((column as f32 - x0) / dx, ((column + 1) as f32 - x0) / dx);
                    if let Some((from, to)) = area::column_part(lower.to_bits(), upper.to_bits()).map(part) {
                        self.piece(column as f32, x0 + from * dx, x0 + to * dx, (to - from) * dy * winding);
                    }
                }
            }
        }
    }
}

type Covered = (u32, usize, Vec<f32>);

fn fill(edges: &Edges, rule: FillRule, antialias: bool, bounds: PixelRect) -> Vec<Covered> {
    let mut rows = Vec::new();
    if bounds.is_empty() || !edges.reaches_into((bounds.y as f32).to_bits(), ((bounds.y + bounds.height) as f32).to_bits()) {
        return rows;
    }
    let width = bounds.width as usize;
    let marks: Vec<Mark> = (bounds.y..bounds.y + bounds.height)
        .map(|y| {
            let (until, floor) = if antialias { (y as f32 + 1.0, y as f32) } else { (y as f32 + 0.5, y as f32 + 0.5) };
            Mark { until: until.to_bits(), inclusive: !antialias, floor: floor.to_bits() }
        })
        .collect();
    for (offset, active) in raster::sweep(edges, &marks).iter().enumerate() {
        let y = bounds.y + offset as u32;
        let at = |edge: &raster::Edge, y: f32| {
            let (x0, y0, x1, y1) = (f32::from_bits(edge.top_x), f32::from_bits(edge.top_y), f32::from_bits(edge.bottom_x), f32::from_bits(edge.bottom_y));
            x0 + (y - y0) * ((x1 - x0) / (y1 - y0))
        };
        if antialias {
            let mut sums = Sums { cover: vec![0.0; width], area: vec![0.0; width], seed: 0.0, touched: Touched::none() };
            for index in active {
                let edge = &edges.edges[*index as usize];
                let row = ((y as f32).to_bits(), (y as f32 + 1.0).to_bits());
                let Some((from_y, to_y)) = area::within_row((edge.top_y, edge.bottom_y), row).map(vector) else { continue };
                let (from_x, to_x) = (at(edge, from_y), at(edge, to_y));
                if from_x.is_finite() && to_x.is_finite() {
                    sums.accumulate(from_x - bounds.x as f32, from_y, to_x - bounds.x as f32, to_y, edge.winding as f32);
                }
            }
            let left = wind(sums.seed, rule);
            let mut coverage = vec![left; width];
            let mut right = left;
            if let Some((low, high)) = sums.touched.range() {
                let mut running = sums.seed;
                for index in low..=high {
                    coverage[index] = wind(running + sums.area[index], rule);
                    running += sums.cover[index];
                }
                right = wind(running, rule);
                for value in coverage[high + 1..].iter_mut() {
                    *value = right;
                }
            }
            if let Some((first, last)) = raster::emit_range(&sums.touched, left > 0.0, right > 0.0, width) {
                rows.push((y, first, coverage[first..last].to_vec()));
            }
        } else {
            let crossings: Vec<(u32, i32)> = active
                .iter()
                .map(|index| &edges.edges[*index as usize])
                .map(|edge| (at(edge, y as f32 + 0.5), edge.winding))
                .filter(|(x, _)| x.is_finite())
                .map(|(x, winding)| (x.to_bits(), winding))
                .collect();
            let spans: Vec<(i64, i64)> = raster::row_spans(&crossings, rule)
                .iter()
                .map(|(from, to)| {
                    let (left, right) = (bounds.x as f32, (bounds.x + bounds.width) as f32);
                    let (from, to) = (f32::from_bits(*from).max(left), f32::from_bits(*to).min(right));
                    ((from - left - 0.5).ceil() as i64, (to - left - 0.5).ceil() as i64)
                })
                .collect();
            let lit = raster::lit_columns(width, &spans);
            if lit.iter().any(|on| *on) {
                rows.push((y, 0, lit.iter().map(|on| if *on { 1.0 } else { 0.0 }).collect()));
            }
        }
    }
    rows
}

fn through(clips: &ClipStack, x: u32, y: u32) -> f32 {
    clips.coverage(x, y).iter().map(|factor| *factor as f32 / 255.0).product()
}

fn drawn(replay: &Replay, rows: Vec<Covered>, shade: &Shade, opacity: f32) -> Vec<Span> {
    let area = replay.area();
    let mut spans = Vec::new();
    for (y, start, coverage) in rows {
        let weights: Vec<f32> = coverage.iter().enumerate().map(|(offset, value)| value.clamp(0.0, 1.0) * opacity.clamp(0.0, 1.0) * through(&replay.clips, area.x + (start + offset) as u32, y)).collect();
        let words: Vec<u32> = weights.iter().map(|weight| weight.to_bits()).collect();
        if let Some((first, last)) = span::trim(&words) {
            let x = area.x + (start + first) as u32;
            let column = |offset: usize| area.x + (start + offset) as u32;
            let values = (first..last).map(|offset| bits(over(scaled(shade.at(column(offset), y), weights[offset]), floats(replay.get(column(offset), y))))).collect();
            spans.push(Span { x, y, values });
        }
    }
    spans
}

// Paints.

/// What a command is drawn with.
#[derive(Clone)]
enum Shade {
    Solid(Rgba),
    Linear { from: Vector, to: Vector, stops: Vec<Stop>, spread: Spread },
    /// Two circles, each a centre and a radius.
    Radial { from: (Vector, f32), to: (Vector, f32), stops: Vec<Stop>, spread: Spread },
    Conic { centre: Vector, start: f32, end: f32, stops: Vec<Stop>, spread: Spread },
}

/// A position under a spread: what takes arithmetic is folded here.
fn settled(position: f32, spread: Spread) -> f32 {
    match paint::spread_position(position.to_bits(), spread) {
        Some(held) => f32::from_bits(held),
        None if spread == Spread::Repeat => position - position.floor(),
        None => {
            let folded = position - (position / 2.0).floor() * 2.0;
            if folded <= 1.0 {
                folded
            } else {
                2.0 - folded
            }
        }
    }
}

fn mixed(stops: &[Stop], position: f32) -> Rgba {
    match Ramp::new(stops).at(position.to_bits()) {
        Mixture::Clear => [0.0; 4],
        Mixture::Plain(colour) => floats(colour),
        Mixture::Between(low, high) => {
            let (from, to) = (f32::from_bits(low.0), f32::from_bits(high.0));
            let t = (position - from) / (to - from);
            let (a, b) = (floats(low.1), floats(high.1));
            [0, 1, 2, 3].map(|i: usize| a[i] + (b[i] - a[i]) * t)
        }
    }
}

impl Shade {
    fn at(&self, x: u32, y: u32) -> Rgba {
        let p = (x as f32 + 0.5, y as f32 + 0.5);
        match self {
            Shade::Solid(colour) => *colour,
            Shade::Linear { from, to, stops, spread } => {
                let axis = (to.0 - from.0, to.1 - from.1);
                let length_squared = axis.0 * axis.0 + axis.1 * axis.1;
                mixed(stops, settled(((p.0 - from.0) * axis.0 + (p.1 - from.1) * axis.1) / length_squared, *spread))
            }
            Shade::Radial { from, to, stops, spread } => {
                let (cd, pd, dr) = ((to.0 .0 - from.0 .0, to.0 .1 - from.0 .1), (p.0 - from.0 .0, p.1 - from.0 .1), to.1 - from.1);
                let a = cd.0 * cd.0 + cd.1 * cd.1 - dr * dr;
                let b = pd.0 * cd.0 + pd.1 * cd.1 + from.1 * dr;
                let c = pd.0 * pd.0 + pd.1 * pd.1 - from.1 * from.1;
                let root = (b * b - a * c).sqrt();
                let (one, other) = ((b + root) / a, (b - root) / a);
                let (near, far) = if one > other { (one, other) } else { (other, one) };
                let radius = |t: f32| (t.to_bits(), (from.1 + t * dr).to_bits());
                match paint::front_root(radius(near), radius(far)) {
                    Some(t) => mixed(stops, settled(f32::from_bits(t), *spread)),
                    None => [0.0; 4],
                }
            }
            Shade::Conic { centre, start, end, stops, spread } => {
                let angle = (p.1 - centre.1).atan2(p.0 - centre.0).rem_euclid(std::f32::consts::TAU);
                mixed(stops, settled((angle - start) / (end - start), *spread))
            }
        }
    }
}

// Glyphs.

/// A provider that answers with one form per kind.
struct EveryKind;

impl GlyphProvider for EveryKind {
    fn glyph(&self, key: &GlyphCacheKey) -> GlyphImage {
        match key.kind {
            GlyphKind::Outline => GlyphImage::Outline { path: 1, size: 64 },
            GlyphKind::GrayscaleMask => GlyphImage::Mask { left: 0, top: -4, width: 4, height: 4, coverage: vec![255; 16], mode: RasterisationMode::Grayscale },
            GlyphKind::SubpixelMask => GlyphImage::Mask { left: 0, top: -4, width: 4, height: 4, coverage: vec![255; 48], mode: key.mode },
            GlyphKind::BitmapStrike => GlyphImage::Bitmap { left: 0, top: -4, image: 1, size: 64 },
            GlyphKind::ColrLayers => GlyphImage::Layers { paths: vec![1], size: 64 },
        }
    }
}

fn glyph_key(kind: GlyphKind, mode: RasterisationMode) -> GlyphCacheKey {
    GlyphCacheKey { face: 7, face_index: 0, generation: 1, glyph: 42, size: 8 * 64, variation: 0, transform: 0, phase_x: 0, phase_y: 0, kind, strike: None, palette: None, mode }
}

fn run_face(mode: RasterisationMode) -> RunFace {
    RunFace { face: 7, face_index: 0, generation: 1, size: 8 * 64, variation: 0, mode }
}

struct Run {
    origin: (i32, i32),
    glyphs: Vec<RunGlyph>,
    face: RunFace,
}

/// The pixels a run becomes, its glyphs decoded through a cache.
fn run_spans(replay: &Replay, run: &Run, shade: &Shade, opacity: f32) -> Vec<Span> {
    let area = replay.area();
    let mut cache = GlyphRaster::new(1 << 20);
    let mut spans = Vec::new();
    let landed = |landing: &Landing, source: Rgba| Span { x: landing.x, y: landing.y, values: vec![bits(over(scaled(source, opacity * through(&replay.clips, landing.x, landing.y)), floats(replay.get(landing.x, landing.y))))] };
    let path = |at: (i32, i32)| Edges::build(&[rect(at.0 as f32, at.1 as f32 - 4.0, 4.0, 4.0)]);
    for (at, drawn_glyph) in glyph::glyph_positions(run.origin, &run.glyphs).into_iter().zip(&run.glyphs) {
        let pen = (at.0 >> 6, at.1 >> 6);
        let phase = ((at.0 & 63) as u8, (at.1 & 63) as u8);
        let place = cache.get(&glyph::glyph_key(&run.face, drawn_glyph, None, phase), &EveryKind);
        match &cache.entries[place].1 {
            GlyphImage::Outline { .. } => spans.extend(drawn(replay, fill(&path(pen), FillRule::NonZero, true, area), shade, opacity)),
            GlyphImage::Mask { left, top, width, height, coverage, mode } => {
                let base = (pen.0 as i64 + *left as i64, pen.1 as i64 + *top as i64);
                let order = glyph::subpixel_channels(*mode);
                for landing in glyph::mask_landings(base, *width, *height, coverage, *mode, area, &replay.clips) {
                    let part = |index: usize| landing.triple[index] as f32 / 255.0;
                    let alpha = if order.mean { (part(0) + part(1) + part(2)) / 3.0 } else { part(0) };
                    let colour = shade.at(landing.x, landing.y);
                    spans.push(landed(&landing, [colour[0] * part(order.red), colour[1] * part(order.green), colour[2] * part(order.blue), colour[3] * alpha]));
                }
            }
            GlyphImage::Bitmap { left, top, .. } => {
                let base = (pen.0 as i64 + *left as i64, pen.1 as i64 + *top as i64);
                for landing in glyph::bitmap_landings(base, 4, 4, area, &replay.clips) {
                    spans.push(landed(&landing, [0.0, 0.0, 1.0, 1.0]));
                }
            }
            GlyphImage::Layers { paths, .. } => {
                for _ in paths {
                    spans.extend(drawn(replay, fill(&path(pen), FillRule::NonZero, true, area), &Shade::Solid([0.0, 1.0, 0.0, 1.0]), opacity));
                }
            }
            GlyphImage::Missing => {}
        }
    }
    spans
}

// Filters.

#[derive(Clone, Copy)]
enum Param {
    Plain,
    Blur(f32, f32),
    Offset(f32, f32),
    Matrix([[f32; 5]; 4]),
    Convolution([[f32; 3]; 3], f32),
    Displacement(f32, usize, usize),
}

#[derive(Clone)]
struct Graph {
    nodes: Vec<FilterNode>,
    params: Vec<Param>,
    grow: Option<u32>,
}

impl Graph {
    fn new() -> Graph {
        Graph { nodes: vec![], params: vec![], grow: None }
    }

    fn push(&mut self, node: FilterNode, param: Param) -> u16 {
        self.nodes.push(node);
        self.params.push(param);
        self.nodes.len() as u16 - 1
    }

    fn reaching(mut self, pixels: u32) -> Graph {
        self.grow = Some(pixels);
        self
    }
}

fn kernel(sigma: f32) -> Vec<f32> {
    let Some(radius) = filter::kernel_radius(sigma.to_bits(), (sigma * 3.0).ceil().to_bits(), 256.0_f32.to_bits()) else { return vec![1.0] };
    let weights: Vec<f32> = (-radius..=radius).map(|d| (-(d as f32 * d as f32) / (2.0 * sigma * sigma)).exp()).collect();
    let total: f32 = weights.iter().sum();
    weights.iter().map(|weight| weight / total).collect()
}

fn blur_run(run: &[Rgba], weights: &[f32]) -> Vec<Rgba> {
    (0..run.len())
        .map(|at| {
            let used = filter::taps_on(at, run.len(), weights.len());
            let mut sum = [0.0_f32; 4];
            for (offset, tap) in (used.first..used.last).enumerate() {
                for channel in 0..4 {
                    sum[channel] += run[used.pixel + offset][channel] * weights[tap];
                }
            }
            sum
        })
        .collect()
}

/// One input of a node: pixels of a surface as wide as `side`, its corner at the bounds'.
struct Input<'a> {
    pixels: &'a [[u32; 4]],
    side: u32,
}

impl Input<'_> {
    fn at(&self, x: i64, y: i64) -> Rgba {
        floats(filter::tap(self.pixels, self.side, x, y))
    }

    fn sample(&self, x: f32, y: f32) -> Rgba {
        let (x0, y0) = (x.floor() as i64, y.floor() as i64);
        let (fx, fy) = (x - x.floor(), y - y.floor());
        let mix = |a: Rgba, b: Rgba, t: f32| [0, 1, 2, 3].map(|i: usize| a[i] * (1.0 - t) + b[i] * t);
        let cells = filter::four_cells(self.pixels, self.side, x0, y0).map(floats);
        mix(mix(cells[0], cells[1], fx), mix(cells[2], cells[3], fx), fy)
    }
}

fn compute_node(node: FilterNode, param: Param, inputs: &[Vec<[u32; 4]>], bounds: PixelRect, side: u32) -> Vec<[u32; 4]> {
    let input: Vec<Input> = inputs.iter().map(|pixels| Input { pixels, side }).collect();
    let (width, height) = (bounds.width as i64, bounds.height as i64);
    if let Param::Blur(x, y) = param {
        let rows: Vec<Vec<Rgba>> = (0..height).map(|v| blur_run(&(0..width).map(|u| input[0].at(u, v)).collect::<Vec<Rgba>>(), &kernel(x))).collect();
        let columns: Vec<Vec<Rgba>> = (0..width as usize).map(|u| blur_run(&rows.iter().map(|row| row[u]).collect::<Vec<Rgba>>(), &kernel(y))).collect();
        return (0..height as usize).flat_map(|v| columns.iter().map(move |column| bits(column[v])).collect::<Vec<[u32; 4]>>()).collect();
    }
    let value = |u: i64, v: i64| -> Rgba {
        match (node, param) {
            (_, Param::Offset(dx, dy)) => input[0].sample(u as f32 - dx, v as f32 - dy),
            (_, Param::Matrix(matrix)) => {
                let colour = input[0].at(u, v);
                let straight = if colour[3] > 0.0 { [colour[0] / colour[3], colour[1] / colour[3], colour[2] / colour[3], colour[3]] } else { [0.0; 4] };
                let out = matrix.map(|row| (0..4).map(|i| row[i] * straight[i]).sum::<f32>() + row[4]).map(|channel| channel.clamp(0.0, 1.0));
                [out[0] * out[3], out[1] * out[3], out[2] * out[3], out[3]]
            }
            (_, Param::Convolution(weights, divisor)) => {
                let sum: f32 = weights.iter().flatten().sum();
                let divisor = if divisor != 0.0 {
                    divisor
                } else if sum != 0.0 {
                    sum
                } else {
                    1.0
                };
                let mut total = [0.0_f32; 4];
                let taps = filter::nine_taps(input[0].pixels, side, u as u32, v as u32);
                for (weight, tap) in weights.iter().flatten().zip(taps.iter().flatten()) {
                    for channel in 0..4 {
                        total[channel] += floats(*tap)[channel] * weight;
                    }
                }
                let alpha = (total[3] / divisor).clamp(0.0, 1.0);
                [0, 1, 2].map(|i: usize| (total[i] / divisor).clamp(0.0, 1.0).min(alpha)).iter().copied().chain([alpha]).collect::<Vec<f32>>().try_into().unwrap()
            }
            (_, Param::Displacement(scale, x, y)) => {
                let map = input[1].at(u, v);
                let straight = if map[3] > 0.0 { map.map(|channel| channel / map[3]) } else { [0.0; 4] };
                input[0].sample(u as f32 + scale * (straight[x] - 0.5), v as f32 + scale * (straight[y] - 0.5))
            }
            (FilterNode::In { .. }, _) => scaled(input[0].at(u, v), input[1].at(u, v)[3]),
            (FilterNode::Composite { .. } | FilterNode::Blend { .. }, _) => over(input[0].at(u, v), input[1].at(u, v)),
            _ => [0.0; 4],
        }
    };
    (0..height).flat_map(|v| (0..width).map(|u| bits(value(u, v))).collect::<Vec<[u32; 4]>>()).collect()
}

// Lists and frames.

struct List {
    identity: u64,
    commands: Vec<Command>,
    shades: Vec<Shade>,
    runs: Vec<Run>,
    graphs: Vec<Graph>,
    antialias: bool,
    opacity: f32,
}

fn ink(opacity: f32) -> Ink {
    Ink { opacity: opacity.to_bits(), blend: NORMAL, operator: SOURCE_OVER }
}

impl List {
    fn new() -> List {
        List { identity: 1, commands: vec![], shades: vec![], runs: vec![], graphs: vec![], antialias: true, opacity: 1.0 }
    }

    fn push(&mut self, command: Command, colour: Rgba) {
        self.commands.push(command);
        self.shades.push(Shade::Solid(colour));
    }

    /// Fill the whole of a target with a gradient.
    fn fill_with(&mut self, width: f32, height: f32, shade: Shade) {
        let paint = match shade {
            Shade::Solid(_) => Paint::Solid,
            Shade::Linear { .. } => Paint::Linear { stops: 0 },
            Shade::Radial { .. } => Paint::Radial { stops: 0 },
            Shade::Conic { .. } => Paint::Conic { stops: 0 },
        };
        let shape = shape(vec![rect(0.0, 0.0, width, height)]);
        self.commands.push(Command::FillPath { path: 0, shape: Flattened::Made(shape), rule: FillRule::NonZero, antialias: self.antialias, paint, alpha: 0, ink: ink(self.opacity) });
        self.shades.push(shade);
    }

    fn draw_run(&mut self, run: Run, reach: PixelRect) {
        let command = Command::DrawGlyphRun { run: self.runs.len() as u32, reach: Some(reach), paint: Paint::Solid, ink: ink(self.opacity) };
        self.runs.push(run);
        self.push(command, RED);
    }

    fn fill(&mut self, contours: Vec<Vec<Point>>, colour: Rgba, rule: FillRule) {
        let command = Command::FillPath { path: 0, shape: Flattened::Made(shape(contours)), rule, antialias: self.antialias, paint: Paint::Solid, alpha: colour[3].to_bits(), ink: ink(self.opacity) };
        self.push(command, colour);
    }

    fn fill_rect(&mut self, x: f32, y: f32, width: f32, height: f32, colour: Rgba) {
        self.fill(vec![rect(x, y, width, height)], colour, FillRule::NonZero);
    }

    fn stroke(&mut self, lines: Vec<Line>, style: &Style, pattern: Option<(&[f32], f32)>) {
        let outlined = match pattern {
            Some((lengths, phase)) => outline(&dash(&lines, lengths, phase), style),
            None => outline(&lines, style),
        };
        let stroked = Stroked { lines, outline: shape(outlined) };
        let dash = pattern.map(|_| Dash { pattern: 0, known: true });
        let command = Command::StrokePath { path: 0, stroke: Flattened::Made(stroked), width: style.width.to_bits(), dash, antialias: self.antialias, paint: Paint::Solid, ink: ink(self.opacity) };
        self.push(command, RED);
    }

    fn clip(&mut self, contours: Vec<Vec<Point>>, inverse: bool) {
        self.push(Command::PushClip { path: 0, shape: Flattened::Made(shape(contours)), rule: FillRule::NonZero, antialias: self.antialias, inverse }, RED);
    }

    fn pop_clip(&mut self) {
        self.push(Command::PopClip, RED);
    }

    fn begin_layer(&mut self, opacity: f32, graph: Option<Graph>) {
        let filter = graph.map(|graph| {
            self.graphs.push(graph);
            self.graphs.len() as u32 - 1
        });
        self.push(Command::BeginLayer { bounds: None, ink: ink(opacity), filter }, RED);
    }

    fn end_layer(&mut self) {
        self.push(Command::EndLayer, RED);
    }
}

#[derive(Default)]
struct Stores {
    pools: Option<(Pool, MaskPool)>,
}

/// A target of an extent, at scale one, in a format and a colour space of this file's own numbering.
fn description(extent: Extent2D) -> TargetDescription {
    TargetDescription { extent, scale: 1.0_f32.to_bits(), format: 1, color_space: 1 }
}

fn prepare(list: &List, extent: Extent2D, stores: &mut Stores) -> Result<SoftPrepared, Error> {
    let (mut pool, mut masks) = stores.pools.take().unwrap_or_else(|| (Pool::new(), MaskPool::new()));
    let needs: Vec<FilterNeed> = list.graphs.iter().map(|graph| FilterNeed { grow: graph.grow, nodes: graph.nodes.len() }).collect();
    let outcome = backend::prepare(&list.commands, list.identity, description(extent), &needs, 256, 0, &mut pool, &mut masks);
    stores.pools = Some((pool, masks));
    outcome
}

fn perform(replay: &mut Replay, list: &List, prepared: &SoftPrepared, command: usize, filters: &[Vec<FilterNode>]) -> Result<(), Error> {
    let step = &prepared.steps[command];
    let shade = &list.shades[command];
    let ceiling = 1 << 30;
    let answer = match step {
        Step::Fill { edges, rule, antialias, ink } => Answer::Spans(drawn(replay, fill(edges, *rule, *antialias, replay.area()), shade, f32::from_bits(ink.opacity))),
        Step::AliasedLines { points, ink } => {
            let pixels = backend::draw_aliased_lines(points, replay.area(), &replay.clips);
            let rows = |x: u32, y: u32| vec![bits(over(scaled(shade.at(x, y), f32::from_bits(ink.opacity) * through(&replay.clips, x, y)), floats(replay.get(x, y))))];
            Answer::Spans(pixels.iter().map(|(x, y)| Span { x: *x, y: *y, values: rows(*x, *y) }).collect())
        }
        Step::Glyphs { run, ink } => Answer::Spans(run_spans(replay, &list.runs[*run as usize], shade, f32::from_bits(ink.opacity))),
        Step::PushClip { edges, rule, antialias, bounds, inverse } => {
            let area = replay.clip_area(*bounds, *inverse);
            let rows = fill(edges, *rule, *antialias, area);
            let byte = |value: f32| (value.clamp(0.0, 1.0) * 255.0).round() as u8;
            Answer::Rows(
                rows.iter()
                    .map(|(y, start, coverage)| {
                        let mut line = vec![0_u8; *start];
                        line.extend(coverage.iter().map(|value| byte(*value)));
                        line.resize(area.width as usize, 0);
                        Row { y: *y, coverage: line }
                    })
                    .collect(),
            )
        }
        _ => Answer::Nothing,
    };
    let mut turn = replay.perform(step, &answer, filters, prepared.expansion, ceiling)?;
    let mut computed: Vec<Vec<[u32; 4]>> = Vec::new();
    let mut composed = None;
    loop {
        match turn {
            Turn::Done => return Ok(()),
            Turn::Filter { node, inputs } => {
                let layer = replay.layers.last().unwrap();
                let handle = layer.filter.unwrap() as usize;
                let side = TILE_SIZE + prepared.expansion * 2;
                computed.push(compute_node(list.graphs[handle].nodes[node], list.graphs[handle].params[node], &inputs, layer.bounds, side));
            }
            Turn::Compose(spots) => {
                let opacity = f32::from_bits(replay.layers.last().unwrap().ink.opacity).clamp(0.0, 1.0);
                composed = Some(spots.iter().map(|spot| bits(over(scaled(floats(spot.source), opacity * through(&replay.clips, spot.x, spot.y)), floats(spot.backdrop)))).collect());
            }
        }
        let answer = Answer::Closing { computed: computed.clone(), composed: composed.clone() };
        turn = replay.perform(step, &answer, filters, prepared.expansion, ceiling)?;
    }
}

fn render<C: Cancellation>(list: &List, prepared: &SoftPrepared, picture: &mut Picture, stores: &mut Stores, cancellation: Option<&C>) -> Result<(), Error> {
    let mut frame = Frame::begin(prepared, picture.extent())?;
    let filters: Vec<Vec<FilterNode>> = list.graphs.iter().map(|graph| graph.nodes.clone()).collect();
    while let Some((index, area)) = frame.advance(prepared, cancellation)? {
        let Some(trip) = prepared.round_trip(index) else { continue };
        let mut base = Surface::new(area);
        if prepared.needs_backdrop(index) {
            let rows: Vec<Vec<[u32; 4]>> = (trip.y..trip.y + trip.height).map(|y| (trip.x..trip.x + trip.width).map(|x| bits(picture.at(x, y))).collect()).collect();
            base.load(trip, &rows);
        }
        let (pool, masks) = stores.pools.take().unwrap();
        let mut replay = Replay::begin(area, base, pool, masks);
        let mut outcome = Ok(());
        for command in prepared.bins.commands(index) {
            outcome = perform(&mut replay, list, prepared, *command as usize, &filters);
            if outcome.is_err() {
                break;
            }
        }
        let (base, pool, masks) = replay.finish();
        stores.pools = Some((pool, masks));
        outcome?;
        for (y, row) in base.store(trip) {
            for (offset, value) in row.iter().enumerate() {
                picture.pixels[(y * picture.width + trip.x) as usize + offset] = floats(*value);
            }
        }
    }
    Ok(())
}

struct Never;

impl Cancellation for Never {
    fn cancelled(&self) -> bool {
        false
    }
}

fn draw(list: &List, picture: &mut Picture) {
    let mut stores = Stores::default();
    let prepared = prepare(list, picture.extent(), &mut stores).expect("a preparation");
    render::<Never>(list, &prepared, picture, &mut stores, None).expect("a frame");
}

#[test]
fn a_filled_rectangle_is_exact_and_half_open() {
    let mut image = target(8, 8);
    let mut list = List::new();
    list.fill_rect(2.0, 2.0, 4.0, 4.0, RED);
    draw(&list, &mut image);
    assert_eq!(pixel(&image, 3, 3), [255, 0, 0, 255], "inside is the paint");
    assert_eq!(pixel(&image, 0, 0), [0, 0, 0, 0], "outside is untouched");
    assert_eq!(pixel(&image, 5, 3), [255, 0, 0, 255], "the last covered pixel");
    assert_eq!(pixel(&image, 6, 3), [0, 0, 0, 0], "and the first one past it is not covered");

    let mut empty = target(4, 4);
    let mut list = List::new();
    list.fill_rect(1.0, 1.0, 0.0, 2.0, RED);
    draw(&list, &mut empty);
    assert_eq!(pixel(&empty, 1, 1), [0, 0, 0, 0]);
}

#[test]
fn coverage_is_analytic_along_a_known_edge() {
    let mut image = target(8, 4);
    let mut list = List::new();
    list.fill_rect(2.5, 0.0, 3.5, 4.0, RED);
    draw(&list, &mut image);
    let half = pixel(&image, 2, 1);
    assert!((half[3] as i32 - 128).abs() <= 2, "a half-covered pixel is half-covered: {half:?}");
    assert_eq!(pixel(&image, 3, 1)[3], 255);
    assert_eq!(pixel(&image, 6, 1)[3], 0);

    let mut aliased = target(8, 4);
    let mut list = List::new();
    list.antialias = false;
    list.fill_rect(2.5, 0.0, 3.5, 4.0, RED);
    draw(&list, &mut aliased);
    for x in 0..8 {
        let alpha = pixel(&aliased, x, 1)[3];
        assert!(alpha == 0 || alpha == 255, "an aliased edge has no partial coverage: {x} is {alpha}");
    }
    assert_eq!(pixel(&aliased, 4, 1)[3], 255);
}

#[test]
fn both_fill_rules_are_implemented_and_differ() {
    let contours = || vec![rect(0.0, 0.0, 8.0, 8.0), rect(2.0, 2.0, 4.0, 4.0)];
    let filled = |rule: FillRule| {
        let mut image = target(8, 8);
        let mut list = List::new();
        list.fill(contours(), RED, rule);
        draw(&list, &mut image);
        image
    };
    let solid = filled(FillRule::NonZero);
    assert_eq!(pixel(&solid, 4, 4)[3], 255, "under non-zero the middle is filled");
    let hollow = filled(FillRule::EvenOdd);
    assert_eq!(pixel(&hollow, 4, 4)[3], 0, "under even-odd it is a hole");
    assert_eq!(pixel(&hollow, 1, 4)[3], 255, "and the ring around it is filled");
}

fn open(points: &[(f32, f32)]) -> Vec<Line> {
    vec![Line { points: points.iter().map(|p| point(p.0, p.1)).collect(), closed: false }]
}

#[test]
fn caps_and_joins_reach_where_they_should() {
    let stroke = |cap: Cap| {
        let mut image = target(20, 16);
        let mut list = List::new();
        list.stroke(open(&[(4.0, 8.0), (12.0, 8.0)]), &Style { width: 4.0, cap, join: Join::Miter, miter_limit: 4.0 }, None);
        draw(&list, &mut image);
        image
    };
    let butt = stroke(Cap::Butt);
    let square = stroke(Cap::Square);
    let round = stroke(Cap::Round);
    for image in [&butt, &square, &round] {
        assert_eq!(pixel(image, 8, 8)[3], 255, "the body of the stroke");
        assert_eq!(pixel(image, 8, 4)[3], 0, "and not two widths away");
    }
    assert_eq!(pixel(&butt, 13, 8)[3], 0, "a butt cap stops at the endpoint");
    assert_eq!(pixel(&square, 13, 8)[3], 255, "a square cap reaches half a width past it");
    assert!(pixel(&round, 13, 8)[3] > 128, "a round cap reaches past the endpoint on the axis: {:?}", pixel(&round, 13, 8));
    assert_eq!(pixel(&square, 13, 6)[3], 255, "the square cap's corner");
    assert!(pixel(&round, 13, 6)[3] < 128, "the round cap's corner is outside the circle: {:?}", pixel(&round, 13, 6));

    let joined = |join: Join| {
        let mut image = target(20, 20);
        let mut list = List::new();
        list.stroke(open(&[(4.0, 14.0), (10.0, 4.0), (16.0, 14.0)]), &Style { width: 3.0, cap: Cap::Butt, join, miter_limit: 8.0 }, None);
        draw(&list, &mut image);
        image
    };
    let tip = pixel(&joined(Join::Miter), 10, 2);
    assert!(tip[3] > pixel(&joined(Join::Bevel), 10, 2)[3], "a miter reaches past the corner and a bevel cuts it off: {tip:?}");
}

#[test]
fn a_closed_stroke_leaves_its_middle_empty_and_a_point_is_a_dot() {
    let mut image = target(24, 24);
    let mut list = List::new();
    let style = Style { width: 2.0, cap: Cap::Butt, join: Join::Round, miter_limit: 4.0 };
    list.stroke(vec![Line { points: rect(6.0, 6.0, 12.0, 12.0), closed: true }], &style, None);
    draw(&list, &mut image);
    assert_eq!(pixel(&image, 12, 6)[3], 255, "the side is drawn");
    assert_eq!(pixel(&image, 12, 12)[3], 0, "and the middle is not");
    for (cap, drawn) in [(Cap::Butt, false), (Cap::Round, true), (Cap::Square, true)] {
        let mut image = target(16, 16);
        let mut list = List::new();
        list.stroke(open(&[(8.0, 8.0), (8.0, 8.0)]), &Style { width: 6.0, cap, join: Join::Bevel, miter_limit: 4.0 }, None);
        draw(&list, &mut image);
        assert_eq!(pixel(&image, 8, 8)[3] == 255, drawn, "{cap:?}");
    }
}

#[test]
fn a_dash_pattern_leaves_the_gaps_it_states() {
    let style = Style { width: 4.0, cap: Cap::Butt, join: Join::Miter, miter_limit: 4.0 };
    let mut image = target(16, 8);
    let mut list = List::new();
    list.stroke(open(&[(0.0, 4.0), (16.0, 4.0)]), &style, Some((&[4.0, 4.0], 0.0)));
    draw(&list, &mut image);
    assert_eq!(pixel(&image, 1, 4)[3], 255, "the first dash is drawn");
    assert_eq!(pixel(&image, 6, 4)[3], 0, "the first gap is not");
    assert_eq!(pixel(&image, 9, 4)[3], 255, "and the second dash is");

    let mut shifted = target(16, 8);
    let mut list = List::new();
    list.stroke(open(&[(0.0, 4.0), (16.0, 4.0)]), &style, Some((&[4.0, 4.0], 4.0)));
    draw(&list, &mut shifted);
    assert_eq!(pixel(&shifted, 1, 4)[3], 0, "half a period on it starts in a gap");
    assert_eq!(pixel(&shifted, 6, 4)[3], 255);
}

fn round_shape() -> Vec<Vec<Point>> {
    let points = (0..64)
        .map(|step| {
            let angle = std::f32::consts::TAU * step as f32 / 64.0;
            point(8.0 + 6.0 * angle.cos(), 8.0 + 8.0 * angle.sin())
        })
        .collect();
    vec![points]
}

#[test]
fn clips_nest_intersect_and_invert() {
    let mut image = target(16, 16);
    let mut list = List::new();
    list.clip(vec![rect(0.0, 0.0, 8.0, 16.0)], false);
    list.clip(vec![rect(4.0, 0.0, 12.0, 16.0)], false);
    list.fill_rect(0.0, 0.0, 16.0, 16.0, RED);
    list.pop_clip();
    list.pop_clip();
    draw(&list, &mut image);
    assert_eq!(pixel(&image, 5, 8)[3], 255, "the intersection of the two clips is drawn");
    assert_eq!(pixel(&image, 2, 8)[3], 0, "outside the second clip is not");
    assert_eq!(pixel(&image, 12, 8)[3], 0, "and neither is outside the first: clips intersect");

    let mut knockout = target(16, 16);
    let mut list = List::new();
    list.clip(vec![rect(4.0, 4.0, 8.0, 8.0)], true);
    list.fill_rect(0.0, 0.0, 16.0, 16.0, RED);
    list.pop_clip();
    draw(&list, &mut knockout);
    assert_eq!(pixel(&knockout, 8, 8)[3], 0, "inside the inverse clip's shape nothing is drawn");
    assert_eq!(pixel(&knockout, 1, 1)[3], 255, "and outside it everything is");

    let mut rounded = target(16, 16);
    let mut list = List::new();
    list.clip(round_shape(), false);
    list.fill_rect(0.0, 0.0, 16.0, 16.0, RED);
    list.pop_clip();
    draw(&list, &mut rounded);
    assert_eq!(pixel(&rounded, 8, 8)[3], 255, "the middle of a rounded clip is open");
    assert_eq!(pixel(&rounded, 0, 0)[3], 0, "and its corner is not");

    let mut emptied = target(8, 8);
    let mut list = List::new();
    list.clip(vec![], false);
    list.fill_rect(0.0, 0.0, 8.0, 8.0, RED);
    list.pop_clip();
    list.clip(vec![], true);
    list.fill_rect(0.0, 0.0, 2.0, 2.0, RED);
    list.pop_clip();
    draw(&list, &mut emptied);
    assert_eq!(pixel(&emptied, 4, 4)[3], 0, "an empty shape clips everything away");
    assert_eq!(pixel(&emptied, 1, 1)[3], 255, "and its inverse nothing");
}

#[test]
fn a_layer_composites_as_one_thing_at_its_opacity() {
    let overlapping = |layered: bool| {
        let mut image = target(16, 16);
        let mut list = List::new();
        if layered {
            list.begin_layer(0.5, None);
        } else {
            list.opacity = 0.5;
        }
        list.fill_rect(0.0, 0.0, 10.0, 16.0, RED);
        list.fill_rect(6.0, 0.0, 10.0, 16.0, RED);
        if layered {
            list.end_layer();
        }
        draw(&list, &mut image);
        image
    };
    let separate = overlapping(false);
    let grouped = overlapping(true);
    let alpha = |image: &Picture, x: u32, y: u32| pixel(image, x, y)[3] as i32;
    assert!((alpha(&separate, 2, 8) - 128).abs() <= 2, "{:?}", pixel(&separate, 2, 8));
    assert!((alpha(&grouped, 2, 8) - 128).abs() <= 2, "{:?}", pixel(&grouped, 2, 8));
    assert!((alpha(&separate, 8, 8) - 191).abs() <= 3, "half over half is three quarters: {:?}", pixel(&separate, 8, 8));
    assert!((alpha(&grouped, 8, 8) - 128).abs() <= 3, "a group is composited once: {:?}", pixel(&grouped, 8, 8));
}

#[test]
fn damage_is_conservative_and_clipped_to_the_target() {
    let mut image = target(64, 64);
    let mut list = List::new();
    list.fill_rect(8.0, 8.0, 16.0, 16.0, RED);
    let mut stores = Stores::default();
    let prepared = prepare(&list, image.extent(), &mut stores).expect("a preparation");
    let damage = prepared.damage().expect("something was drawn");
    assert!(damage.x <= 8 && damage.y <= 8, "{damage:?}");
    assert!(damage.x + damage.width >= 24 && damage.y + damage.height >= 24, "{damage:?}");
    assert!(damage.x + damage.width <= 64 && damage.y + damage.height <= 64, "damage is clipped to the target: {damage:?}");
    assert_eq!(prepared.commands(), 1);
    assert_eq!(prepared.command_damage(0), Some(damage), "one command's damage is the frame's");
    assert_eq!(prepared.command_damage(1), None);

    let mut list = List::new();
    list.fill_rect(500.0, 500.0, 4.0, 4.0, RED);
    let prepared = prepare(&list, image.extent(), &mut stores).expect("a preparation");
    assert_eq!(prepared.damage(), None);
    render::<Never>(&list, &prepared, &mut image, &mut stores, None).expect("a frame that draws nothing");
}

#[test]
fn nothing_is_written_outside_the_target() {
    let mut list = List::new();
    list.fill_rect(-8.0, -8.0, 64.0, 64.0, RED);
    let mut image = target(16, 16);
    draw(&list, &mut image);
    assert_eq!(image.pixels.len(), 256);
    assert!(image.pixels.iter().all(|value| *value == RED), "every pixel of the target is drawn");
    // A surface takes nothing outside itself.
    let mut surface = Surface::new(PixelRect::new(4, 4, 2, 2));
    for y in 0..10 {
        for x in 0..10 {
            surface.set(x, y, bits(RED));
        }
    }
    assert_eq!(surface.pixels.len(), 4);
    assert_eq!(floats(surface.get(3, 4)), [0.0; 4]);
    surface.write_span(3, 5, &[bits([0.5; 4]); 8]);
    assert_eq!(floats(surface.get(4, 4)), RED);
}

fn with_graph(graph: Graph) -> Picture {
    let mut image = target(32, 32);
    let mut list = List::new();
    list.begin_layer(1.0, Some(graph));
    list.fill_rect(12.0, 12.0, 8.0, 8.0, RED);
    list.end_layer();
    draw(&list, &mut image);
    image
}

fn source_then(reach: u32, build: &dyn Fn(&mut Graph, u16)) -> Picture {
    let mut graph = Graph::new();
    let source = graph.push(FilterNode::Source, Param::Plain);
    build(&mut graph, source);
    with_graph(graph.reaching(reach))
}

#[test]
fn every_filter_node_does_its_own_work() {
    let plain = source_then(0, &|_, _| {});
    assert_eq!(pixel(&plain, 16, 16)[3], 255);
    assert_eq!(pixel(&plain, 4, 16)[3], 0);

    let blurred = source_then(6, &|graph, source| {
        graph.push(FilterNode::Blur { input: source }, Param::Blur(2.0, 2.0));
    });
    assert!(pixel(&blurred, 16, 16)[3] > 128, "the middle survives a blur: {:?}", pixel(&blurred, 16, 16));
    assert!(pixel(&blurred, 10, 16)[3] > 0, "and it reaches past the shape: {:?}", pixel(&blurred, 10, 16));

    let offset = source_then(6, &|graph, source| {
        graph.push(FilterNode::Offset { input: source }, Param::Offset(6.0, 0.0));
    });
    assert_eq!(pixel(&offset, 16, 16)[3], 0, "what was here has moved");
    assert_eq!(pixel(&offset, 22, 16)[3], 255, "to six pixels along");

    let swapped = source_then(0, &|graph, source| {
        let matrix = [[0.0, 0.0, 1.0, 0.0, 0.0], [0.0, 1.0, 0.0, 0.0, 0.0], [1.0, 0.0, 0.0, 0.0, 0.0], [0.0, 0.0, 0.0, 1.0, 0.0]];
        graph.push(FilterNode::ColorMatrix { input: source }, Param::Matrix(matrix));
    });
    let value = pixel(&swapped, 16, 16);
    assert!(value[2] > 200 && value[0] < 60, "red with its channels swapped is blue: {value:?}");

    let blue = [0.0, 0.0, 1.0, 1.0];
    let mut graph = Graph::new();
    graph.push(FilterNode::Flood { colour: bits(blue) }, Param::Plain);
    let flooded = with_graph(graph);
    assert!(pixel(&flooded, 2, 2)[2] > 200, "a flood covers the layer: {:?}", pixel(&flooded, 2, 2));

    let tinted = source_then(0, &|graph, source| {
        let flood = graph.push(FilterNode::Flood { colour: bits(blue) }, Param::Plain);
        graph.push(FilterNode::In { input: flood, mask: source }, Param::Plain);
    });
    assert!(pixel(&tinted, 16, 16)[2] > 200, "inside the shape the flood survives: {:?}", pixel(&tinted, 16, 16));
    assert_eq!(pixel(&tinted, 2, 2)[3], 0, "and outside it is gone");

    let shadow = source_then(10, &|graph, source| {
        let blur = graph.push(FilterNode::Blur { input: source }, Param::Blur(2.0, 2.0));
        let offset = graph.push(FilterNode::Offset { input: blur }, Param::Offset(4.0, 4.0));
        let flood = graph.push(FilterNode::Flood { colour: bits([0.0, 0.0, 0.0, 1.0]) }, Param::Plain);
        let tint = graph.push(FilterNode::In { input: flood, mask: offset }, Param::Plain);
        graph.push(FilterNode::Composite { source, backdrop: tint }, Param::Plain);
    });
    assert!(pixel(&shadow, 16, 16)[0] > 200, "the shape is still red: {:?}", pixel(&shadow, 16, 16));
    let under = pixel(&shadow, 23, 23);
    assert!(under[3] > 0 && under[0] < 60, "and its shadow is dark and below-right of it: {under:?}");

    let mut image = target(32, 32);
    let mut list = List::new();
    list.fill_rect(0.0, 0.0, 32.0, 16.0, blue);
    let mut graph = Graph::new();
    let backdrop = graph.push(FilterNode::Backdrop, Param::Plain);
    graph.push(FilterNode::Blur { input: backdrop }, Param::Blur(3.0, 3.0));
    list.begin_layer(1.0, Some(graph.reaching(9)));
    list.fill_rect(8.0, 8.0, 16.0, 16.0, [0.1; 4]);
    list.end_layer();
    draw(&list, &mut image);
    assert!(pixel(&image, 16, 17)[2] > 0, "the backdrop's blue is blurred past the edge it had: {:?}", pixel(&image, 16, 17));
}

#[test]
fn the_general_filter_nodes_do_what_the_profile_says_they_do() {
    let identity = source_then(1, &|graph, source| {
        graph.push(FilterNode::Convolution { input: source }, Param::Convolution([[0.0, 0.0, 0.0], [0.0, 1.0, 0.0], [0.0, 0.0, 0.0]], 1.0));
    });
    assert_eq!(pixel(&identity, 16, 16), pixel(&source_then(0, &|_, _| {}), 16, 16));

    let edges = source_then(1, &|graph, source| {
        graph.push(FilterNode::Convolution { input: source }, Param::Convolution([[0.0, -1.0, 0.0], [-1.0, 4.0, -1.0], [0.0, -1.0, 0.0]], 0.0));
    });
    assert_eq!(pixel(&edges, 16, 16)[3], 0, "the inside of a flat square has no edges in it");
    assert!(pixel(&edges, 12, 16)[3] > 0, "and its left edge does: {:?}", pixel(&edges, 12, 16));

    let dilated = source_then(2, &|graph, source| {
        graph.push(FilterNode::MorphologyDilate { input: source, reach_x: 2, reach_y: 2 }, Param::Plain);
    });
    assert_eq!(pixel(&dilated, 10, 16)[3], 255, "two pixels outside the shape is now inside it");
    assert_eq!(pixel(&dilated, 9, 16)[3], 0, "and three is still outside");
    let eroded = source_then(2, &|graph, source| {
        graph.push(FilterNode::MorphologyErode { input: source, reach_x: 2, reach_y: 2 }, Param::Plain);
    });
    assert_eq!(pixel(&eroded, 13, 16)[3], 0, "one pixel inside the edge is eroded away");
    assert_eq!(pixel(&eroded, 16, 16)[3], 255, "and the middle survives");

    let displaced = |map: Rgba| {
        source_then(8, &|graph, source| {
            let flood = graph.push(FilterNode::Flood { colour: bits(map) }, Param::Plain);
            graph.push(FilterNode::DisplacementMap { input: source, map: flood }, Param::Displacement(8.0, 0, 1));
        })
    };
    let undisplaced = displaced([0.5, 0.5, 0.5, 1.0]);
    assert_eq!(pixel(&undisplaced, 16, 16)[3], 255, "a flat half-grey map moves nothing");
    assert_eq!(pixel(&undisplaced, 10, 16)[3], 0, "and nothing arrives from anywhere else");
    let moved = displaced([1.0, 0.5, 0.5, 1.0]);
    assert_eq!(pixel(&moved, 12, 16)[3], 255, "the shape is read from four pixels to the right, so it appears four to the left");
    assert_eq!(pixel(&moved, 18, 16)[3], 0, "and its right edge has moved with it");

    let cropped = source_then(0, &|graph, source| {
        graph.push(FilterNode::Crop { input: source, keep: Keep { left: 12, top: 12, right: 16, bottom: 20 } }, Param::Plain);
    });
    assert_eq!(pixel(&cropped, 13, 16)[3], 255, "inside the crop the shape is there");
    assert_eq!(pixel(&cropped, 17, 16)[3], 0, "and outside it there is nothing");

    let tiled = source_then(0, &|graph, source| {
        graph.push(FilterNode::Tile { input: source, keep: Keep { left: 12, top: 12, right: 20, bottom: 20 } }, Param::Plain);
    });
    assert_eq!(pixel(&tiled, 16, 16)[3], 255, "the tile itself is unchanged");
    assert_eq!(pixel(&tiled, 24, 24)[3], 255, "and it repeats one period along both axes");
    assert_eq!(pixel(&tiled, 4, 4)[3], 255, "in the negative direction too, which a plain remainder gets wrong");

    // A node that reads one that is not there yet writes nothing, and a tile of no area too.
    let missing = source_then(0, &|graph, _| {
        graph.push(FilterNode::Crop { input: 9, keep: Keep { left: 0, top: 0, right: 32, bottom: 32 } }, Param::Plain);
    });
    assert_eq!(pixel(&missing, 16, 16)[3], 0);
    let flat = source_then(0, &|graph, source| {
        graph.push(FilterNode::Tile { input: source, keep: Keep { left: 12, top: 12, right: 12, bottom: 20 } }, Param::Plain);
    });
    assert_eq!(pixel(&flat, 16, 16)[3], 0);
}

/// A cancellation that fires after so many questions.
struct StopAfter {
    limit: Cell<u32>,
}

impl Cancellation for StopAfter {
    fn cancelled(&self) -> bool {
        let left = self.limit.get();
        if left == 0 {
            return true;
        }
        self.limit.set(left - 1);
        false
    }
}

#[test]
fn a_cancelled_frame_stops_and_says_so() {
    let mut image = target(256, 256);
    let mut list = List::new();
    list.fill_rect(0.0, 0.0, 256.0, 256.0, RED);
    let stop = StopAfter { limit: Cell::new(2) };
    let mut stores = Stores::default();
    let prepared = prepare(&list, image.extent(), &mut stores).expect("a preparation");
    assert_eq!(render(&list, &prepared, &mut image, &mut stores, Some(&stop)).err(), Some(Error::Cancelled));
    assert_eq!(pixel(&image, 4, 4)[3], 255, "the first tile was finished");
    assert_eq!(pixel(&image, 200, 200)[3], 0, "and the last was never started");
}

#[test]
fn a_prepared_list_is_bound_to_what_it_was_prepared_against() {
    let mut list = List::new();
    list.fill_rect(0.0, 0.0, 8.0, 8.0, RED);
    let mut stores = Stores::default();
    let mut image = target(32, 32);
    let prepared = prepare(&list, image.extent(), &mut stores).expect("a preparation");
    let mut wider = target(64, 32);
    let refusal = Error::LimitExceeded { limit: Limit::TargetExtent, ceiling: 32 };
    assert_eq!(render::<Never>(&list, &prepared, &mut wider, &mut stores, None), Err(refusal));
    render::<Never>(&list, &prepared, &mut image, &mut stores, None).expect("the target it was prepared for");
    let key = prepared.key;
    assert_eq!(key.version, backend::BACKEND_VERSION);
    assert_eq!(backend::BACKEND_VERSION, 1);
    let stated = description(image.extent());
    let against = |changed: TargetDescription| PreparedKey { list: list.identity, target: changed, version: backend::BACKEND_VERSION, generation: 0 };
    assert_eq!(key.compatible_with(&against(stated)), Ok(()));
    assert_eq!(key.compatible_with(&against(TargetDescription { extent: Extent2D { width: 64, height: 32 }, ..stated })), Err(RePrepare::Extent));
    assert_eq!(key.compatible_with(&against(TargetDescription { scale: 2.0_f32.to_bits(), ..stated })), Err(RePrepare::Scale));
    assert_eq!(key.compatible_with(&against(TargetDescription { format: 2, ..stated })), Err(RePrepare::Format));
    assert_eq!(key.compatible_with(&against(TargetDescription { color_space: 2, ..stated })), Err(RePrepare::ColorSpace));
    assert_eq!(key.compatible_with(&PreparedKey { list: list.identity + 1, ..key }), Err(RePrepare::List));
    assert_eq!(key.compatible_with(&PreparedKey { version: 2, ..key }), Err(RePrepare::Backend));
    // Against another generation of the glyph cache it is another preparation.
    let mut cache = GlyphRaster::new(1 << 20);
    cache.clear();
    let (mut pool, mut masks) = (Pool::new(), MaskPool::new());
    let later = backend::prepare(&list.commands, list.identity, stated, &[], 256, cache.generation(), &mut pool, &mut masks).unwrap();
    assert_eq!(key.compatible_with(&later.key), Err(RePrepare::GlyphCache));
}

fn ends() -> Vec<Stop> {
    vec![(0.0_f32.to_bits(), bits([1.0, 0.0, 0.0, 1.0])), (1.0_f32.to_bits(), bits([0.0, 0.0, 1.0, 1.0]))]
}

#[test]
fn every_gradient_paints_and_every_spread_mode_differs() {
    let painted = |width: u32, height: u32, shade: Shade| {
        let mut image = target(width, height);
        let mut list = List::new();
        list.fill_with(width as f32, height as f32, shade);
        draw(&list, &mut image);
        image
    };
    let image = painted(16, 4, Shade::Linear { from: (4.0, 0.0), to: (12.0, 0.0), stops: ends(), spread: Spread::Clamp });
    assert_eq!(pixel(&image, 1, 2)[0], 255, "clamped before the start is the first stop");
    assert_eq!(pixel(&image, 14, 2)[2], 255, "and after the end is the last");
    let middle = pixel(&image, 8, 2);
    assert!(middle[0] > 100 && middle[2] > 100, "the middle is a mix of both: {middle:?}");

    let spread_pixel = |spread: Spread| pixel(&painted(16, 4, Shade::Linear { from: (0.0, 0.0), to: (4.0, 0.0), stops: ends(), spread }), 5, 2);
    let clamped = spread_pixel(Spread::Clamp);
    let repeated = spread_pixel(Spread::Repeat);
    let mirrored = spread_pixel(Spread::Mirror);
    assert_eq!(clamped[2], 255, "clamp holds the last stop: {clamped:?}");
    assert!(repeated[0] > repeated[2], "repeat starts the ramp again: {repeated:?}");
    assert!(mirrored[2] > mirrored[0], "mirror runs it backwards: {mirrored:?}");

    let radial = painted(16, 16, Shade::Radial { from: ((8.0, 8.0), 0.0), to: ((8.0, 8.0), 8.0), stops: ends(), spread: Spread::Clamp });
    assert!(pixel(&radial, 8, 8)[0] > 200, "the centre: {:?}", pixel(&radial, 8, 8));
    assert!(pixel(&radial, 0, 8)[2] > 200, "the rim: {:?}", pixel(&radial, 0, 8));

    let conic = painted(16, 16, Shade::Conic { centre: (8.0, 8.0), start: 0.0, end: std::f32::consts::TAU, stops: ends(), spread: Spread::Clamp });
    let right = pixel(&conic, 14, 8);
    let below = pixel(&conic, 8, 14);
    assert!(right != below, "a conic gradient's colour depends on the angle: {right:?} against {below:?}");
    assert!(right[0] > below[0], "and it sweeps from the start angle: {right:?} against {below:?}");
}

#[test]
fn every_glyph_kind_is_drawn_and_the_cache_keys_them_apart() {
    let drawn = |kind: GlyphKind, mode: RasterisationMode| {
        let mut image = target(24, 24);
        let mut list = List::new();
        let glyphs = vec![RunGlyph { glyph: 42, x_offset: 0, y_offset: 0, x_advance: 8 * 64, y_advance: 0, kind, strike: None, palette: None }];
        list.draw_run(Run { origin: (4 * 64, 12 * 64), glyphs, face: run_face(mode) }, PixelRect::new(0, 0, 24, 24));
        draw(&list, &mut image);
        image
    };
    let outline = drawn(GlyphKind::Outline, RasterisationMode::Grayscale);
    assert_eq!(pixel(&outline, 5, 9)[3], 255, "an outline glyph is filled with the run's paint");
    assert_eq!(pixel(&outline, 5, 9)[0], 255, "in the paint's own colour");
    let grayscale = drawn(GlyphKind::GrayscaleMask, RasterisationMode::Grayscale);
    assert!(pixel(&grayscale, 4, 9)[3] > 0, "a grayscale mask composites its coverage");
    let subpixel = drawn(GlyphKind::SubpixelMask, RasterisationMode::Subpixel(SubpixelLayout::RgbHorizontal));
    assert!(pixel(&subpixel, 5, 9)[3] > 0, "a subpixel mask is composited per channel");
    let bitmap = drawn(GlyphKind::BitmapStrike, RasterisationMode::Grayscale);
    assert!(pixel(&bitmap, 5, 9)[2] > 200, "a bitmap strike brings its own colour, not the paint's: {:?}", pixel(&bitmap, 5, 9));
    let layers = drawn(GlyphKind::ColrLayers, RasterisationMode::Grayscale);
    assert!(pixel(&layers, 5, 9)[1] > 200, "a colour-layer glyph uses its palette colour: {:?}", pixel(&layers, 5, 9));

    let provider = EveryKind;
    let mut cache = GlyphRaster::new(1 << 20);
    let kind_at = |cache: &mut GlyphRaster, key: GlyphCacheKey| {
        let place = cache.get(&key, &provider);
        cache.entries[place].1.kind()
    };
    assert_eq!(kind_at(&mut cache, glyph_key(GlyphKind::Outline, RasterisationMode::Grayscale)), Some(GlyphKind::Outline));
    assert_eq!(kind_at(&mut cache, glyph_key(GlyphKind::GrayscaleMask, RasterisationMode::Grayscale)), Some(GlyphKind::GrayscaleMask));
    assert_eq!(cache.len(), 2, "two kinds are two entries");
    kind_at(&mut cache, glyph_key(GlyphKind::SubpixelMask, RasterisationMode::Subpixel(SubpixelLayout::RgbHorizontal)));
    kind_at(&mut cache, glyph_key(GlyphKind::SubpixelMask, RasterisationMode::Subpixel(SubpixelLayout::BgrVertical)));
    assert_eq!(cache.len(), 4, "one glyph rasterised for two subpixel geometries is two entries");
    let before = cache.generation();
    cache.clear();
    assert!(cache.is_empty() && cache.generation() != before);
}

/// One channel of one pixel over another, which the wide path and the plain one both are.
fn composite(into: &mut [Rgba], source: &[Rgba], from: usize, to: usize) {
    for index in from..to {
        into[index] = over(source[index], into[index]);
    }
}

#[test]
fn the_wide_span_path_agrees_with_the_scalar_reference_exactly() {
    let value = |seed: u32| {
        let part = |shift: u32| ((seed >> shift) & 0xff) as f32 / 255.0;
        let alpha = part(24);
        [part(0) * alpha, part(8) * alpha, part(16) * alpha, alpha]
    };
    for length in [0_usize, 1, 3, 4, 5, 7, 8, 9, 15, 16, 17, 64, 129] {
        let source: Vec<Rgba> = (0..length).map(|index| value((index as u32).wrapping_mul(2_654_435_761))).collect();
        let start: Vec<Rgba> = (0..length).map(|index| value((index as u32).wrapping_mul(40_503).wrapping_add(7))).collect();
        let mut wide = start.clone();
        let mut reference = start.clone();
        let parts = span::composite_span(wide.len(), source.len(), true, true);
        assert_eq!((parts.wide, parts.count), (length - length % 4, length));
        for lane in (0..parts.wide).step_by(span::LANES) {
            composite(&mut wide, &source, lane, lane + span::LANES);
        }
        composite(&mut wide, &source, parts.wide, parts.count);
        let plain = span::composite_span(reference.len(), source.len(), false, true);
        assert_eq!((plain.wide, plain.count), (0, length), "another operator takes the plain path");
        composite(&mut reference, &source, plain.wide, plain.count);
        for (index, (fast, slow)) in wide.iter().zip(reference.iter()).enumerate() {
            assert_eq!(bits(*fast), bits(*slow), "length {length}, pixel {index}: {fast:?} against {slow:?}");
        }
    }
    assert_eq!(span::LANES, 4);
}

#[test]
fn hostile_input_is_answered_rather_than_crashed_on() {
    let hostile = [0.0_f32, -0.0, 1.0, -1.0, f32::MAX, f32::MIN, f32::EPSILON, 1e30, -1e30, f32::NAN, f32::INFINITY, f32::NEG_INFINITY];
    for value in hostile {
        let path = [(value, value), (-value, value), (value, -value), (0.0, 0.0), (value, 0.0), (0.0, value), (4.0, 4.0)];
        for scale in [1.0, value, 0.0] {
            let points: Vec<Point> = path.iter().map(|p| point(p.0 * scale, p.1 * scale)).collect();
            for antialias in [true, false] {
                let mut list = List::new();
                list.antialias = antialias;
                list.fill(vec![points.clone()], RED, FillRule::EvenOdd);
                let style = Style { width: value, cap: Cap::Round, join: Join::Miter, miter_limit: value };
                // An aliased line is walked pixel by pixel, so an endless one is left to the outline.
                if antialias || value > -2.0 {
                    list.stroke(vec![Line { points: points.clone(), closed: false }], &style, None);
                }
                list.stroke(vec![Line { points: points.clone(), closed: true }], &style, None);
                let mut image = target(9, 7);
                draw(&list, &mut image);
                assert!(image.pixels.iter().flatten().all(|channel| channel.is_finite()), "{value} at {scale}");
            }
        }
    }

    // A chain of sixteen filter nodes, each reading the one before it.
    let mut graph = Graph::new();
    let mut previous = graph.push(FilterNode::Source, Param::Plain);
    for _ in 0..15 {
        previous = graph.push(FilterNode::Blur { input: previous }, Param::Blur(0.5, 0.5));
    }
    assert_eq!(graph.nodes.len(), 16);
    let mut image = target(16, 16);
    let mut list = List::new();
    list.begin_layer(1.0, Some(graph.reaching(30)));
    list.fill_rect(1.0, 1.0, 4.0, 4.0, RED);
    list.end_layer();
    draw(&list, &mut image);
    assert!(pixel(&image, 2, 2)[3] > 0);

    let mut image = target(16, 16);
    let mut list = List::new();
    for index in 0..16 {
        list.clip(vec![rect(index as f32 * 0.25, 0.0, 16.0, 16.0)], false);
    }
    list.fill_rect(0.0, 0.0, 16.0, 16.0, RED);
    for _ in 0..16 {
        list.pop_clip();
    }
    draw(&list, &mut image);
    assert!(pixel(&image, 8, 8)[3] > 0, "the drawing survives the nesting");
}

#[test]
fn an_aliased_one_pixel_line_covers_exactly_its_pixels() {
    let line = |from: (f32, f32), to: (f32, f32), width: u32, height: u32| {
        let mut image = target(width, height);
        let mut list = List::new();
        list.antialias = false;
        list.stroke(open(&[from, to]), &Style { width: 1.0, cap: Cap::Butt, join: Join::Miter, miter_limit: 4.0 }, None);
        draw(&list, &mut image);
        image
    };
    let horizontal = line((1.5, 3.5), (6.5, 3.5), 8, 8);
    for x in 1..=6 {
        assert_eq!(pixel(&horizontal, x, 3)[3], 255, "pixel {x} of the line");
    }
    assert_eq!(pixel(&horizontal, 0, 3)[3], 0, "and nothing before its start");
    assert_eq!(pixel(&horizontal, 7, 3)[3], 0, "or after its end");
    assert_eq!(pixel(&horizontal, 3, 2)[3], 0, "one row is one row");

    let diagonal = line((0.5, 0.5), (7.5, 7.5), 8, 8);
    for index in 0..8 {
        assert_eq!(pixel(&diagonal, index, index)[3], 255, "the diagonal at {index}");
    }
    for y in 0..8 {
        for x in 0..8 {
            let alpha = pixel(&diagonal, x, y)[3];
            assert!(alpha == 0 || alpha == 255, "an aliased line has no partial coverage at {x},{y}: {alpha}");
        }
    }

    let clipped = line((-20.5, 2.5), (20.5, 2.5), 8, 8);
    for x in 0..8 {
        assert_eq!(pixel(&clipped, x, 2)[3], 255, "the visible part of a line that starts off the target: {x}");
    }
}

#[test]
fn coverage_meets_the_frozen_threshold_against_the_analytic_area() {
    let (per_pixel, mean_bound) = (2.0 / 255.0, 1.0 / 255.0);
    let overlap = |low: f64, high: f64, from: f64, to: f64| (high.min(to) - low.max(from)).max(0.0);
    let mut worst = 0.0_f64;
    let mut worst_at = (0_u32, 0_u32, 0.0_f64);
    let mut total = 0.0_f64;
    let mut partial = 0_usize;
    for step in 0..9 {
        let offset = step as f64 / 8.0;
        let (x, y, width, height) = (3.0 + offset, 2.0 + offset, 5.5, 4.25);
        let mut image = target(16, 12);
        let mut list = List::new();
        list.fill_rect(x as f32, y as f32, width as f32, height as f32, [1.0; 4]);
        draw(&list, &mut image);
        for row in 0..12_u32 {
            for column in 0..16_u32 {
                let area = overlap(column as f64, column as f64 + 1.0, x, x + width) * overlap(row as f64, row as f64 + 1.0, y, y + height);
                let drawn = pixel(&image, column, row)[3] as f64 / 255.0;
                let difference = (drawn - area).abs();
                if area <= 0.0 || area >= 1.0 {
                    assert!(difference <= 0.5 / 255.0, "pixel ({column}, {row}) at offset {offset} has analytic coverage {area} and was drawn {drawn}");
                    continue;
                }
                partial += 1;
                total += difference;
                if difference > worst {
                    worst = difference;
                    worst_at = (column, row, offset);
                }
            }
        }
    }
    assert!(partial > 0, "the sweep of offsets produced partially covered pixels to compare");
    assert!(worst <= per_pixel, "the worst pixel differs by {worst} at {worst_at:?}");
    let mean = total / partial as f64;
    assert!(mean <= mean_bound, "the mean difference over {partial} partially covered pixels is {mean}");
}

#[test]
fn a_shallow_edge_carries_the_area_it_covers() {
    let mut worst = 0.0_f64;
    for step in 0..9 {
        let offset = step as f64 / 8.0;
        let mut image = target(64, 16);
        let mut list = List::new();
        let triangle = vec![point(4.0, (4.0 + offset) as f32), point(54.0, (4.0 + offset) as f32), point(54.0, (12.0 + offset) as f32)];
        list.fill(vec![triangle], [1.0; 4], FillRule::NonZero);
        draw(&list, &mut image);
        let mut ink = 0.0_f64;
        for row in 0..16 {
            for column in 0..64 {
                ink += pixel(&image, column, row)[3] as f64 / 255.0;
            }
        }
        let area = 50.0 * 8.0 / 2.0;
        let difference = (ink - area).abs();
        worst = worst.max(difference);
        assert!(difference <= 400.0 * 0.5 / 255.0, "at offset {offset} the triangle's ink is {ink} where its area is {area}");
    }
    assert!(worst < 1.0, "no offset loses a whole pixel of ink: the worst is {worst}");
}

fn gradient(width: u32, height: u32) -> Picture {
    let mut image = target(width, height);
    for y in 0..height {
        for x in 0..width {
            image.pixels[(y * width + x) as usize] = [x as f32 / 256.0, y as f32 / 256.0, 0.25, 1.0];
        }
    }
    image
}

#[test]
fn a_tile_no_command_reaches_is_left_byte_for_byte() {
    let mut image = gradient(64, 64);
    let before = image.pixels.clone();
    draw(&List::new(), &mut image);
    assert_eq!(image.pixels, before, "an empty draw list leaves every pixel of the target alone");
    let mut list = List::new();
    list.fill_rect(2.0, 2.0, 6.0, 6.0, RED);
    draw(&list, &mut image);
    assert_eq!(pixel(&image, 4, 4)[0], 255, "the corner was drawn");
    assert_eq!(image.at(60, 60), before[60 * 64 + 60], "a pixel the drawing never reaches is exactly what it was");

    let mut wide = gradient(200, 64);
    let before = wide.pixels.clone();
    let mut stores = Stores::default();
    let prepared = prepare(&list, wide.extent(), &mut stores).unwrap();
    assert_eq!(prepared.tiles(), 4);
    assert_eq!(prepared.round_trip(0), Some(PixelRect::new(2, 2, 6, 6)));
    for tile in 1..4 {
        assert_eq!(prepared.round_trip(tile), None, "tile {tile} makes no round trip");
    }
    render::<Never>(&list, &prepared, &mut wide, &mut stores, None).unwrap();
    assert_eq!(wide.pixels[64..200], before[64..200]);
}

#[test]
fn a_shape_beyond_the_clips_bounds_is_clipped_away() {
    let mut image = target(256, 256);
    let mut list = List::new();
    let corner = |cx: f32, cy: f32, from: u32| {
        (0..=8).map(move |step| {
            let angle = std::f32::consts::FRAC_PI_2 * (from as f32 + step as f32 / 8.0);
            point(cx + 12.0 * angle.cos(), cy + 12.0 * angle.sin())
        })
    };
    let rounded: Vec<Point> = corner(100.0, 68.0, 0).chain(corner(28.0, 68.0, 1)).chain(corner(28.0, 28.0, 2)).chain(corner(100.0, 28.0, 3)).collect();
    list.clip(vec![rounded], false);
    list.fill_rect(32.0, 32.0, 48.0, 24.0, RED);
    list.fill_rect(32.0, 200.0, 48.0, 24.0, RED);
    list.pop_clip();
    draw(&list, &mut image);
    assert_eq!(pixel(&image, 40, 40)[3], 255, "the shape inside the clip is drawn: {:?}", pixel(&image, 40, 40));
    assert_eq!(pixel(&image, 40, 208)[3], 0, "and the one three tile rows beyond the clip is not");
    assert_eq!(pixel(&image, 40, 120)[3], 0, "nor anything between them");
}

#[test]
fn a_tile_an_opaque_fill_covers_needs_no_backdrop_and_the_others_still_have_one() {
    let tile = TILE_SIZE;
    let side = tile as f32;
    let backdrop = [0.0, 0.0, 1.0, 1.0];
    let blue = [0x00, 0x00, 0xff, 0xff];
    let red = [0xff, 0x00, 0x00, 0xff];
    let prefilled = |width: u32, height: u32| {
        let mut image = target(width, height);
        image.pixels.fill(backdrop);
        image
    };
    let skipped = |list: &List, image: &Picture| prepare(list, image.extent(), &mut Stores::default()).expect("a preparation").tiles_without_backdrop();

    let mut image = prefilled(tile * 2, tile * 2);
    let mut list = List::new();
    list.fill_rect(0.0, 0.0, side * 2.0, side * 2.0, RED);
    assert_eq!(skipped(&list, &image), 4, "all four tiles are covered whole");
    draw(&list, &mut image);
    assert_eq!(pixel(&image, 0, 0), red, "the covering fill reaches the first tile");
    assert_eq!(pixel(&image, tile * 2 - 1, tile * 2 - 1), red, "and the last one");

    let mut image = prefilled(tile * 2, tile * 2);
    let mut list = List::new();
    list.fill_rect(0.0, 0.0, side, side, RED);
    assert_eq!(skipped(&list, &image), 1, "one tile of the four is covered whole");
    draw(&list, &mut image);
    assert_eq!(pixel(&image, tile / 2, tile / 2), red, "the covered tile is the fill");
    assert_eq!(pixel(&image, tile + tile / 2, tile / 2), blue, "and the tile beside it still holds what was under it");
    assert_eq!(pixel(&image, tile / 2, tile + tile / 2), blue, "and the one below it");
    assert_eq!(pixel(&image, tile + tile / 2, tile + tile / 2), blue, "and the one diagonally from it");

    let mut image = prefilled(tile, tile);
    let mut list = List::new();
    list.fill_rect(0.0, 0.0, side, side, [0.5, 0.0, 0.0, 0.5]);
    assert_eq!(skipped(&list, &image), 0, "a half-transparent fill covers nothing, so every tile keeps its decode");
    draw(&list, &mut image);
    let blended = pixel(&image, tile / 2, tile / 2);
    assert!(blended[0] > 0x40 && blended[2] > 0x40, "half of the fill over half of the backdrop, not either alone: {blended:?}");

    let mut image = prefilled(tile, tile);
    let mut list = List::new();
    list.clip(vec![rect(0.0, 0.0, side / 2.0, side)], false);
    list.fill_rect(0.0, 0.0, side, side, RED);
    list.pop_clip();
    assert_eq!(skipped(&list, &image), 0, "a clipped fill covers nothing this can prove, so every tile keeps its decode");
    draw(&list, &mut image);
    assert_eq!(pixel(&image, tile / 4, tile / 2), red, "inside the clip is the fill");
    assert_eq!(pixel(&image, tile - 1, tile / 2), blue, "and outside it the backdrop is still there");

    let mut image = prefilled(tile, tile);
    let mut list = List::new();
    list.begin_layer(0.5, None);
    list.fill_rect(0.0, 0.0, side, side, RED);
    list.end_layer();
    assert_eq!(skipped(&list, &image), 0, "a fill inside a layer goes to the layer, so every tile keeps its decode");
    draw(&list, &mut image);
    let layered = pixel(&image, tile / 2, tile / 2);
    assert!(layered[0] > 0x40 && layered[2] > 0x40, "a half-opaque layer over the backdrop, not the fill alone: {layered:?}");

    let mut image = prefilled(tile, tile);
    let mut list = List::new();
    let (sine, cosine) = (0.5_f32, 0.866_025_4_f32);
    let turned = [(0.0, 0.0), (side, 0.0), (side, side), (0.0, side)].iter().map(|(x, y): &(f32, f32)| point(cosine * x - sine * y, sine * x + cosine * y)).collect();
    list.fill(vec![turned], RED, FillRule::NonZero);
    assert_eq!(skipped(&list, &image), 0, "a rotated rectangle is not an axis-aligned one, so every tile keeps its decode");
    draw(&list, &mut image);
    assert_eq!(pixel(&image, tile - 1, 0), blue, "a corner the rotated rectangle does not reach still holds the backdrop");
}

#[test]
fn only_the_part_of_a_tile_that_can_change_makes_the_round_trip() {
    let tile = TILE_SIZE;
    let mut image = gradient(tile, tile);
    let before = image.pixels.clone();
    let mut list = List::new();
    list.fill_rect(20.0, 24.0, 8.0, 8.0, RED);
    draw(&list, &mut image);
    assert_eq!(pixel(&image, 20, 24), [0xff, 0x00, 0x00, 0xff], "its first pixel");
    assert_eq!(pixel(&image, 27, 31), [0xff, 0x00, 0x00, 0xff], "and its last");
    for y in 0..tile {
        for x in 0..tile {
            if (20..28).contains(&x) && (24..32).contains(&y) {
                continue;
            }
            assert_eq!(image.at(x, y), before[(y * tile + x) as usize], "the target outside the drawing is untouched at ({x}, {y})");
        }
    }
    // A layer may put pixels anywhere in the tile.
    let mut list = List::new();
    list.begin_layer(1.0, None);
    list.fill_rect(20.0, 24.0, 8.0, 8.0, RED);
    list.end_layer();
    let prepared = prepare(&list, image.extent(), &mut Stores::default()).unwrap();
    assert_eq!(prepared.round_trip(0), Some(PixelRect::new(0, 0, tile, tile)));
}

#[test]
fn a_list_that_names_what_is_not_there_is_refused_at_its_first_command() {
    let extent = Extent2D { width: 16, height: 16 };
    let refused = |commands: Vec<Command>| {
        let (mut pool, mut masks) = (Pool::new(), MaskPool::new());
        let outcome = backend::prepare(&commands, 0, description(extent), &[], 256, 7, &mut pool, &mut masks);
        assert_eq!(pool.available(), 0, "nothing is reserved for a list that is refused");
        outcome.err().unwrap()
    };
    let fill = |path: u32, shape: Flattened<Shape>| Command::FillPath { path, shape, rule: FillRule::NonZero, antialias: true, paint: Paint::Solid, alpha: 0, ink: ink(1.0) };
    let unknown = Error::UnknownResource { kind: ResourceKind::Path, index: 3 };
    assert_eq!(refused(vec![fill(3, Flattened::Unknown), fill(4, Flattened::Unknown)]), unknown);
    let overflow = Error::LimitExceeded { limit: Limit::PreparedScratch, ceiling: 9 };
    assert_eq!(refused(vec![fill(0, Flattened::Made(shape(vec![]))), fill(1, Flattened::Refused(overflow))]), overflow);
    let stroke = Command::StrokePath {
        path: 0,
        stroke: Flattened::Made(Stroked { lines: vec![], outline: shape(vec![]) }),
        width: 1.0_f32.to_bits(),
        dash: Some(Dash { pattern: 5, known: false }),
        antialias: true,
        paint: Paint::Solid,
        ink: ink(1.0),
    };
    assert_eq!(refused(vec![stroke]), Error::UnknownResource { kind: ResourceKind::Dashes, index: 5 });
    assert_eq!(refused(vec![Command::PushClip { path: 3, shape: Flattened::Unknown, rule: FillRule::NonZero, antialias: true, inverse: false }]), unknown);
}

#[test]
fn a_budget_too_small_refuses_the_list_before_a_pixel_is_drawn() {
    let mut list = List::new();
    list.fill_rect(0.0, 0.0, 8.0, 8.0, RED);
    let prepare = || prepare(&list, Extent2D { width: 16, height: 16 }, &mut Stores::default()).unwrap();
    assert_eq!(prepare().measured(1000, 1000).unwrap().scratch_bytes(), 1000);
    assert_eq!(prepare().measured(1001, 1000).err(), Some(Error::LimitExceeded { limit: Limit::PreparedScratch, ceiling: 1000 }));
}

#[test]
fn a_replay_short_of_surfaces_is_refused_and_gives_everything_back() {
    let mut list = List::new();
    list.begin_layer(1.0, None);
    list.end_layer();
    let mut stores = Stores::default();
    let prepared = prepare(&list, Extent2D { width: 16, height: 16 }, &mut stores).unwrap();
    let tile = PixelRect::new(0, 0, 16, 16);
    let empty = Pool::new();
    let mut replay = Replay::begin(tile, Surface::new(tile), empty, MaskPool::new());
    let refusal = replay.perform(&prepared.steps[0], &Answer::Nothing, &[], 0, 77).err();
    assert_eq!(refusal, Some(Error::LimitExceeded { limit: Limit::PreparedScratch, ceiling: 77 }));

    let (pool, masks) = stores.pools.take().unwrap();
    let reserved = pool.available();
    let mut replay = Replay::begin(tile, Surface::new(tile), pool, masks);
    replay.perform(&prepared.steps[0], &Answer::Nothing, &[], 0, 77).unwrap();
    let (_, pool, _) = replay.finish();
    assert_eq!(pool.available(), reserved, "an open layer's surface goes back");
}
