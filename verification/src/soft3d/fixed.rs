//! The fixed-point raster grid, and the proof that its arithmetic cannot overflow.
//!
//! Two triangles that share an edge must cover every sample along it exactly once. The edge function
//! is an integer, so the two evaluations of a shared edge are the same number with opposite sign,
//! and the top-left rule decides the tie.
use crate::bits::{between, finite, is_finite, negative, number, round_away, rounded_away, rounding_is_by_number};
use vstd::arithmetic::power2::{lemma2_to64, pow2};
use vstd::prelude::*;

verus! {

/// Fractional bits in a raster coordinate.
pub const SUBPIXEL_BITS: u32 = 8;

/// One pixel, in subpixel units.
pub const SUBPIXEL_ONE: i64 = 256;

/// Half a pixel, which is where a sample sits at 1x.
pub const SUBPIXEL_HALF: i64 = 128;

/// The largest raster target admitted, in pixels, on either axis.
pub const MAX_RASTER_EXTENT: u32 = 16_384;

/// The largest legal coordinate in subpixel units, inclusive.
pub const MAX_SUBPIXEL_COORD: i64 = 4_194_304;

/// Why a coordinate was refused.
#[derive(Clone, Copy, PartialEq, Eq, Structural, Debug)]
pub enum FixedFault {
    /// A coordinate outside `0 ..= MAX_SUBPIXEL_COORD`.
    OutOfRange { subpixel: i64 },
    /// A non-finite coordinate, which has no fixed-point representation at all.
    NotFinite,
}

/// A viewport coordinate in subpixel units.
#[derive(Clone, Copy, PartialEq, Eq, PartialOrd, Ord, Structural, Debug)]
pub struct Subpixel(pub i64);

/// A point of the raster grid, as mathematical integers.
pub open spec fn point(p: (Subpixel, Subpixel)) -> (int, int) {
    (p.0.0 as int, p.1.0 as int)
}

/// Whether a coordinate lies on the raster grid.
pub open spec fn on_grid(c: int) -> bool {
    0 <= c <= MAX_SUBPIXEL_COORD
}

/// Whether both coordinates of a point lie on the raster grid.
pub open spec fn point_on_grid(p: (Subpixel, Subpixel)) -> bool {
    on_grid(p.0.0 as int) && on_grid(p.1.0 as int)
}

/// Whether a mathematical integer is an `i64`.
pub open spec fn fits(v: int) -> bool {
    i64::MIN <= v <= i64::MAX
}

impl Subpixel {
    /// The whole pixel this coordinate is in, rounding towards negative infinity.
    pub fn pixel(self) -> (whole: i64)
        ensures
            whole == self.0 as int / SUBPIXEL_ONE as int,
    {
        let value: i64 = self.0;
        let whole: i64 = value >> SUBPIXEL_BITS;
        assert((value >> 8u32) * 256 <= value && value < (value >> 8u32) * 256 + 256) by (bit_vector);
        whole
    }
}

/// Quantise a viewport coordinate, a binary32 value by its bits: to the nearest subpixel, halves away from
/// zero. A coordinate off the grid is refused rather than saturated.
pub fn quantise(value: u32) -> (admitted: Result<Subpixel, FixedFault>)
    ensures
        admitted == quantised(value),
{
    if !is_finite(value) {
        return Err(FixedFault::NotFinite);
    }
    admit_coordinate(round_away(value, SUBPIXEL_BITS))
}

/// What `quantise` answers: a value on the grid is admitted, anything else is refused by name.
pub open spec fn quantised(value: u32) -> Result<Subpixel, FixedFault> {
    if !finite(value) {
        Err(FixedFault::NotFinite)
    } else {
        let subpixel = between(
            i64::MIN as int,
            rounded_away(value, SUBPIXEL_BITS as int),
            i64::MAX as int,
        );
        if on_grid(subpixel) {
            Ok(Subpixel(subpixel as i64))
        } else {
            Err(FixedFault::OutOfRange { subpixel: subpixel as i64 })
        }
    }
}

/// Admit a subpixel coordinate, refusing one outside the grid rather than saturating it.
pub fn admit_coordinate(subpixel: i64) -> (admitted: Result<Subpixel, FixedFault>)
    ensures
        on_grid(subpixel as int) ==> admitted == Ok::<Subpixel, FixedFault>(Subpixel(subpixel)),
        !on_grid(subpixel as int) ==> admitted == Err::<Subpixel, FixedFault>(
            FixedFault::OutOfRange { subpixel },
        ),
{
    if subpixel < 0 || subpixel > MAX_SUBPIXEL_COORD {
        return Err(FixedFault::OutOfRange { subpixel });
    }
    Ok(Subpixel(subpixel))
}

/// The edge function of the directed edge `from -> to` at `at`, over the integers.
pub open spec fn edge_value(from: (int, int), to: (int, int), at: (int, int)) -> int {
    (at.0 - from.0) * (to.1 - from.1) - (at.1 - from.1) * (to.0 - from.0)
}

/// Whether every intermediate of the edge function is an `i64`.
pub open spec fn edge_fits(from: (int, int), to: (int, int), at: (int, int)) -> bool {
    &&& fits(at.0 - from.0)
    &&& fits(to.1 - from.1)
    &&& fits(at.1 - from.1)
    &&& fits(to.0 - from.0)
    &&& fits((at.0 - from.0) * (to.1 - from.1))
    &&& fits((at.1 - from.1) * (to.0 - from.0))
    &&& fits(edge_value(from, to, at))
}

/// The edge function of the directed edge `from -> to`, evaluated at `at`. Positive is to the right
/// of the edge where `y` grows downward.
pub fn edge(from: (Subpixel, Subpixel), to: (Subpixel, Subpixel), at: (Subpixel, Subpixel)) -> (value:
    i64)
    requires
        edge_fits(point(from), point(to), point(at)),
    ensures
        value == edge_value(point(from), point(to), point(at)),
{
    let (x0, y0): (i64, i64) = (from.0.0, from.1.0);
    let (x1, y1): (i64, i64) = (to.0.0, to.1.0);
    let (x, y): (i64, i64) = (at.0.0, at.1.0);
    (x - x0) * (y1 - y0) - (y - y0) * (x1 - x0)
}

/// The top-left rule over the integers: a top edge is horizontal and goes right to left, a left edge
/// goes downward.
pub open spec fn top_or_left(from: (int, int), to: (int, int)) -> bool {
    if from.1 == to.1 {
        to.0 < from.0
    } else {
        to.1 > from.1
    }
}

/// Whether an edge is a top or a left edge.
pub fn is_top_or_left(from: (Subpixel, Subpixel), to: (Subpixel, Subpixel)) -> (top: bool)
    ensures
        top == top_or_left(point(from), point(to)),
{
    let (x0, y0): (i64, i64) = (from.0.0, from.1.0);
    let (x1, y1): (i64, i64) = (to.0.0, to.1.0);
    let horizontal = y0 == y1;
    if horizontal {
        x1 < x0
    } else {
        y1 > y0
    }
}

/// Whether an edge value covers a sample: strictly inside, or exactly on a top or left edge.
pub open spec fn covers(value: int, top: bool) -> bool {
    value > 0 || value == 0 && top
}

/// Whether a sample is covered by an edge, applying the fill rule to the tie.
pub fn covered_by(value: i64, top_or_left: bool) -> (covered: bool)
    ensures
        covered == covers(value as int, top_or_left),
{
    if value > 0 {
        true
    } else if value < 0 {
        false
    } else {
        top_or_left
    }
}

/// Twice the signed area of a triangle in subpixel units. Zero means degenerate.
pub fn double_area(a: (Subpixel, Subpixel), b: (Subpixel, Subpixel), c: (Subpixel, Subpixel)) -> (area:
    i64)
    requires
        edge_fits(point(a), point(b), point(c)),
    ensures
        area == edge_value(point(a), point(b), point(c)),
{
    edge(a, b, c)
}

/// Whether a directed edge covers a sample.
pub open spec fn edge_covers(from: (int, int), to: (int, int), at: (int, int)) -> bool {
    covers(edge_value(from, to, at), top_or_left(from, to))
}

/// Whether a wound triangle covers a sample: all three of its edges do.
pub open spec fn triangle_covers(a: (int, int), b: (int, int), c: (int, int), at: (int, int)) -> bool {
    edge_covers(a, b, at) && edge_covers(b, c, at) && edge_covers(c, a, at)
}

/// On the grid an edge function never leaves `-2^45 ..= 2^45`, so no intermediate of it overflows.
pub proof fn edge_is_bounded(from: (int, int), to: (int, int), at: (int, int))
    requires
        on_grid(from.0) && on_grid(from.1),
        on_grid(to.0) && on_grid(to.1),
        on_grid(at.0) && on_grid(at.1),
    ensures
        -0x2000_0000_0000 <= edge_value(from, to, at) <= 0x2000_0000_0000,
        edge_fits(from, to, at),
{
    let (p, q, r, s) = (at.0 - from.0, to.1 - from.1, at.1 - from.1, to.0 - from.0);
    product_is_bounded(p, q);
    product_is_bounded(r, s);
}

proof fn product_is_bounded(a: int, b: int)
    requires
        -0x40_0000 <= a <= 0x40_0000,
        -0x40_0000 <= b <= 0x40_0000,
    ensures
        -0x1000_0000_0000 <= a * b <= 0x1000_0000_0000,
{
    assert(-0x1000_0000_0000 <= a * b <= 0x1000_0000_0000) by (nonlinear_arith)
        requires
            -0x40_0000 <= a <= 0x40_0000,
            -0x40_0000 <= b <= 0x40_0000,
    ;
}

/// Reversing an edge negates its edge function everywhere.
pub proof fn edge_is_antisymmetric(a: (int, int), b: (int, int), at: (int, int))
    ensures
        edge_value(a, b, at) == -edge_value(b, a, at),
{
    let (ax, ay, bx, by, x, y) = (a.0, a.1, b.0, b.1, at.0, at.1);
    assert((x - ax) * (by - ay) - (y - ay) * (bx - ax) == -((x - bx) * (ay - by) - (y - by) * (ax
        - bx))) by (nonlinear_arith);
}

/// Of the two directions of an edge between distinct points exactly one is a top or a left edge.
pub proof fn top_or_left_is_one_sided(a: (int, int), b: (int, int))
    requires
        a != b,
    ensures
        top_or_left(a, b) != top_or_left(b, a),
{
}

/// A sample is covered by exactly one of the two directions of an edge, so it belongs to exactly one
/// of the two triangles that share the edge.
pub proof fn a_shared_edge_covers_once(a: (int, int), b: (int, int), at: (int, int))
    requires
        a != b,
    ensures
        edge_covers(a, b, at) != edge_covers(b, a, at),
{
    edge_is_antisymmetric(a, b, at);
}

/// No sample is covered by both of two triangles on the two sides of a shared edge.
pub proof fn neighbours_are_disjoint(a: (int, int), b: (int, int), c: (int, int), d: (int, int), at: (
    int,
    int,
))
    requires
        a != b,
    ensures
        !(triangle_covers(a, b, c, at) && triangle_covers(b, a, d, at)),
{
    a_shared_edge_covers_once(a, b, at);
}

/// Splitting a quad along a diagonal loses no sample and counts none twice: a sample inside all four
/// sides is covered by exactly one of the two triangles.
pub proof fn a_split_quad_covers_once(a: (int, int), b: (int, int), c: (int, int), d: (int, int), at: (
    int,
    int,
))
    requires
        a != c,
        edge_covers(a, b, at),
        edge_covers(b, c, at),
        edge_covers(c, d, at),
        edge_covers(d, a, at),
    ensures
        triangle_covers(a, b, c, at) != triangle_covers(c, d, a, at),
{
    a_shared_edge_covers_once(a, c, at);
}

/// The cross product of two points taken as vectors.
spec fn cross(p: (int, int), q: (int, int)) -> int {
    p.0 * q.1 - p.1 * q.0
}

proof fn cross_is_antisymmetric(p: (int, int), q: (int, int))
    ensures
        cross(p, q) == -cross(q, p),
{
    let (px, py, qx, qy) = (p.0, p.1, q.0, q.1);
    assert(px * qy - py * qx == -(qx * py - qy * px)) by (nonlinear_arith);
}

proof fn edge_is_crosses(a: (int, int), b: (int, int), at: (int, int))
    ensures
        edge_value(a, b, at) == cross(at, b) + cross(a, at) + cross(b, a),
{
    let (ax, ay, bx, by, x, y) = (a.0, a.1, b.0, b.1, at.0, at.1);
    assert((x - ax) * (by - ay) == x * by - x * ay - ax * by + ax * ay) by (nonlinear_arith);
    assert((y - ay) * (bx - ax) == y * bx - y * ax - ay * bx + ay * ax) by (nonlinear_arith);
    assert(ax * ay == ay * ax) by (nonlinear_arith);
    assert(ax * by == by * ax) by (nonlinear_arith);
    assert(ay * bx == bx * ay) by (nonlinear_arith);
    assert(x * ay == ay * x) by (nonlinear_arith);
    assert(y * ax == ax * y) by (nonlinear_arith);
}

/// The three edge functions of a triangle sum to twice its signed area at every sample.
pub proof fn edges_sum_to_the_area(a: (int, int), b: (int, int), c: (int, int), at: (int, int))
    ensures
        edge_value(a, b, at) + edge_value(b, c, at) + edge_value(c, a, at) == edge_value(a, b, c),
{
    edge_is_crosses(a, b, at);
    edge_is_crosses(b, c, at);
    edge_is_crosses(c, a, at);
    edge_is_crosses(a, b, c);
    cross_is_antisymmetric(at, a);
    cross_is_antisymmetric(at, b);
    cross_is_antisymmetric(at, c);
}

/// A triangle of no area covers no sample: the fill rule cannot rescue it.
pub proof fn a_degenerate_triangle_covers_nothing(
    a: (int, int),
    b: (int, int),
    c: (int, int),
    at: (int, int),
)
    requires
        edge_value(a, b, c) == 0,
    ensures
        !triangle_covers(a, b, c, at),
{
    edges_sum_to_the_area(a, b, c, at);
}

/// An edge function by the two vertices as seen from the sample.
proof fn edge_from_the_sample(b: (int, int), c: (int, int), at: (int, int))
    ensures
        edge_value(b, c, at) == (b.1 - at.1) * (c.0 - at.0) - (b.0 - at.0) * (c.1 - at.1),
{
    let (vx, vy, wx, wy) = (b.0 - at.0, b.1 - at.1, c.0 - at.0, c.1 - at.1);
    assert((-vx) * (wy - vy) - (-vy) * (wx - vx) == vy * wx - vx * wy) by (nonlinear_arith);
}

proof fn weighted_offsets_cancel(ux: int, uy: int, vx: int, vy: int, wx: int, wy: int)
    ensures
        (vy * wx - vx * wy) * ux + (wy * ux - wx * uy) * vx + (uy * vx - ux * vy) * wx == 0,
        (vy * wx - vx * wy) * uy + (wy * ux - wx * uy) * vy + (uy * vx - ux * vy) * wy == 0,
{
    assert((vy * wx - vx * wy) * ux == vy * wx * ux - vx * wy * ux) by (nonlinear_arith);
    assert((wy * ux - wx * uy) * vx == vx * wy * ux - uy * vx * wx) by (nonlinear_arith);
    assert((uy * vx - ux * vy) * wx == uy * vx * wx - vy * wx * ux) by (nonlinear_arith);
    assert((vy * wx - vx * wy) * uy == vy * wx * uy - vx * wy * uy) by (nonlinear_arith);
    assert((wy * ux - wx * uy) * vy == wy * ux * vy - vy * wx * uy) by (nonlinear_arith);
    assert((uy * vx - ux * vy) * wy == vx * wy * uy - wy * ux * vy) by (nonlinear_arith);
}

/// A sample is the average of the vertices, each weighted by the edge function opposite it: the
/// weighted offsets from the sample to the vertices cancel.
pub proof fn edges_weigh_the_vertices(a: (int, int), b: (int, int), c: (int, int), at: (int, int))
    ensures
        edge_value(b, c, at) * (a.0 - at.0) + edge_value(c, a, at) * (b.0 - at.0) + edge_value(
            a,
            b,
            at,
        ) * (c.0 - at.0) == 0,
        edge_value(b, c, at) * (a.1 - at.1) + edge_value(c, a, at) * (b.1 - at.1) + edge_value(
            a,
            b,
            at,
        ) * (c.1 - at.1) == 0,
{
    edge_from_the_sample(b, c, at);
    edge_from_the_sample(c, a, at);
    edge_from_the_sample(a, b, at);
    weighted_offsets_cancel(
        a.0 - at.0,
        a.1 - at.1,
        b.0 - at.0,
        b.1 - at.1,
        c.0 - at.0,
        c.1 - at.1,
    );
}

/// The smallest of three integers.
pub open spec fn min3(a: int, b: int, c: int) -> int {
    if a <= b && a <= c {
        a
    } else if b <= c {
        b
    } else {
        c
    }
}

/// The largest of three integers.
pub open spec fn max3(a: int, b: int, c: int) -> int {
    if a >= b && a >= c {
        a
    } else if b >= c {
        b
    } else {
        c
    }
}

/// A covered sample lies within the extent of the triangle's vertices on both axes.
pub proof fn a_covered_sample_is_within_the_vertices(
    a: (int, int),
    b: (int, int),
    c: (int, int),
    at: (int, int),
)
    requires
        triangle_covers(a, b, c, at),
    ensures
        min3(a.0, b.0, c.0) <= at.0 <= max3(a.0, b.0, c.0),
        min3(a.1, b.1, c.1) <= at.1 <= max3(a.1, b.1, c.1),
{
    if edge_value(a, b, c) == 0 {
        a_degenerate_triangle_covers_nothing(a, b, c, at);
    }
    edges_sum_to_the_area(a, b, c, at);
    edges_weigh_the_vertices(a, b, c, at);
    let (p, q, r) = (edge_value(b, c, at), edge_value(c, a, at), edge_value(a, b, at));
    weights_leave_no_side(p, q, r, a.0 - at.0, b.0 - at.0, c.0 - at.0);
    weights_leave_no_side(p, q, r, a.1 - at.1, b.1 - at.1, c.1 - at.1);
}

/// Offsets that cancel under weights that are not all zero are not all on one side.
proof fn weights_leave_no_side(p: int, q: int, r: int, u: int, v: int, w: int)
    requires
        p >= 0,
        q >= 0,
        r >= 0,
        p + q + r > 0,
        p * u + q * v + r * w == 0,
    ensures
        u <= 0 || v <= 0 || w <= 0,
        u >= 0 || v >= 0 || w >= 0,
{
    if u > 0 && v > 0 && w > 0 {
        assert(p * u >= p && q * v >= q && r * w >= r) by (nonlinear_arith)
            requires
                p >= 0,
                q >= 0,
                r >= 0,
                u > 0,
                v > 0,
                w > 0,
        ;
    }
    if u < 0 && v < 0 && w < 0 {
        assert(p * u <= -p && q * v <= -q && r * w <= -r) by (nonlinear_arith)
            requires
                p >= 0,
                q >= 0,
                r >= 0,
                u < 0,
                v < 0,
                w < 0,
        ;
    }
}

/// A quantised coordinate is the subpixel nearest to the value, the one further from nothing where two are as near; a
/// value whose nearest subpixel is off the grid is refused, and so is one that is no number.
pub proof fn a_quantised_coordinate_is_the_nearest(value: u32)
    ensures
        match quantised(value) {
            Ok(admitted) => {
                let error = 2 * (number(value) * 256 - admitted.0 * pow2(149));
                &&& finite(value)
                &&& 0 <= admitted.0 <= 16_384 * 256
                &&& -pow2(149) <= error <= pow2(149)
                &&& !negative(value) ==> error < pow2(149)
            },
            Err(FixedFault::NotFinite) => !finite(value),
            Err(FixedFault::OutOfRange { subpixel }) => finite(value) && !(0 <= subpixel <= 16_384 * 256),
        },
{
    if finite(value) {
        rounding_is_by_number(value, 8);
        lemma2_to64();
        assert(pow2(8) == 256);
    }
}

/// The tie of a sample on an edge goes by what lies beside it: it is covered exactly where the inside is straight to its
/// right, or, where the edge is level, straight below it. Off the edge it is covered on the inside alone.
pub proof fn a_tie_goes_to_the_left_and_the_top(from: (int, int), to: (int, int), at: (int, int))
    requires
        from != to,
    ensures
        ({
            let here = (at.0 - from.0) * (to.1 - from.1) - (at.1 - from.1) * (to.0 - from.0);
            let right = (at.0 + 1 - from.0) * (to.1 - from.1) - (at.1 - from.1) * (to.0 - from.0);
            let under = (at.0 - from.0) * (to.1 - from.1) - (at.1 + 1 - from.1) * (to.0 - from.0);
            edge_covers(from, to, at) <==> here > 0 || here == 0 && (right > 0 || right == 0 && under > 0)
        }),
{
    let (u, v, p, q) = (at.0 - from.0, at.1 - from.1, to.0 - from.0, to.1 - from.1);
    assert((u + 1) * q == u * q + q) by (nonlinear_arith);
    assert((v + 1) * p == v * p + p) by (nonlinear_arith);
}

/// Whether a point is strictly inside a triangle: it is a mixture of the three corners with all three weights above
/// nothing.
pub open spec fn mixes(a: (int, int), b: (int, int), c: (int, int), at: (int, int), u: int, v: int, w: int) -> bool {
    &&& u > 0 && v > 0 && w > 0
    &&& (u + v + w) * at.0 == u * a.0 + v * b.0 + w * c.0
    &&& (u + v + w) * at.1 == u * a.1 + v * b.1 + w * c.1
}

/// Everything strictly inside a triangle wound to a positive area is covered.
pub proof fn the_inside_is_covered(
    a: (int, int),
    b: (int, int),
    c: (int, int),
    at: (int, int),
    u: int,
    v: int,
    w: int,
)
    requires
        mixes(a, b, c, at, u, v, w),
        (c.0 - a.0) * (b.1 - a.1) - (c.1 - a.1) * (b.0 - a.0) > 0,
    ensures
        triangle_covers(a, b, c, at),
{
    a_mixture_is_inside_an_edge(a, b, c, at, u, v, w);
    swap_of_corners(a, b, c);
    a_mixture_is_inside_an_edge(b, c, a, at, v, w, u);
    swap_of_corners(b, c, a);
    a_mixture_is_inside_an_edge(c, a, b, at, w, u, v);
}

proof fn swap_of_corners(a: (int, int), b: (int, int), c: (int, int))
    ensures
        edge_value(b, c, a) == edge_value(a, b, c),
{
    let (p, q, r, s) = (b.0 - a.0, b.1 - a.1, c.0 - a.0, c.1 - a.1);
    assert((-p) * (s - q) - (-q) * (r - p) == r * q - s * p) by (nonlinear_arith);
}

proof fn a_mixture_is_inside_an_edge(
    a: (int, int),
    b: (int, int),
    c: (int, int),
    at: (int, int),
    u: int,
    v: int,
    w: int,
)
    requires
        mixes(a, b, c, at, u, v, w),
        edge_value(a, b, c) > 0,
    ensures
        edge_value(a, b, at) > 0,
{
    let total = u + v + w;
    let (p, q, r, s) = (b.0 - a.0, b.1 - a.1, c.0 - a.0, c.1 - a.1);
    let (x, y) = (at.0 - a.0, at.1 - a.1);
    assert(total * x == v * p + w * r) by (nonlinear_arith)
        requires
            total * at.0 == u * a.0 + v * b.0 + w * c.0,
            total == u + v + w,
            x == at.0 - a.0,
            p == b.0 - a.0,
            r == c.0 - a.0,
    ;
    assert(total * y == v * q + w * s) by (nonlinear_arith)
        requires
            total * at.1 == u * a.1 + v * b.1 + w * c.1,
            total == u + v + w,
            y == at.1 - a.1,
            q == b.1 - a.1,
            s == c.1 - a.1,
    ;
    let here = x * q - y * p;
    let whole = r * q - s * p;
    assert(total * here == (total * x) * q - (total * y) * p) by (nonlinear_arith)
        requires
            here == x * q - y * p,
    ;
    assert((v * p + w * r) * q - (v * q + w * s) * p == w * whole) by (nonlinear_arith)
        requires
            whole == r * q - s * p,
    ;
    assert(w * whole > 0) by (nonlinear_arith)
        requires
            w > 0,
            whole > 0,
    ;
    assert(here > 0) by (nonlinear_arith)
        requires
            total * here > 0,
            total > 0,
    ;
}

} // verus!
