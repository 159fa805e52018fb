//! Triangle setup, binning and coverage.
//!
//! A back-facing triangle is rewound rather than given its own path, a sub-pixel triangle is not
//! skipped, and a degenerate one is skipped on every machine alike.
use super::error::Error;
use super::fixed::{
    covered_by, double_area, edge, is_top_or_left, quantise, FixedFault, Subpixel, SUBPIXEL_ONE,
};
use super::fixed::{
    a_covered_sample_is_within_the_vertices, edge_fits,
    edge_is_bounded, edge_value, edges_sum_to_the_area, fits, max3, min3, point, point_on_grid,
    quantised, top_or_left, triangle_covers,
};
use crate::bits;
use crate::grid::{cell, cell_is_stored, cells_are_apart};
use vstd::prelude::*;

verus! {

/// A tile's side, in pixels.
pub const TILE: u32 = 32;

/// How a primitive faces the camera, from the signed area in window space.
#[derive(Clone, Copy, PartialEq, Eq, Structural, Debug)]
pub enum Facing {
    Front,
    Back,
}

/// Which faces a pipeline removes.
#[derive(Clone, Copy, PartialEq, Eq, Structural, Debug)]
pub enum Cull {
    Nothing,
    Front,
    Back,
}

/// An integer rectangle of pixels, half-open on the high side.
#[derive(Clone, Copy, PartialEq, Eq, Structural, Debug)]
pub struct PixelBox {
    pub x0: i64,
    pub y0: i64,
    pub x1: i64,
    pub y1: i64,
}

impl PixelBox {
    /// Whether a pixel is in this rectangle.
    pub open spec fn has(self, x: int, y: int) -> bool {
        self.x0 <= x < self.x1 && self.y0 <= y < self.y1
    }

    /// Whether the rectangle holds no pixel.
    pub open spec fn empty(self) -> bool {
        self.x1 <= self.x0 || self.y1 <= self.y0
    }

    /// Whether the rectangle holds no pixel.
    pub fn is_empty(&self) -> (empty: bool)
        ensures
            empty == self.empty(),
            empty <==> forall|x: int, y: int| !(#[trigger] self.has(x, y)),
    {
        proof {
            if !self.empty() {
                assert(self.has(self.x0 as int, self.y0 as int));
            }
        }
        self.x1 <= self.x0 || self.y1 <= self.y0
    }

    /// This rectangle held to a target of `width` by `height` pixels.
    pub open spec fn clamp(self, width: u32, height: u32) -> PixelBox {
        PixelBox {
            x0: if self.x0 > 0 {
                self.x0
            } else {
                0
            },
            y0: if self.y0 > 0 {
                self.y0
            } else {
                0
            },
            x1: if self.x1 < width {
                self.x1
            } else {
                width as i64
            },
            y1: if self.y1 < height {
                self.y1
            } else {
                height as i64
            },
        }
    }

    /// This rectangle held to a target: exactly the pixels that are in both.
    pub fn clamped(&self, width: u32, height: u32) -> (held: PixelBox)
        ensures
            held == self.clamp(width, height),
            forall|x: int, y: int|
                #[trigger] held.has(x, y) <==> self.has(x, y) && 0 <= x < width && 0 <= y < height,
    {
        let x0: i64 = if self.x0 > 0 {
            self.x0
        } else {
            0
        };
        let y0: i64 = if self.y0 > 0 {
            self.y0
        } else {
            0
        };
        let x1: i64 = if self.x1 < width as i64 {
            self.x1
        } else {
            width as i64
        };
        let y1: i64 = if self.y1 < height as i64 {
            self.y1
        } else {
            height as i64
        };
        PixelBox { x0, y0, x1, y1 }
    }
}

/// A triangle ready to be sampled.
#[derive(Clone, Copy, Debug)]
pub struct Setup {
    /// The window-space vertices in subpixel units, rewound so the area is positive.
    pub vertex: [(Subpixel, Subpixel); 3],
    /// Which source vertex each rewound one came from.
    pub source: [usize; 3],
    /// Twice the signed area, always positive.
    pub double_area: i64,
    /// Whether each edge is a top or a left one.
    pub top_or_left: [bool; 3],
    /// `1/w` per rewound vertex, as a bit pattern.
    pub inverse_w: [u32; 3],
    /// Window-space depth per rewound vertex, as a bit pattern.
    pub depth: [u32; 3],
    pub bounds: PixelBox,
    pub facing: Facing,
}

/// Why a triangle could not be set up.
#[derive(Clone, Copy, PartialEq, Eq, Structural, Debug)]
pub enum RasterFault {
    Coordinate(FixedFault),
}

impl RasterFault {
    /// A coordinate the rasteriser cannot take is a transform problem: the vertices were legal and the
    /// matrix put them where the raster grid does not reach.
    pub fn refusal(self) -> (error: super::error::Error)
        ensures
            error == super::error::Error::InvalidTransform,
    {
        super::error::Error::InvalidTransform
    }
}

impl Setup {
    /// A rewound vertex.
    pub open spec fn corner(self, i: int) -> (int, int) {
        point(self.vertex@[i])
    }

    /// Whether this triangle covers a sample.
    pub open spec fn covers(self, at: (int, int)) -> bool {
        triangle_covers(self.corner(0), self.corner(1), self.corner(2), at)
    }

    /// Whether a sample's three edge functions fit.
    pub open spec fn samples_at(self, at: (int, int)) -> bool {
        &&& edge_fits(self.corner(0), self.corner(1), at)
        &&& edge_fits(self.corner(1), self.corner(2), at)
        &&& edge_fits(self.corner(2), self.corner(0), at)
    }

    /// What setup establishes: the vertices are on the grid and wound to a positive area, and the fill
    /// rule of each edge is recorded.
    pub open spec fn wf(self) -> bool {
        &&& point_on_grid(self.vertex@[0])
        &&& point_on_grid(self.vertex@[1])
        &&& point_on_grid(self.vertex@[2])
        &&& self.double_area == edge_value(self.corner(0), self.corner(1), self.corner(2))
        &&& self.double_area > 0
        &&& self.top_or_left@[0] == top_or_left(self.corner(0), self.corner(1))
        &&& self.top_or_left@[1] == top_or_left(self.corner(1), self.corner(2))
        &&& self.top_or_left@[2] == top_or_left(self.corner(2), self.corner(0))
    }
}

/// The first coordinate of a triangle that is refused, x before y and vertex by vertex.
pub open spec fn window_fault(window: Seq<(u32, u32)>) -> Option<FixedFault> {
    if let Err(fault) = quantised(window[0].0) {
        Some(fault)
    } else if let Err(fault) = quantised(window[0].1) {
        Some(fault)
    } else if let Err(fault) = quantised(window[1].0) {
        Some(fault)
    } else if let Err(fault) = quantised(window[1].1) {
        Some(fault)
    } else if let Err(fault) = quantised(window[2].0) {
        Some(fault)
    } else if let Err(fault) = quantised(window[2].1) {
        Some(fault)
    } else {
        None
    }
}

/// A window position as a point of the grid.
pub open spec fn window_point(at: (u32, u32)) -> (int, int) {
    point(grid_point(at))
}

/// Twice the signed area of a triangle as it was submitted.
pub open spec fn submitted_area(window: Seq<(u32, u32)>) -> int {
    edge_value(window_point(window[0]), window_point(window[1]), window_point(window[2]))
}

/// Which submitted vertex each rewound vertex is: a negative area swaps the last two.
pub open spec fn rewound(area: int) -> Seq<usize> {
    if area < 0 {
        seq![0usize, 2usize, 1usize]
    } else {
        seq![0usize, 1usize, 2usize]
    }
}

fn quantised_point(at: (u32, u32)) -> (admitted: Result<
    (Subpixel, Subpixel),
    FixedFault,
>)
    ensures
        match admitted {
            Ok(p) => quantised(at.0) == Ok::<Subpixel, FixedFault>(p.0) && quantised(at.1) == Ok::<
                Subpixel,
                FixedFault,
            >(p.1) && point_on_grid(p) && point(p) == window_point(at),
            Err(fault) => quantised(at.0) == Err::<Subpixel, FixedFault>(fault) || quantised(at.0) is Ok
                && quantised(at.1) == Err::<Subpixel, FixedFault>(fault),
        },
{
    match quantise(at.0) {
        Err(fault) => Err(fault),
        Ok(x) => match quantise(at.1) {
            Err(fault) => Err(fault),
            Ok(y) => Ok((x, y)),
        },
    }
}

/// A vertex of the grid from a window position that is on it.
pub open spec fn grid_point(at: (u32, u32)) -> (Subpixel, Subpixel) {
    (quantised(at.0)->Ok_0, quantised(at.1)->Ok_0)
}

/// What setting up a triangle of positive or negative area gives.
pub open spec fn built(
    window: Seq<(u32, u32)>,
    inverse_w: Seq<u32>,
    depth: Seq<u32>,
    width: u32,
    height: u32,
) -> Setup {
    let area = submitted_area(window);
    let source: [usize; 3] = if area < 0 {
        [0, 2, 1]
    } else {
        [0, 1, 2]
    };
    let (i, j, k) = if area < 0 {
        (0int, 2int, 1int)
    } else {
        (0int, 1int, 2int)
    };
    let (a, b, c) = (grid_point(window[i]), grid_point(window[j]), grid_point(window[k]));
    let vertex = [a, b, c];
    Setup {
        vertex,
        source,
        double_area: (if area < 0 {
            -area
        } else {
            area
        }) as i64,
        top_or_left: [
            top_or_left(point(a), point(b)),
            top_or_left(point(b), point(c)),
            top_or_left(point(c), point(a)),
        ],
        inverse_w: [inverse_w[i], inverse_w[j], inverse_w[k]],
        depth: [depth[i], depth[j], depth[k]],
        bounds: extent_box(vertex@).clamp(width, height),
        facing: if area > 0 {
            Facing::Front
        } else {
            Facing::Back
        },
    }
}

/// Set up a triangle from its window-space positions, binary32 values by their bits; `inverse_w` and `depth`
/// ride along with the vertices they belong to. `Ok(None)` means degenerate and is not an error.
pub fn setup(
    window: [(u32, u32); 3],
    inverse_w: [u32; 3],
    depth: [u32; 3],
    width: u32,
    height: u32,
) -> (made: Result<Option<Setup>, RasterFault>)
    ensures
        match window_fault(window@) {
            Some(fault) => made == Err::<Option<Setup>, RasterFault>(RasterFault::Coordinate(fault)),
            None => made is Ok && {
                let area = submitted_area(window@);
                &&& made->Ok_0 is None <==> area == 0
                &&& made->Ok_0 matches Some(s) ==> {
                    &&& s.wf()
                    &&& s.source@ == rewound(area)
                    &&& forall|i: int|
                        0 <= i < 3 ==> (#[trigger] s.corner(i)) == window_point(
                            window@[s.source@[i] as int],
                        ) && s.inverse_w@[i] == inverse_w@[s.source@[i] as int] && s.depth@[i]
                            == depth@[s.source@[i] as int]
                    &&& s.facing == if area > 0 {
                        Facing::Front
                    } else {
                        Facing::Back
                    }
                    &&& s.bounds == extent_box(s.vertex@).clamp(width, height)
                    &&& s == built(window@, inverse_w@, depth@, width, height)
                }
            },
        },
{
    let a = match quantised_point(window[0]) {
        Ok(p) => p,
        Err(fault) => {
            return Err(RasterFault::Coordinate(fault));
        },
    };
    let b = match quantised_point(window[1]) {
        Ok(p) => p,
        Err(fault) => {
            return Err(RasterFault::Coordinate(fault));
        },
    };
    let c = match quantised_point(window[2]) {
        Ok(p) => p,
        Err(fault) => {
            return Err(RasterFault::Coordinate(fault));
        },
    };
    proof {
        edge_is_bounded(point(a), point(b), point(c));
        edge_is_bounded(point(a), point(c), point(b));
        edges_sum_to_the_area(point(a), point(b), point(c), point(b));
        swapped_area(point(a), point(b), point(c));
    }
    let area: i64 = double_area(a, b, c);
    if area == 0 {
        return Ok(None);
    }
    let facing = if area > 0 {
        Facing::Front
    } else {
        Facing::Back
    };
    let vertex = if area < 0 {
        [a, c, b]
    } else {
        [a, b, c]
    };
    let source: [usize; 3] = if area < 0 {
        [0, 2, 1]
    } else {
        [0, 1, 2]
    };
    let positive: i64 = if area < 0 {
        -area
    } else {
        area
    };
    let weights: [u32; 3] = [inverse_w[source[0]], inverse_w[source[1]], inverse_w[source[2]]];
    let depths: [u32; 3] = [depth[source[0]], depth[source[1]], depth[source[2]]];
    let top_or_left = [
        is_top_or_left(vertex[0], vertex[1]),
        is_top_or_left(vertex[1], vertex[2]),
        is_top_or_left(vertex[2], vertex[0]),
    ];
    let bounds = bounding_box(&vertex).clamped(width, height);
    let made = Setup {
        vertex,
        source,
        double_area: positive,
        top_or_left,
        inverse_w: weights,
        depth: depths,
        bounds,
        facing,
    };
    assert(made.source@ =~= rewound(area as int));
    Ok(Some(made))
}

/// Swapping the last two vertices of a triangle negates its area.
proof fn swapped_area(a: (int, int), b: (int, int), c: (int, int))
    ensures
        edge_value(a, c, b) == -edge_value(a, b, c),
{
    let (p, q, r, s) = (b.0 - a.0, c.1 - a.1, b.1 - a.1, c.0 - a.0);
    assert(p * q - r * s == -(s * r - q * p)) by (nonlinear_arith);
}

/// The pixels a run of subpixel positions touches on one axis: the low edge rounded down, the high edge
/// rounded up, half-open.
pub open spec fn extent_box(vertex: Seq<(Subpixel, Subpixel)>) -> PixelBox {
    PixelBox {
        x0: (min3(vertex[0].0.0 as int, vertex[1].0.0 as int, vertex[2].0.0 as int)
            / SUBPIXEL_ONE as int) as i64,
        y0: (min3(vertex[0].1.0 as int, vertex[1].1.0 as int, vertex[2].1.0 as int)
            / SUBPIXEL_ONE as int) as i64,
        x1: ((max3(vertex[0].0.0 as int, vertex[1].0.0 as int, vertex[2].0.0 as int) + SUBPIXEL_ONE - 1)
            / SUBPIXEL_ONE as int + 1) as i64,
        y1: ((max3(vertex[0].1.0 as int, vertex[1].1.0 as int, vertex[2].1.0 as int) + SUBPIXEL_ONE - 1)
            / SUBPIXEL_ONE as int + 1) as i64,
    }
}

fn smallest(a: i64, b: i64, c: i64) -> (least: i64)
    ensures
        least == min3(a as int, b as int, c as int),
{
    if a <= b && a <= c {
        a
    } else if b <= c {
        b
    } else {
        c
    }
}

fn largest(a: i64, b: i64, c: i64) -> (most: i64)
    ensures
        most == max3(a as int, b as int, c as int),
{
    if a >= b && a >= c {
        a
    } else if b >= c {
        b
    } else {
        c
    }
}

/// The pixel bounding box of three subpixel vertices, half-open.
pub fn bounding_box(vertex: &[(Subpixel, Subpixel); 3]) -> (bounds: PixelBox)
    requires
        forall|i: int|
            0 <= i < 3 ==> (#[trigger] vertex@[i]).0.0 + SUBPIXEL_ONE <= i64::MAX && vertex@[i].1.0
                + SUBPIXEL_ONE <= i64::MAX,
    ensures
        bounds == extent_box(vertex@),
{
    let (a, b, c) = (vertex[0], vertex[1], vertex[2]);
    let low_x: i64 = Subpixel(smallest(a.0.0, b.0.0, c.0.0)).pixel();
    let low_y: i64 = Subpixel(smallest(a.1.0, b.1.0, c.1.0)).pixel();
    let high_x: i64 = Subpixel(largest(a.0.0, b.0.0, c.0.0) + SUBPIXEL_ONE - 1).pixel();
    let high_y: i64 = Subpixel(largest(a.1.0, b.1.0, c.1.0) + SUBPIXEL_ONE - 1).pixel();
    PixelBox { x0: low_x, y0: low_y, x1: high_x + 1, y1: high_y + 1 }
}

/// Every sample a triangle covers is in a pixel of the triangle's bounding box: nothing is lost by
/// looking only there.
pub proof fn a_covered_sample_is_in_the_box(s: Setup, at: (int, int))
    requires
        s.wf(),
        s.covers(at),
    ensures
        extent_box(s.vertex@).has(at.0 / SUBPIXEL_ONE as int, at.1 / SUBPIXEL_ONE as int),
{
    a_covered_sample_is_within_the_vertices(s.corner(0), s.corner(1), s.corner(2), at);
}

/// Whether a triangle is removed under a cull mode.
pub fn culled(facing: Facing, cull: Cull) -> (removed: bool)
    ensures
        removed <==> (cull is Front && facing is Front) || (cull is Back && facing is Back),
{
    match cull {
        Cull::Nothing => false,
        Cull::Front => facing == Facing::Front,
        Cull::Back => facing == Facing::Back,
    }
}

/// The three edge values at a sample point.
pub fn edges(setup: &Setup, at: (Subpixel, Subpixel)) -> (values: [i64; 3])
    requires
        setup.samples_at(point(at)),
    ensures
        values@[0] == edge_value(setup.corner(0), setup.corner(1), point(at)),
        values@[1] == edge_value(setup.corner(1), setup.corner(2), point(at)),
        values@[2] == edge_value(setup.corner(2), setup.corner(0), point(at)),
{
    [
        edge(setup.vertex[0], setup.vertex[1], at),
        edge(setup.vertex[1], setup.vertex[2], at),
        edge(setup.vertex[2], setup.vertex[0], at),
    ]
}

/// Whether a sample is inside, applying the top-left rule to every tie.
pub fn inside(setup: &Setup, at: (Subpixel, Subpixel)) -> (covered: bool)
    requires
        setup.wf(),
        setup.samples_at(point(at)),
    ensures
        covered == setup.covers(point(at)),
{
    let values = edges(setup, at);
    covered_by(values[0], setup.top_or_left[0]) && covered_by(values[1], setup.top_or_left[1])
        && covered_by(values[2], setup.top_or_left[2])
}

/// One sample of a pixel: its offset from the pixel's corner in subpixel units, and its bit in a mask.
#[derive(Clone, Copy, PartialEq, Eq, Structural, Debug)]
pub struct SamplePosition {
    pub x: i64,
    pub y: i64,
    pub index: u32,
}

/// The sample counts there are, each with its positions.
#[derive(Debug)]
pub struct SampleTable {
    pub entries: Vec<(u32, Vec<SamplePosition>)>,
}

/// Where the positions of a sample count are, from one entry on.
pub open spec fn entry_of(entries: Seq<(u32, Vec<SamplePosition>)>, samples: u32, from: nat) -> Option<int>
    decreases entries.len() - from,
{
    if from >= entries.len() {
        None
    } else if entries[from as int].0 == samples {
        Some(from as int)
    } else {
        entry_of(entries, samples, from + 1)
    }
}

impl SampleTable {
    /// The positions of a sample count. A count with none is refused rather than approximated.
    pub fn positions(&self, samples: u32) -> (found: Result<&Vec<SamplePosition>, Error>)
        ensures
            match entry_of(self.entries@, samples, 0) {
                Some(entry) => found matches Ok(list) && *list == self.entries@[entry].1,
                None => found == Err::<&Vec<SamplePosition>, Error>(Error::UnsupportedSampleCount { samples }),
            },
    {
        let mut next: usize = 0;
        while next < self.entries.len()
            invariant
                next <= self.entries@.len(),
                entry_of(self.entries@, samples, 0) == entry_of(self.entries@, samples, next as nat),
            decreases self.entries@.len() - next,
        {
            if self.entries[next].0 == samples {
                return Ok(&self.entries[next].1);
            }
            next = next + 1;
        }
        Err(Error::UnsupportedSampleCount { samples })
    }
}

/// Where a sample of a pixel lies.
pub open spec fn sample_point(pixel_x: int, pixel_y: int, position: SamplePosition) -> (int, int) {
    (pixel_x * SUBPIXEL_ONE + position.x, pixel_y * SUBPIXEL_ONE + position.y)
}

/// Whether a bit of a mask is set.
pub open spec fn bit(mask: u32, index: u32) -> bool {
    mask & (1u32 << index) != 0
}

/// Setting one bit of a mask sets that bit and no other.
pub proof fn setting_a_bit(mask: u32, index: u32, other: u32)
    requires
        index < 32,
        other < 32,
    ensures
        bit(mask | (1u32 << index), other) <==> bit(mask, other) || index == other,
        !bit(0, other),
{
    assert((mask | (1u32 << index)) & (1u32 << other) != 0 <==> mask & (1u32 << other) != 0 || index
        == other) by (bit_vector)
        requires
            index < 32,
            other < 32,
    ;
    assert(0u32 & (1u32 << other) == 0) by (bit_vector);
}

/// Whether some listed sample of the pixel with this mask bit is covered.
pub open spec fn sample_covered(
    setup: Setup,
    pixel_x: int,
    pixel_y: int,
    positions: Seq<SamplePosition>,
    index: u32,
) -> bool {
    exists|i: int|
        0 <= i < positions.len() && (#[trigger] positions[i]).index == index && setup.covers(
            sample_point(pixel_x, pixel_y, positions[i]),
        )
}

/// The sample mask of one pixel, from the first `count` listed sample points.
pub open spec fn covered_mask(
    setup: Setup,
    pixel_x: int,
    pixel_y: int,
    positions: Seq<SamplePosition>,
    count: nat,
) -> u32
    decreases count,
{
    if count == 0 {
        0
    } else {
        let before = covered_mask(setup, pixel_x, pixel_y, positions, (count - 1) as nat);
        if setup.covers(sample_point(pixel_x, pixel_y, positions[count - 1])) {
            before | (1u32 << positions[count - 1].index)
        } else {
            before
        }
    }
}

/// The sample mask of one pixel: which of the listed sample points the triangle covers.
pub fn coverage(setup: &Setup, pixel_x: i64, pixel_y: i64, positions: &[SamplePosition]) -> (mask: u32)
    requires
        setup.wf(),
        fits(pixel_x * SUBPIXEL_ONE),
        fits(pixel_y * SUBPIXEL_ONE),
        forall|i: int|
            0 <= i < positions@.len() ==> (#[trigger] positions@[i]).index < 32 && fits(
                sample_point(pixel_x as int, pixel_y as int, positions@[i]).0,
            ) && fits(sample_point(pixel_x as int, pixel_y as int, positions@[i]).1) && setup.samples_at(
                sample_point(pixel_x as int, pixel_y as int, positions@[i]),
            ),
    ensures
        forall|index: u32|
            index < 32 ==> (#[trigger] bit(mask, index) <==> sample_covered(
                *setup,
                pixel_x as int,
                pixel_y as int,
                positions@,
                index,
            )),
        mask == covered_mask(*setup, pixel_x as int, pixel_y as int, positions@, positions@.len()),
{
    let mut mask: u32 = 0;
    proof {
        assert forall|index: u32| index < 32 implies !(#[trigger] bit(mask, index)) by {
            setting_a_bit(0, 0, index);
        }
    }
    let mut next: usize = 0;
    while next < positions.len()
        invariant
            next <= positions@.len(),
            setup.wf(),
            fits(pixel_x * SUBPIXEL_ONE),
            fits(pixel_y * SUBPIXEL_ONE),
            forall|i: int|
                0 <= i < positions@.len() ==> (#[trigger] positions@[i]).index < 32 && fits(
                    sample_point(pixel_x as int, pixel_y as int, positions@[i]).0,
                ) && fits(sample_point(pixel_x as int, pixel_y as int, positions@[i]).1)
                    && setup.samples_at(sample_point(pixel_x as int, pixel_y as int, positions@[i])),
            forall|index: u32|
                index < 32 ==> (#[trigger] bit(mask, index) <==> exists|i: int|
                    0 <= i < next && (#[trigger] positions@[i]).index == index && setup.covers(
                        sample_point(pixel_x as int, pixel_y as int, positions@[i]),
                    )),
            mask == covered_mask(*setup, pixel_x as int, pixel_y as int, positions@, next as nat),
        decreases positions@.len() - next,
    {
        let position = positions[next];
        let x: i64 = pixel_x * SUBPIXEL_ONE + position.x;
        let y: i64 = pixel_y * SUBPIXEL_ONE + position.y;
        let ghost before = mask;
        if inside(setup, (Subpixel(x), Subpixel(y))) {
            mask = mask | (1u32 << position.index);
        }
        proof {
            assert forall|index: u32| index < 32 implies (#[trigger] bit(mask, index) <==> exists|
                i: int,
            |
                0 <= i < next + 1 && (#[trigger] positions@[i]).index == index && setup.covers(
                    sample_point(pixel_x as int, pixel_y as int, positions@[i]),
                )) by {
                setting_a_bit(before, position.index, index);
                assert(positions@[next as int] == position);
                if bit(before, index) {
                    let i = choose|i: int|
                        0 <= i < next && (#[trigger] positions@[i]).index == index && setup.covers(
                            sample_point(pixel_x as int, pixel_y as int, positions@[i]),
                        );
                    assert(positions@[i].index == index);
                }
            }
        }
        next = next + 1;
    }
    mask
}

/// The barycentric weights at a sample as numerators over `double_area`: the edge opposite each vertex.
pub fn barycentric(setup: &Setup, at: (Subpixel, Subpixel)) -> (numerators: [i64; 3])
    requires
        setup.wf(),
        setup.samples_at(point(at)),
    ensures
        numerators@[0] == edge_value(setup.corner(1), setup.corner(2), point(at)),
        numerators@[1] == edge_value(setup.corner(2), setup.corner(0), point(at)),
        numerators@[2] == edge_value(setup.corner(0), setup.corner(1), point(at)),
        numerators@[0] + numerators@[1] + numerators@[2] == setup.double_area,
{
    let values = edges(setup, at);
    proof {
        edges_sum_to_the_area(setup.corner(0), setup.corner(1), setup.corner(2), point(at));
    }
    [values[1], values[2], values[0]]
}

/// How many tiles an extent of pixels takes; at least one.
pub open spec fn tiles_for(extent: u32) -> int {
    if extent == 0 {
        1
    } else {
        (extent - 1) / TILE as int + 1
    }
}

fn tile_count(extent: u32) -> (count: u32)
    ensures
        count == tiles_for(extent),
        count > 0,
{
    if extent == 0 {
        1
    } else {
        (extent - 1) / TILE + 1
    }
}

/// Whether a tile's column (or row) is one that a span of pixels `low .. high` is binned into: the span
/// held to the non-negative pixels, its first and last pixel's tiles and all between.
pub open spec fn bins_into(low: int, high: int, tile: int) -> bool {
    (if low > 0 {
        low
    } else {
        0
    }) / TILE as int <= tile <= (if high > 1 {
        high - 1
    } else {
        0
    }) / TILE as int
}

/// The tile grid of one target, the triangles binned into each tile, and the furthest depth each tile
/// can still be beaten by, as a bit pattern.
pub struct Bins {
    across: u32,
    down: u32,
    tiles: Vec<Vec<u32>>,
    far: Vec<u32>,
}

impl Bins {
    /// The grid has one bin and one bound per tile.
    pub closed spec fn wf(self) -> bool {
        &&& self.across > 0
        &&& self.down > 0
        &&& self.across * self.down <= u32::MAX
        &&& self.tiles@.len() == self.across * self.down
        &&& self.far@.len() == self.across * self.down
    }

    /// Tiles in a row.
    pub closed spec fn columns(self) -> int {
        self.across as int
    }

    /// Tiles in a column.
    pub closed spec fn rows(self) -> int {
        self.down as int
    }

    /// The triangles of the tile at a row-major index.
    pub closed spec fn bin(self, index: int) -> Seq<u32> {
        self.tiles@[index]@
    }

    /// The depth bounds of the tiles, row by row.
    pub closed spec fn bounds(self) -> Seq<u32> {
        self.far@
    }

    /// Every tile has one depth bound.
    pub proof fn a_bound_per_tile(self)
        requires
            self.wf(),
        ensures
            self.bounds().len() == self.columns() * self.rows(),
    {
    }

    /// An empty grid for a target.
    pub fn new(width: u32, height: u32) -> (made: Bins)
        requires
            tiles_for(width) * tiles_for(height) <= u32::MAX,
        ensures
            made.wf(),
            made.columns() == tiles_for(width),
            made.rows() == tiles_for(height),
            forall|i: int|
                0 <= i < tiles_for(width) * tiles_for(height) ==> (#[trigger] made.bin(i)).len() == 0,
            made.bounds() == Seq::new(
                (tiles_for(width) * tiles_for(height)) as nat,
                |i: int| bits::ONE,
            ),
    {
        let across: u32 = tile_count(width);
        let down: u32 = tile_count(height);
        let mut made = Bins { across, down, tiles: Vec::new(), far: Vec::new() };
        proof {
            assert(across * down >= 0) by (nonlinear_arith)
                requires
                    across >= 0,
                    down >= 0,
            ;
        }
        let count: usize = (across * down) as usize;
        made.fit(count);
        made.reset_depth();
        made
    }

    /// Make the storage `count` bins long, each of them empty; the bounds of the tiles that stay are
    /// kept.
    fn fit(&mut self, count: usize)
        ensures
            final(self).across == old(self).across,
            final(self).down == old(self).down,
            final(self).tiles@.len() == count,
            final(self).far@.len() == count,
            forall|i: int| 0 <= i < count ==> (#[trigger] final(self).tiles@[i])@.len() == 0,
    {
        while self.tiles.len() > count
            invariant
                self.across == old(self).across,
                self.down == old(self).down,
            decreases self.tiles@.len(),
        {
            let _ = self.tiles.pop();
        }
        while self.tiles.len() < count
            invariant
                self.tiles@.len() <= count,
                self.across == old(self).across,
                self.down == old(self).down,
            decreases count - self.tiles@.len(),
        {
            self.tiles.push(Vec::new());
        }
        while self.far.len() > count
            invariant
                self.tiles@.len() == count,
                self.across == old(self).across,
                self.down == old(self).down,
            decreases self.far@.len(),
        {
            let _ = self.far.pop();
        }
        while self.far.len() < count
            invariant
                self.far@.len() <= count,
                self.tiles@.len() == count,
                self.across == old(self).across,
                self.down == old(self).down,
            decreases count - self.far@.len(),
        {
            self.far.push(bits::ONE);
        }
        self.empty_bins();
    }

    /// The furthest depth a tile can still be beaten by; the far plane past the grid.
    pub fn tile_far(&self, x: u32, y: u32) -> (bound: u32)
        requires
            self.wf(),
            cell(x as int, y as int, self.columns()) <= u32::MAX,
        ensures
            bound == if cell(x as int, y as int, self.columns()) < self.bounds().len() {
                self.bounds()[cell(x as int, y as int, self.columns())]
            } else {
                bits::ONE
            },
    {
        proof {
            product_of_counts(y, self.across);
        }
        let index: usize = (y * self.across + x) as usize;
        if index < self.far.len() {
            self.far[index]
        } else {
            bits::ONE
        }
    }

    /// Move a tile's bound nearer, which is the only direction it may move within a frame.
    pub fn narrow_tile_far(&mut self, x: u32, y: u32, depth: u32)
        requires
            old(self).wf(),
            cell(x as int, y as int, old(self).columns()) <= u32::MAX,
        ensures
            final(self).wf(),
            final(self).columns() == old(self).columns(),
            final(self).rows() == old(self).rows(),
            forall|i: int|
                0 <= i < old(self).bounds().len() ==> #[trigger] final(self).bin(i) == old(self).bin(i),
            final(self).bounds() == ({
                let index = cell(x as int, y as int, old(self).columns());
                if index < old(self).bounds().len() && bits::below(depth, old(self).bounds()[index]) {
                    old(self).bounds().update(index, depth)
                } else {
                    old(self).bounds()
                }
            }),
    {
        proof {
            product_of_counts(y, self.across);
        }
        let index: usize = (y * self.across + x) as usize;
        if index < self.far.len() {
            if bits::less(depth, self.far[index]) {
                self.far.set(index, depth);
            }
        }
    }

    /// Tiles in a row.
    pub fn across(&self) -> (count: u32)
        ensures
            count == self.columns(),
    {
        self.across
    }

    /// Tiles in a column.
    pub fn down(&self) -> (count: u32)
        ensures
            count == self.rows(),
    {
        self.down
    }

    /// Empty every bin, keeping the memory and keeping the depth bounds.
    pub fn clear(&mut self)
        requires
            old(self).wf(),
        ensures
            final(self).wf(),
            final(self).columns() == old(self).columns(),
            final(self).rows() == old(self).rows(),
            final(self).bounds() == old(self).bounds(),
            forall|i: int|
                0 <= i < old(self).columns() * old(self).rows() ==> (#[trigger] final(self).bin(i)).len()
                    == 0,
    {
        self.empty_bins();
    }

    fn empty_bins(&mut self)
        ensures
            final(self).across == old(self).across,
            final(self).down == old(self).down,
            final(self).far == old(self).far,
            final(self).tiles@.len() == old(self).tiles@.len(),
            forall|i: int|
                0 <= i < old(self).tiles@.len() ==> (#[trigger] final(self).tiles@[i])@.len() == 0,
    {
        let mut next: usize = 0;
        while next < self.tiles.len()
            invariant
                next <= self.tiles@.len(),
                self.across == old(self).across,
                self.down == old(self).down,
                self.far == old(self).far,
                self.tiles@.len() == old(self).tiles@.len(),
                forall|i: int| 0 <= i < next ==> (#[trigger] self.tiles@[i])@.len() == 0,
            decreases self.tiles@.len() - next,
        {
            self.tiles[next].clear();
            next = next + 1;
        }
    }

    /// Forget every tile's depth bound. Once per frame, because a bound is only valid against a depth
    /// buffer that has not been cleared since.
    pub fn reset_depth(&mut self)
        requires
            old(self).wf(),
        ensures
            final(self).wf(),
            final(self).columns() == old(self).columns(),
            final(self).rows() == old(self).rows(),
            final(self).bounds() == Seq::new(
                (old(self).columns() * old(self).rows()) as nat,
                |i: int| bits::ONE,
            ),
            forall|i: int|
                0 <= i < old(self).columns() * old(self).rows() ==> #[trigger] final(self).bin(i) == old(
                    self,
                ).bin(i),
    {
        let mut next: usize = 0;
        while next < self.far.len()
            invariant
                next <= self.far@.len(),
                self.across == old(self).across,
                self.down == old(self).down,
                self.tiles == old(self).tiles,
                self.far@.len() == old(self).far@.len(),
                forall|i: int| 0 <= i < next ==> #[trigger] self.far@[i] == bits::ONE,
            decreases self.far@.len() - next,
        {
            self.far.set(next, bits::ONE);
            next = next + 1;
        }
        assert(self.far@ =~= Seq::new(old(self).far@.len(), |i: int| bits::ONE));
    }

    /// Resize for a new target. A target of the same grid keeps its depth bounds.
    pub fn resize(&mut self, width: u32, height: u32)
        requires
            old(self).wf(),
            tiles_for(width) * tiles_for(height) <= u32::MAX,
        ensures
            final(self).wf(),
            final(self).columns() == tiles_for(width),
            final(self).rows() == tiles_for(height),
            forall|i: int|
                0 <= i < tiles_for(width) * tiles_for(height) ==> (#[trigger] final(self).bin(i)).len()
                    == 0,
            final(self).bounds() == if old(self).columns() == tiles_for(width) && old(self).rows()
                == tiles_for(height) {
                old(self).bounds()
            } else {
                Seq::new((tiles_for(width) * tiles_for(height)) as nat, |i: int| bits::ONE)
            },
    {
        let across: u32 = tile_count(width);
        let down: u32 = tile_count(height);
        if across == self.across && down == self.down {
            self.clear();
            return;
        }
        proof {
            assert(across * down >= 0) by (nonlinear_arith)
                requires
                    across >= 0,
                    down >= 0,
            ;
        }
        self.across = across;
        self.down = down;
        self.fit((across * down) as usize);
        self.reset_depth();
    }

    /// Put a triangle into every tile its bounding box touches.
    pub fn insert(&mut self, triangle: u32, bounds: &PixelBox)
        requires
            old(self).wf(),
            !bounds.empty() ==> bounds.x1 <= 0x1_0000_0000 && bounds.y1 <= 0x1_0000_0000,
        ensures
            final(self).wf(),
            final(self).columns() == old(self).columns(),
            final(self).rows() == old(self).rows(),
            final(self).bounds() == old(self).bounds(),
            forall|x: int, y: int|
                0 <= x < old(self).columns() && 0 <= y < old(self).rows() ==> final(self).bin(
                    #[trigger] cell(x, y, old(self).columns()),
                ) == if !bounds.empty() && bins_into(bounds.x0 as int, bounds.x1 as int, x) && bins_into(
                    bounds.y0 as int,
                    bounds.y1 as int,
                    y,
                ) {
                    old(self).bin(cell(x, y, old(self).columns())).push(triangle)
                } else {
                    old(self).bin(cell(x, y, old(self).columns()))
                },
    {
        if bounds.is_empty() {
            return;
        }
        let first_x: u32 = first_tile(bounds.x0);
        let first_y: u32 = first_tile(bounds.y0);
        let last_x: u32 = last_tile(bounds.x1, self.across);
        let last_y: u32 = last_tile(bounds.y1, self.down);
        let mut tile_y: u32 = first_y;
        while tile_y <= last_y
            invariant
                self.wf(),
                self.across == old(self).across,
                self.down == old(self).down,
                self.far == old(self).far,
                last_x < self.across,
                last_y < self.down,
                first_y <= tile_y,
                tile_y <= last_y + 1 || tile_y == first_y,
                forall|x: int, y: int|
                    0 <= x < self.across && 0 <= y < self.down ==> self.tiles@[#[trigger] cell(
                        x,
                        y,
                        self.across as int,
                    )]@ == if first_x <= x <= last_x && first_y <= y < tile_y {
                        old(self).tiles@[cell(x, y, self.across as int)]@.push(triangle)
                    } else {
                        old(self).tiles@[cell(x, y, self.across as int)]@
                    },
            decreases last_y + 1 - tile_y,
        {
            let mut tile_x: u32 = first_x;
            while tile_x <= last_x
                invariant
                    self.wf(),
                    self.across == old(self).across,
                    self.down == old(self).down,
                    self.far == old(self).far,
                    last_x < self.across,
                    last_y < self.down,
                    first_y <= tile_y <= last_y,
                    first_x <= tile_x,
                    tile_x <= last_x + 1 || tile_x == first_x,
                    forall|x: int, y: int|
                        0 <= x < self.across && 0 <= y < self.down ==> self.tiles@[#[trigger] cell(
                            x,
                            y,
                            self.across as int,
                        )]@ == if (first_x <= x <= last_x && first_y <= y < tile_y) || (first_x <= x
                            < tile_x && y == tile_y) {
                            old(self).tiles@[cell(x, y, self.across as int)]@.push(triangle)
                        } else {
                            old(self).tiles@[cell(x, y, self.across as int)]@
                        },
                decreases last_x + 1 - tile_x,
            {
                proof {
                    cell_is_stored(tile_x as int, tile_y as int, self.across as int, self.down as int);
                    product_of_counts(tile_y, self.across);
                    assert(cell(tile_x as int, tile_y as int, self.across as int) == tile_y
                        * self.across + tile_x);
                }
                let index: usize = (tile_y * self.across + tile_x) as usize;
                let ghost before = self.tiles@;
                self.tiles[index].push(triangle);
                proof {
                    assert forall|x: int, y: int|
                        0 <= x < self.across && 0 <= y < self.down implies self.tiles@[#[trigger] cell(
                        x,
                        y,
                        self.across as int,
                    )]@ == if (first_x <= x <= last_x && first_y <= y < tile_y) || (first_x <= x < tile_x
                        + 1 && y == tile_y) {
                        old(self).tiles@[cell(x, y, self.across as int)]@.push(triangle)
                    } else {
                        old(self).tiles@[cell(x, y, self.across as int)]@
                    } by {
                        cell_is_stored(x, y, self.across as int, self.down as int);
                        if cell(x, y, self.across as int) == index {
                            cells_are_apart(x, y, tile_x as int, tile_y as int, self.across as int);
                        }
                    }
                }
                tile_x = tile_x + 1;
            }
            tile_y = tile_y + 1;
        }
        proof {
            assert forall|x: int, y: int|
                0 <= x < self.across && 0 <= y < self.down implies ((first_x <= x <= last_x && first_y
                <= y <= last_y) <==> bins_into(bounds.x0 as int, bounds.x1 as int, x) && bins_into(
                bounds.y0 as int,
                bounds.y1 as int,
                y,
            )) by {}
        }
    }

    /// The triangles binned into a tile, in the order they were inserted.
    pub fn tile(&self, x: u32, y: u32) -> (bin: &[u32])
        requires
            self.wf(),
            cell(x as int, y as int, self.columns()) < self.columns() * self.rows(),
        ensures
            bin@ == self.bin(cell(x as int, y as int, self.columns())),
    {
        proof {
            product_of_counts(y, self.across);
        }
        let index: usize = (y * self.across + x) as usize;
        self.tiles[index].as_slice()
    }

    /// The pixel rectangle a tile covers, clamped to the target.
    pub fn tile_box(&self, x: u32, y: u32, width: u32, height: u32) -> (area: PixelBox)
        requires
            (x + 1) * TILE <= u32::MAX,
            (y + 1) * TILE <= u32::MAX,
        ensures
            area == tile_pixels(x as int, y as int).clamp(width, height),
    {
        tile_area(x, y, width, height)
    }
}

proof fn product_of_counts(a: u32, b: u32)
    ensures
        a * b >= 0,
{
    assert(a * b >= 0) by (nonlinear_arith)
        requires
            a >= 0,
            b >= 0,
    ;
}

fn first_tile(low: i64) -> (tile: u32)
    requires
        low < 0x1_0000_0000,
    ensures
        tile == (if low > 0 {
            low as int
        } else {
            0
        }) / TILE as int,
{
    if low > 0 {
        (low as u32) / TILE
    } else {
        0
    }
}

fn last_tile(high: i64, count: u32) -> (tile: u32)
    requires
        high <= 0x1_0000_0000,
        count > 0,
    ensures
        tile < count,
        tile <= (if high > 1 {
            high - 1
        } else {
            0
        }) / TILE as int,
        tile < count - 1 ==> tile == (if high > 1 {
            high - 1
        } else {
            0
        }) / TILE as int,
{
    let reached: u32 = if high > 1 {
        ((high - 1) as u32) / TILE
    } else {
        0
    };
    if reached < count - 1 {
        reached
    } else {
        count - 1
    }
}

/// The pixels of a tile before any target is considered.
pub open spec fn tile_pixels(x: int, y: int) -> PixelBox {
    PixelBox {
        x0: (x * TILE) as i64,
        y0: (y * TILE) as i64,
        x1: ((x + 1) * TILE) as i64,
        y1: ((y + 1) * TILE) as i64,
    }
}

/// The pixel rectangle a tile covers, clamped to the target.
pub fn tile_area(x: u32, y: u32, width: u32, height: u32) -> (area: PixelBox)
    requires
        (x + 1) * TILE <= u32::MAX,
        (y + 1) * TILE <= u32::MAX,
    ensures
        area == tile_pixels(x as int, y as int).clamp(width, height),
{
    PixelBox {
        x0: (x * TILE) as i64,
        y0: (y * TILE) as i64,
        x1: ((x + 1) * TILE) as i64,
        y1: ((y + 1) * TILE) as i64,
    }.clamped(width, height)
}

/// The tiles partition the target: a pixel of it is in the area of one tile and of no other.
pub proof fn a_pixel_is_in_one_tile(px: int, py: int, x: int, y: int, width: u32, height: u32)
    requires
        0 <= px < width,
        0 <= py < height,
        0 <= x && (x + 1) * TILE <= u32::MAX,
        0 <= y && (y + 1) * TILE <= u32::MAX,
    ensures
        tile_pixels(x, y).clamp(width, height).has(px, py) <==> x == px / TILE as int && y == py
            / TILE as int,
        (px / TILE as int) < tiles_for(width),
        (py / TILE as int) < tiles_for(height),
{
}

/// A pixel of a bounding box is in a tile the box is binned into.
pub proof fn a_pixel_of_the_box_is_binned(bounds: PixelBox, px: int, py: int)
    requires
        bounds.has(px, py),
        0 <= px,
        0 <= py,
    ensures
        bins_into(bounds.x0 as int, bounds.x1 as int, px / TILE as int),
        bins_into(bounds.y0 as int, bounds.y1 as int, py / TILE as int),
{
}

/// Within the target a tile is binned into exactly when it holds a pixel of the span.
pub proof fn binning_is_by_pixels(low: int, high: int, tile: int)
    requires
        0 <= low < high,
    ensures
        bins_into(low, high, tile) <==> exists|p: int|
            low <= p < high && #[trigger] (p / TILE as int) == tile,
{
    if bins_into(low, high, tile) {
        let p = if low / TILE as int == tile {
            low
        } else {
            tile * TILE
        };
        assert(low <= p < high && p / TILE as int == tile);
    }
}

/// The weights at a sample are the ones that make it of the corners: weighed with them the corners average to the sample,
/// and they add up to the whole. So at a corner the weight of that corner is the whole and the others are nothing.
pub proof fn weights_make_the_sample_of_the_corners(setup: Setup, at: (Subpixel, Subpixel), numerators: [i64; 3])
    requires
        setup.wf(),
        setup.samples_at(point(at)),
        call_ensures(barycentric, (&setup, at), numerators),
    ensures
        ({
            let (p, q, r) = (setup.vertex@[0], setup.vertex@[1], setup.vertex@[2]);
            let (u, v, w) = (numerators@[0] as int, numerators@[1] as int, numerators@[2] as int);
            let whole = (r.0.0 - p.0.0) * (q.1.0 - p.1.0) - (r.1.0 - p.1.0) * (q.0.0 - p.0.0);
            &&& u + v + w == whole
            &&& u * p.0.0 + v * q.0.0 + w * r.0.0 == whole * at.0.0
            &&& u * p.1.0 + v * q.1.0 + w * r.1.0 == whole * at.1.0
        }),
{
    let (a, b, c, s) = (setup.corner(0), setup.corner(1), setup.corner(2), point(at));
    let (u, v, w) = (edge_value(b, c, s), edge_value(c, a, s), edge_value(a, b, s));
    edges_sum_to_the_area(a, b, c, s);
    super::fixed::edges_weigh_the_vertices(a, b, c, s);
    let whole = u + v + w;
    assert(u * a.0 + v * b.0 + w * c.0 == whole * s.0) by (nonlinear_arith)
        requires
            u * (a.0 - s.0) + v * (b.0 - s.0) + w * (c.0 - s.0) == 0,
            whole == u + v + w,
    ;
    assert(u * a.1 + v * b.1 + w * c.1 == whole * s.1) by (nonlinear_arith)
        requires
            u * (a.1 - s.1) + v * (b.1 - s.1) + w * (c.1 - s.1) == 0,
            whole == u + v + w,
    ;
}

/// The positions of a sample count are those of the first entry with that count.
pub proof fn a_sample_count_finds_its_entry(entries: Seq<(u32, Vec<SamplePosition>)>, samples: u32, from: nat)
    ensures
        match entry_of(entries, samples, from) {
            Some(i) => from <= i < entries.len() && entries[i].0 == samples && forall|j: int|
                from <= j < i ==> (#[trigger] entries[j]).0 != samples,
            None => forall|j: int| from <= j < entries.len() ==> (#[trigger] entries[j]).0 != samples,
        },
    decreases entries.len() - from,
{
    if from < entries.len() {
        a_sample_count_finds_its_entry(entries, samples, from + 1);
    }
}

/// A triangle faces the front where its area, its corners taken as they were submitted, is above nothing; it is set up
/// with the corners in an order of positive area, and a triangle and the same one with two corners exchanged face
/// opposite sides.
pub proof fn facing_is_by_winding(
    window: Seq<(u32, u32)>,
    inverse_w: Seq<u32>,
    depth: Seq<u32>,
    width: u32,
    height: u32,
)
    requires
        window.len() == 3,
        window_fault(window) is None,
        submitted_area(window) != 0,
    ensures
        ({
            let at = |i: int| (quantised(window[i].0)->Ok_0.0 as int, quantised(window[i].1)->Ok_0.0 as int);
            let (a, b, c) = (at(0), at(1), at(2));
            let area = (c.0 - a.0) * (b.1 - a.1) - (c.1 - a.1) * (b.0 - a.0);
            let turned = seq![window[0], window[2], window[1]];
            &&& built(window, inverse_w, depth, width, height).facing is Front <==> area > 0
            &&& built(window, inverse_w, depth, width, height).facing != built(
                turned,
                inverse_w,
                depth,
                width,
                height,
            ).facing
        }),
{
    let (a, b, c) = (window_point(window[0]), window_point(window[1]), window_point(window[2]));
    swapped_area(a, b, c);
    let turned = seq![window[0], window[2], window[1]];
    assert(submitted_area(turned) == edge_value(a, c, b));
}

/// The box of a triangle holds each of its corners, and reaches no further than the pixels the corners are in and one
/// more.
pub proof fn a_box_is_around_its_corners(vertex: Seq<(Subpixel, Subpixel)>, i: int)
    requires
        vertex.len() == 3,
        0 <= i < 3,
        forall|k: int| 0 <= k < 3 ==> point_on_grid(#[trigger] vertex[k]),
    ensures
        ({
            let bounds = extent_box(vertex);
            let (x, y) = (vertex[i].0.0, vertex[i].1.0);
            &&& 256 * bounds.x0 <= x && x < 256 * bounds.x1
            &&& 256 * bounds.y0 <= y && y < 256 * bounds.y1
            &&& exists|k: int| 0 <= k < 3 && (#[trigger] vertex[k]).0.0 < 256 * (bounds.x0 + 1)
            &&& exists|k: int| 0 <= k < 3 && (#[trigger] vertex[k]).1.0 < 256 * (bounds.y0 + 1)
            &&& exists|k: int| 0 <= k < 3 && 256 * (bounds.x1 - 2) < (#[trigger] vertex[k]).0.0 || bounds.x1 == 1
            &&& exists|k: int| 0 <= k < 3 && 256 * (bounds.y1 - 2) < (#[trigger] vertex[k]).1.0 || bounds.y1 == 1
        }),
{
    assert(point_on_grid(vertex[0]) && point_on_grid(vertex[1]) && point_on_grid(vertex[2]));
    let bounds = extent_box(vertex);
    let (a, b, c) = (vertex[0], vertex[1], vertex[2]);
    assert(a.0.0 < 256 * (bounds.x0 + 1) || b.0.0 < 256 * (bounds.x0 + 1) || c.0.0 < 256 * (bounds.x0 + 1));
    assert(a.1.0 < 256 * (bounds.y0 + 1) || b.1.0 < 256 * (bounds.y0 + 1) || c.1.0 < 256 * (bounds.y0 + 1));
}


/// A triangle is set up with each corner's own place, depth and inverse `w`, in an order its source says; each submitted
/// corner is one of them.
pub proof fn a_corner_keeps_its_own_values(
    window: Seq<(u32, u32)>,
    inverse_w: Seq<u32>,
    depth: Seq<u32>,
    width: u32,
    height: u32,
    k: int,
)
    requires
        0 <= k < 3,
    ensures
        ({
            let made = built(window, inverse_w, depth, width, height);
            let own = made.source@[k] as int;
            &&& 0 <= own < 3
            &&& made.vertex@[k] == grid_point(window[own])
            &&& made.inverse_w@[k] == inverse_w[own]
            &&& made.depth@[k] == depth[own]
            &&& exists|j: int| 0 <= j < 3 && #[trigger] made.source@[j] == k
        }),
{
    let made = built(window, inverse_w, depth, width, height);
    assert(made.source@[0] == 0);
    assert(made.source@[1] == 1 || made.source@[1] == 2);
    assert(made.source@[2] == 3 - made.source@[1]);
}

/// A triangle is refused where some coordinate of it is not on the grid, for the first such coordinate: a corner before
/// the next, and across before down.
pub proof fn a_triangle_is_refused_for_its_first_fault(window: Seq<(u32, u32)>, k: int)
    requires
        window.len() == 3,
        0 <= k < 6,
    ensures
        ({
            let coordinate = |i: int|
                if i % 2 == 0 {
                    window[i / 2].0
                } else {
                    window[i / 2].1
                };
            &&& window_fault(window) is None ==> quantised(coordinate(k)) is Ok
            &&& (forall|j: int| 0 <= j < k ==> quantised(#[trigger] coordinate(j)) is Ok) && quantised(coordinate(k)) is Err
                ==> window_fault(window) == Some(quantised(coordinate(k))->Err_0)
        }),
{
    let coordinate = |i: int|
        if i % 2 == 0 {
            window[i / 2].0
        } else {
            window[i / 2].1
        };
    assert(coordinate(0) == window[0].0 && coordinate(1) == window[0].1 && coordinate(2) == window[1].0);
    assert(coordinate(3) == window[1].1 && coordinate(4) == window[2].0 && coordinate(5) == window[2].1);
}

/// There are as many tiles as an extent needs: they reach its end, and the last of them begins before it.
pub proof fn tiles_reach_the_end(extent: u32)
    ensures
        extent <= TILE * tiles_for(extent),
        extent > 0 ==> TILE * (tiles_for(extent) - 1) < extent,
        tiles_for(extent) >= 1,
{
}

/// A sample of a pixel lies as far from the pixel's corner as its position says, and pixels are two hundred and
/// fifty-six steps apart.
pub proof fn a_sample_lies_in_its_pixel(x: int, y: int, position: SamplePosition)
    requires
        0 <= position.x < 256,
        0 <= position.y < 256,
    ensures
        ({
            let (u, v) = sample_point(x, y, position);
            &&& u / 256 == x && u % 256 == position.x
            &&& v / 256 == y && v % 256 == position.y
        }),
{
}

} // verus!
