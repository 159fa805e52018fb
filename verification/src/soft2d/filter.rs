//! Filter graphs: in what order the nodes of a graph are evaluated, what each reads, and where its surfaces
//! come from.
//!
//! Nodes that move pixels or pick between them are evaluated here. What a node computes in floating point is
//! asked of the caller, node by node, with the surfaces it reads.
use super::error::{Error, Limit};
use super::geom::PixelRect;
use super::layer::{side, Pool};
use super::target::{setting_sets_one, Rgba, Sheet, Surface, TRANSPARENT};
use crate::bits::{
    below, between, equal, extremes_are_by_number, finite, floor_wide, floored, greater_of, is_finite, larger, less,
    lesser_of, nan, number, order_is_by_number, same, smaller, whole_numbers_are_by_number, ONE,
};
use crate::grid::{cell, cell_is_stored, every_index_is_a_cell};
use vstd::arithmetic::div_mod::{lemma_fundamental_div_mod, lemma_fundamental_div_mod_converse};
use vstd::arithmetic::power2::{lemma2_to64, lemma_pow2_adds, lemma_pow2_pos, pow2};
use vstd::prelude::*;

verus! {

/// A half-open range of pixels.
#[derive(Clone, Copy, PartialEq, Eq, Structural, Debug)]
pub struct Keep {
    pub left: u32,
    pub top: u32,
    pub right: u32,
    pub bottom: u32,
}

impl Keep {
    /// Whether a pixel is in the range.
    pub open spec fn has(self, x: int, y: int) -> bool {
        self.left <= x < self.right && self.top <= y < self.bottom
    }
}

/// One node of a graph. An input is the index of an earlier node.
#[derive(Clone, Copy, PartialEq, Eq, Debug)]
#[allow(inconsistent_fields)]
pub enum FilterNode {
    Source,
    Backdrop,
    Image(u32),
    Blur { input: u16 },
    Offset { input: u16 },
    ColorMatrix { input: u16 },
    /// A colour of the working space, over all of the bounds.
    Flood { colour: Rgba },
    Composite { source: u16, backdrop: u16 },
    Blend { source: u16, backdrop: u16 },
    Convolution { input: u16 },
    MorphologyDilate { input: u16, reach_x: i64, reach_y: i64 },
    MorphologyErode { input: u16, reach_x: i64, reach_y: i64 },
    DisplacementMap { input: u16, map: u16 },
    Crop { input: u16, keep: Keep },
    Tile { input: u16, keep: Keep },
    In { input: u16, mask: u16 },
}

impl FilterNode {
    /// Whether what the node computes is the caller's to compute.
    pub open spec fn asks(self) -> bool {
        match self {
            FilterNode::Source => false,
            FilterNode::Backdrop => false,
            FilterNode::Flood { .. } => false,
            FilterNode::MorphologyDilate { .. } => false,
            FilterNode::MorphologyErode { .. } => false,
            FilterNode::Crop { .. } => false,
            FilterNode::Tile { .. } => false,
            _ => true,
        }
    }

    /// The nodes it reads.
    pub open spec fn reads(self) -> Seq<u16> {
        match self {
            FilterNode::Source => Seq::empty(),
            FilterNode::Backdrop => Seq::empty(),
            FilterNode::Image(_) => Seq::empty(),
            FilterNode::Flood { .. } => Seq::empty(),
            FilterNode::Blur { input } => seq![input],
            FilterNode::Offset { input } => seq![input],
            FilterNode::ColorMatrix { input } => seq![input],
            FilterNode::Convolution { input } => seq![input],
            FilterNode::MorphologyDilate { input, .. } => seq![input],
            FilterNode::MorphologyErode { input, .. } => seq![input],
            FilterNode::Crop { input, .. } => seq![input],
            FilterNode::Tile { input, .. } => seq![input],
            FilterNode::Composite { source, backdrop } => seq![source, backdrop],
            FilterNode::Blend { source, backdrop } => seq![source, backdrop],
            FilterNode::DisplacementMap { input, map } => seq![input, map],
            FilterNode::In { input, mask } => seq![input, mask],
        }
    }

    /// Whether every node it reads is one of the first `count`. A node whose input is not there writes nothing.
    pub open spec fn ready(self, count: int) -> bool {
        forall|i: int| 0 <= i < self.reads().len() ==> (#[trigger] self.reads()[i]) < count
    }

    fn asking(&self) -> (answer: bool)
        ensures
            answer == self.asks(),
    {
        match self {
            FilterNode::Source => false,
            FilterNode::Backdrop => false,
            FilterNode::Flood { .. } => false,
            FilterNode::MorphologyDilate { .. } => false,
            FilterNode::MorphologyErode { .. } => false,
            FilterNode::Crop { .. } => false,
            FilterNode::Tile { .. } => false,
            _ => true,
        }
    }

    fn inputs(&self) -> (list: Vec<u16>)
        ensures
            list@ == self.reads(),
    {
        let mut list: Vec<u16> = Vec::new();
        match self {
            FilterNode::Source | FilterNode::Backdrop | FilterNode::Image(_) | FilterNode::Flood { .. } => {},
            FilterNode::Blur { input } => list.push(*input),
            FilterNode::Offset { input } => list.push(*input),
            FilterNode::ColorMatrix { input } => list.push(*input),
            FilterNode::Convolution { input } => list.push(*input),
            FilterNode::MorphologyDilate { input, .. } => list.push(*input),
            FilterNode::MorphologyErode { input, .. } => list.push(*input),
            FilterNode::Crop { input, .. } => list.push(*input),
            FilterNode::Tile { input, .. } => list.push(*input),
            FilterNode::Composite { source, backdrop } => {
                list.push(*source);
                list.push(*backdrop);
            },
            FilterNode::Blend { source, backdrop } => {
                list.push(*source);
                list.push(*backdrop);
            },
            FilterNode::DisplacementMap { input, map } => {
                list.push(*input);
                list.push(*map);
            },
            FilterNode::In { input, mask } => {
                list.push(*input);
                list.push(*mask);
            },
        }
        assert(list@ =~= self.reads());
        list
    }
}

// ---------------------------------------------------------------------------------------------
// Wrapping, dilating and eroding.
// ---------------------------------------------------------------------------------------------
/// A remainder that is never negative.
pub fn wrap(value: i64, period: u32) -> (rest: u32)
    requires
        period > 0,
    ensures
        rest == value as int % period as int,
        rest < period,
{
    let size: i64 = period as i64;
    if value >= 0 {
        (value % size) as u32
    } else {
        let mirrored: i64 = -1 - value;
        let rest: i64 = mirrored % size;
        proof {
            lemma_fundamental_div_mod(mirrored as int, size as int);
            let quotient = mirrored as int / size as int;
            assert(value == (-1 - quotient) * size + (size - 1 - rest)) by (nonlinear_arith)
                requires
                    mirrored == -1 - value,
                    mirrored == size * quotient + rest,
            ;
            lemma_fundamental_div_mod_converse(value as int, size as int, -1 - quotient, size - 1 - rest);
        }
        (size - 1 - rest) as u32
    }
}

/// The larger of two numbers, or the smaller; the other where one is a NaN.
pub open spec fn picked(left: u32, right: u32, largest: bool) -> u32 {
    if largest {
        larger(left, right)
    } else {
        smaller(left, right)
    }
}

fn pick(left: u32, right: u32, largest: bool) -> (value: u32)
    ensures
        value == picked(left, right, largest),
{
    if largest {
        greater_of(left, right)
    } else {
        lesser_of(left, right)
    }
}

/// The same, channel by channel.
pub open spec fn picked_pixel(left: Rgba, right: Rgba, larger: bool) -> Rgba {
    [
        picked(left[0], right[0], larger),
        picked(left[1], right[1], larger),
        picked(left[2], right[2], larger),
        picked(left[3], right[3], larger),
    ]
}

/// A value picked against the pixels of a row from `x0` up to `x`.
pub open spec fn row_picked(sheet: Sheet, start: Rgba, y: int, x0: int, x: int, larger: bool) -> Rgba
    decreases x - x0,
{
    if x <= x0 {
        start
    } else {
        picked_pixel(row_picked(sheet, start, y, x0, x - 1, larger), sheet.at(x - 1, y), larger)
    }
}

/// A value picked against the pixels of the rows from `y0` up to `y`.
pub open spec fn rows_picked(
    sheet: Sheet,
    start: Rgba,
    x0: int,
    x1: int,
    y0: int,
    y: int,
    larger: bool,
) -> Rgba
    decreases y - y0,
{
    if y <= y0 {
        start
    } else {
        row_picked(
            sheet,
            rows_picked(sheet, start, x0, x1, y0, y - 1, larger),
            y - 1,
            x0,
            x1,
            larger,
        )
    }
}

/// A pixel dilated or eroded over a rectangle around it, itself first.
pub open spec fn spread(sheet: Sheet, x: int, y: int, reach_x: int, reach_y: int, larger: bool) -> Rgba {
    rows_picked(
        sheet,
        sheet.at(x, y),
        x - reach_x,
        x + reach_x + 1,
        y - reach_y,
        y + reach_y + 1,
        larger,
    )
}

fn tap_at(from: &Surface, x: i64, y: i64) -> (value: Rgba)
    requires
        from@.wf(),
    ensures
        value == from@.at(x as int, y as int),
{
    if x < 0 || y < 0 || x > 0xffff_ffff || y > 0xffff_ffff {
        // A surface reaches no further than twice the largest coordinate, and keeps nothing beyond the first.
        far_tap(from, x, y)
    } else {
        from.get(x as u32, y as u32)
    }
}

/// A pixel whose coordinates are no machine number of the target.
fn far_tap(from: &Surface, x: i64, y: i64) -> (value: Rgba)
    requires
        from@.wf(),
        x < 0 || y < 0 || x > 0xffff_ffff || y > 0xffff_ffff,
    ensures
        value == from@.at(x as int, y as int),
{
    if x < from.origin.0 as i64 || y < from.origin.1 as i64 {
        return TRANSPARENT;
    }
    let (local_x, local_y): (i64, i64) = (x - from.origin.0 as i64, y - from.origin.1 as i64);
    if local_x >= from.width as i64 || local_y >= from.height as i64 {
        return TRANSPARENT;
    }
    proof {
        cell_is_stored(local_x as int, local_y as int, from.width as int, from.height as int);
    }
    let count: usize = from.pixels.len();
    let index: usize = local_y as usize * from.width as usize + local_x as usize;
    from.pixels[index]
}

fn morphology_pixel(from: &Surface, x: u32, y: u32, reach_x: i64, reach_y: i64, larger: bool) -> (value: Rgba)
    requires
        from@.wf(),
        0 <= reach_x < 0x1000_0000_0000_0000,
        0 <= reach_y < 0x1000_0000_0000_0000,
    ensures
        value == spread(from@, x as int, y as int, reach_x as int, reach_y as int, larger),
{
    let mut value = from.get(x, y);
    let ghost start = value;
    let (x0, x1): (i64, i64) = (x as i64 - reach_x, x as i64 + reach_x + 1);
    let (y0, y1): (i64, i64) = (y as i64 - reach_y, y as i64 + reach_y + 1);
    let mut row: i64 = y0;
    while row < y1
        invariant
            y0 <= row <= y1,
            x0 <= x1,
            from@.wf(),
            value == rows_picked(from@, start, x0 as int, x1 as int, y0 as int, row as int, larger),
        decreases y1 - row,
    {
        let ghost held = value;
        let mut column: i64 = x0;
        while column < x1
            invariant
                x0 <= column <= x1,
                from@.wf(),
                value == row_picked(from@, held, row as int, x0 as int, column as int, larger),
            decreases x1 - column,
        {
            let tap = tap_at(from, column, row);
            value = [
                pick(value[0], tap[0], larger),
                pick(value[1], tap[1], larger),
                pick(value[2], tap[2], larger),
                pick(value[3], tap[3], larger),
            ];
            column = column + 1;
        }
        row = row + 1;
    }
    value
}

// ---------------------------------------------------------------------------------------------
// Evaluating a graph.
// ---------------------------------------------------------------------------------------------
/// What a graph is evaluated over.
pub ghost struct Scene {
    pub nodes: Seq<FilterNode>,
    pub source: Sheet,
    pub backdrop: Sheet,
    pub bounds: PixelRect,
    /// The size of the surfaces the nodes are evaluated in.
    pub width: u32,
    pub height: u32,
    /// What the caller computed, one block of the bounds per asking node in order.
    pub computed: Seq<Seq<Rgba>>,
}

// ---------------------------------------------------------------------------------------------
// Taps.
// ---------------------------------------------------------------------------------------------
/// A pixel of a surface by its place on it; one off the surface is transparent.
pub open spec fn tapped(pixels: Seq<Rgba>, stride: int, x: int, y: int) -> Rgba {
    if 0 <= x < stride && 0 <= y && y * stride + x < pixels.len() {
        pixels[y * stride + x]
    } else {
        TRANSPARENT
    }
}

/// A pixel of a surface that is `stride` pixels wide, by its place on it. A tap off the surface is transparent:
/// an edge is not smeared outward.
pub fn tap(pixels: &[Rgba], stride: u32, x: i64, y: i64) -> (value: Rgba)
    ensures
        value == tapped(pixels@, stride as int, x as int, y as int),
{
    wide_tap(pixels, stride, x as i128, y as i128)
}

fn wide_tap(pixels: &[Rgba], stride: u32, x: i128, y: i128) -> (value: Rgba)
    requires
        y <= 0x8000_0000_0000_0000,
    ensures
        value == tapped(pixels@, stride as int, x as int, y as int),
{
    if x < 0 || y < 0 || x >= stride as i128 {
        return TRANSPARENT;
    }
    assert(0 <= y * stride <= 0x8000_0000_0000_0000 * 0xffff_ffff) by (nonlinear_arith)
        requires
            0 <= y <= 0x8000_0000_0000_0000,
            0 <= stride <= 0xffff_ffff,
    ;
    let index: i128 = y * stride as i128 + x;
    if index < pixels.len() as i128 {
        pixels[index as usize]
    } else {
        TRANSPARENT
    }
}

/// What a three-by-three convolution reads around a pixel, row by row: the tap of a row and a column is as far
/// from the pixel as that weight is from the middle one.
pub fn nine_taps(pixels: &[Rgba], stride: u32, x: u32, y: u32) -> (taps: [[Rgba; 3]; 3])
    ensures
        forall|row: int, column: int|
            #![trigger taps[row][column]]
            0 <= row < 3 && 0 <= column < 3 ==> taps[row][column] == tapped(
                pixels@,
                stride as int,
                x + column - 1,
                y + row - 1,
            ),
{
    let (u, v): (i64, i64) = (x as i64, y as i64);
    let above: [Rgba; 3] = [
        tap(pixels, stride, u - 1, v - 1),
        tap(pixels, stride, u, v - 1),
        tap(pixels, stride, u + 1, v - 1),
    ];
    let level: [Rgba; 3] = [
        tap(pixels, stride, u - 1, v),
        tap(pixels, stride, u, v),
        tap(pixels, stride, u + 1, v),
    ];
    let below: [Rgba; 3] = [
        tap(pixels, stride, u - 1, v + 1),
        tap(pixels, stride, u, v + 1),
        tap(pixels, stride, u + 1, v + 1),
    ];
    [above, level, below]
}

/// The four cells a bilinear read mixes: the one its point is in, the next in the row, and the two under them.
pub fn four_cells(pixels: &[Rgba], stride: u32, x: i64, y: i64) -> (cells: [Rgba; 4])
    ensures
        cells[0] == tapped(pixels@, stride as int, x as int, y as int),
        cells[1] == tapped(pixels@, stride as int, x + 1, y as int),
        cells[2] == tapped(pixels@, stride as int, x as int, y + 1),
        cells[3] == tapped(pixels@, stride as int, x + 1, y + 1),
{
    let (right, under): (i128, i128) = (x as i128 + 1, y as i128 + 1);
    [
        tap(pixels, stride, x, y),
        wide_tap(pixels, stride, right, y as i128),
        wide_tap(pixels, stride, x as i128, under),
        wide_tap(pixels, stride, right, under),
    ]
}

/// A tap reads the surface it was taken of: a pixel of the target by its distance from the surface's corner.
pub proof fn a_tap_is_a_pixel(sheet: Sheet, x: int, y: int)
    requires
        sheet.wf(),
    ensures
        tapped(sheet.pixels, sheet.width as int, x - sheet.x, y - sheet.y) == sheet.at(x, y),
{
    let (u, v) = (x - sheet.x, y - sheet.y);
    let (width, height) = (sheet.width as int, sheet.height as int);
    if sheet.has(x, y) {
        cell_is_stored(u, v, width, height);
    } else if 0 <= u < width && v >= height {
        assert(v * width >= height * width) by (nonlinear_arith)
            requires
                v >= height,
                width >= 0,
        ;
        assert(width * height == height * width) by (nonlinear_arith);
    }
}

/// The input of a node, where it is there.
pub open spec fn read_at(prior: Seq<Sheet>, input: u16, x: int, y: int) -> Rgba {
    prior[input as int].at(x, y)
}

/// How many of the first `count` nodes asked the caller.
pub open spec fn asked(nodes: Seq<FilterNode>, count: nat) -> nat
    decreases count,
{
    if count == 0 {
        0
    } else {
        asked(nodes, (count - 1) as nat) + (if nodes[count - 1].asks() && nodes[count - 1].ready(count - 1) {
            1nat
        } else {
            0nat
        })
    }
}

impl Scene {
    /// The pixel of node `i` at a place of the bounds, from the nodes before it.
    pub open spec fn value(self, prior: Seq<Sheet>, i: int, x: int, y: int) -> Rgba {
        let node = self.nodes[i];
        if !node.ready(i) {
            TRANSPARENT
        } else {
            match node {
                FilterNode::Source => self.source.at(x, y),
                FilterNode::Backdrop => self.backdrop.at(x, y),
                FilterNode::Flood { colour } => colour,
                FilterNode::Crop { input, keep } => if keep.has(x, y) {
                    read_at(prior, input, x, y)
                } else {
                    TRANSPARENT
                },
                FilterNode::Tile { input, keep } => if keep.left < keep.right && keep.top < keep.bottom {
                    read_at(
                        prior,
                        input,
                        keep.left + (x - keep.left) % (keep.right - keep.left),
                        keep.top + (y - keep.top) % (keep.bottom - keep.top),
                    )
                } else {
                    TRANSPARENT
                },
                FilterNode::MorphologyDilate { input, reach_x, reach_y } => spread(
                    prior[input as int],
                    x,
                    y,
                    reach_x as int,
                    reach_y as int,
                    true,
                ),
                FilterNode::MorphologyErode { input, reach_x, reach_y } => spread(
                    prior[input as int],
                    x,
                    y,
                    reach_x as int,
                    reach_y as int,
                    false,
                ),
                _ => self.computed[asked(self.nodes, i as nat) as int][cell(
                    x - self.bounds.x,
                    y - self.bounds.y,
                    self.bounds.width as int,
                )],
            }
        }
    }

    /// The surface node `i` is evaluated into, from the nodes before it.
    pub open spec fn stage(self, prior: Seq<Sheet>, i: int) -> Sheet {
        let (width, height) = (self.width as int, self.height as int);
        Sheet {
            x: self.bounds.x,
            y: self.bounds.y,
            width: self.width,
            height: self.height,
            pixels: Seq::new(
                (width * height) as nat,
                |p: int|
                    {
                        let (x, y) = (self.bounds.x + p % width, self.bounds.y + p / width);
                        if self.bounds.has(x, y) {
                            self.value(prior, i, x, y)
                        } else {
                            TRANSPARENT
                        }
                    },
            ),
        }
    }

    /// The surfaces of the first `count` nodes, each from those before it.
    pub open spec fn stages(self, count: nat) -> Seq<Sheet>
        decreases count,
    {
        if count == 0 {
            Seq::empty()
        } else {
            let prior = self.stages((count - 1) as nat);
            prior.push(self.stage(prior, count - 1))
        }
    }

    /// Whether the caller has still to compute node `i`.
    pub open spec fn unanswered(self, i: int) -> bool {
        self.nodes[i].asks() && self.nodes[i].ready(i) && (asked(self.nodes, i as nat)
            >= self.computed.len() || self.computed[asked(self.nodes, i as nat) as int].len()
            != self.bounds.width * self.bounds.height)
    }

    /// Whether the reservation is used up at node `i`: every node takes a surface, and a blur takes another
    /// for its second pass.
    pub open spec fn short(self, available: int, i: int) -> bool {
        available <= i || (self.nodes[i] is Blur && available <= i + 1)
    }

    /// How far the graph gets, from node `from` on.
    pub open spec fn progress(self, available: int, from: nat) -> Progress
        decreases self.nodes.len() - from,
    {
        if from >= self.nodes.len() {
            Progress::Done
        } else if self.short(available, from as int) {
            Progress::Short
        } else if self.unanswered(from as int) {
            Progress::Waits(from as int)
        } else {
            self.progress(available, from + 1)
        }
    }
}

/// How far evaluating a graph got.
pub ghost enum Progress {
    Short,
    Waits(int),
    Done,
}

/// How far evaluating a graph got.
#[derive(Debug)]
pub enum Evaluation {
    /// The block of the bounds this node computes is needed; `inputs` are the pixels of the surfaces it reads.
    Pending { node: usize, inputs: Vec<Vec<Rgba>> },
    Finished(Surface),
}

/// Surfaces as mathematics.
pub open spec fn sheets(surfaces: Seq<Surface>) -> Seq<Sheet> {
    Seq::new(surfaces.len(), |i: int| surfaces[i]@)
}

/// Lists of pixels as mathematics.
pub open spec fn blocks(lists: Seq<Vec<Rgba>>) -> Seq<Seq<Rgba>> {
    Seq::new(lists.len(), |i: int| lists[i]@)
}

/// Whether the reach of every node is one a machine can walk.
pub open spec fn walkable(nodes: Seq<FilterNode>) -> bool {
    forall|i: int|
        0 <= i < nodes.len() ==> match #[trigger] nodes[i] {
            FilterNode::MorphologyDilate { reach_x, reach_y, .. } => 0 <= reach_x < 0x1000_0000_0000_0000
                && 0 <= reach_y < 0x1000_0000_0000_0000,
            FilterNode::MorphologyErode { reach_x, reach_y, .. } => 0 <= reach_x < 0x1000_0000_0000_0000
                && 0 <= reach_y < 0x1000_0000_0000_0000,
            _ => true,
        }
}

fn give_back(pool: &mut Pool, results: Vec<Surface>)
    requires
        old(pool).wf(),
        forall|i: int| 0 <= i < results@.len() ==> old(pool).fits(#[trigger] results@[i]),
    ensures
        final(pool).wf(),
        final(pool).extent == old(pool).extent,
        final(pool).free@.len() == old(pool).free@.len() + results@.len(),
{
    let mut held = results;
    let ghost extent = pool.extent;
    while held.len() > 0
        invariant
            pool.wf(),
            pool.extent == extent,
            extent == old(pool).extent,
            pool.free@.len() + held@.len() == old(pool).free@.len() + results@.len(),
            forall|i: int| 0 <= i < held@.len() ==> pool.fits(#[trigger] held@[i]),
        decreases held@.len(),
    {
        if let Some(surface) = held.pop() {
            pool.give(surface);
        }
    }
}

fn copy_pixels(pixels: &Vec<Rgba>) -> (copy: Vec<Rgba>)
    ensures
        copy@ == pixels@,
{
    let mut copy: Vec<Rgba> = Vec::new();
    let mut next: usize = 0;
    while next < pixels.len()
        invariant
            next <= pixels@.len(),
            copy@ == pixels@.take(next as int),
        decreases pixels@.len() - next,
    {
        copy.push(pixels[next]);
        next = next + 1;
        assert(copy@ =~= pixels@.take(next as int));
    }
    assert(pixels@.take(pixels@.len() as int) =~= pixels@);
    copy
}

fn is_ready(node: &FilterNode, count: usize) -> (ready: bool)
    ensures
        ready == node.ready(count as int),
{
    let list = node.inputs();
    let mut next: usize = 0;
    while next < list.len()
        invariant
            next <= list@.len(),
            list@ == node.reads(),
            forall|i: int| 0 <= i < next ==> (#[trigger] node.reads()[i]) < count,
        decreases list@.len() - next,
    {
        if list[next] as usize >= count {
            assert(node.reads()[next as int] >= count);
            return false;
        }
        next = next + 1;
    }
    true
}

fn gather(node: &FilterNode, results: &Vec<Surface>) -> (inputs: Vec<Vec<Rgba>>)
    requires
        node.ready(results@.len() as int),
    ensures
        inputs@.len() == node.reads().len(),
        forall|i: int|
            0 <= i < inputs@.len() ==> (#[trigger] inputs@[i])@ == results@[node.reads()[i] as int]@.pixels,
{
    let list = node.inputs();
    let mut inputs: Vec<Vec<Rgba>> = Vec::new();
    let mut next: usize = 0;
    while next < list.len()
        invariant
            next <= list@.len(),
            list@ == node.reads(),
            node.ready(results@.len() as int),
            inputs@.len() == next,
            forall|i: int|
                0 <= i < next ==> (#[trigger] inputs@[i])@ == results@[node.reads()[i] as int]@.pixels,
        decreases list@.len() - next,
    {
        assert(node.reads()[next as int] < results@.len());
        inputs.push(copy_pixels(&results[list[next] as usize].pixels));
        next = next + 1;
    }
    inputs
}

/// One pixel of a node.
fn node_pixel(
    scene: Ghost<Scene>,
    node: &FilterNode,
    ready: bool,
    source: &Surface,
    backdrop: &Surface,
    bounds: PixelRect,
    results: &Vec<Surface>,
    block: Option<&Vec<Rgba>>,
    x: u32,
    y: u32,
) -> (value: Rgba)
    requires
        source@.wf(),
        backdrop@.wf(),
        scene@.source == source@,
        scene@.backdrop == backdrop@,
        scene@.bounds == bounds,
        results@.len() < scene@.nodes.len(),
        scene@.nodes[results@.len() as int] == *node,
        walkable(scene@.nodes),
        ready == node.ready(results@.len() as int),
        bounds.has(x as int, y as int),
        forall|i: int| 0 <= i < results@.len() ==> (#[trigger] results@[i])@.wf(),
        node.asks() && ready ==> block is Some && block->Some_0@ == scene@.computed[asked(
            scene@.nodes,
            results@.len(),
        ) as int] && block->Some_0@.len() == bounds.width * bounds.height,
    ensures
        value == scene@.value(sheets(results@), results@.len() as int, x as int, y as int),
{
    if !ready {
        return TRANSPARENT;
    }
    proof {
        assert forall|i: int| 0 <= i < node.reads().len() implies (#[trigger] node.reads()[i])
            < results@.len() by {}
    }
    match node {
        FilterNode::Source => source.get(x, y),
        FilterNode::Backdrop => backdrop.get(x, y),
        FilterNode::Flood { colour } => *colour,
        FilterNode::Crop { input, keep } => {
            assert(node.reads()[0] == *input);
            if x >= keep.left && y >= keep.top && x < keep.right && y < keep.bottom {
                results[*input as usize].get(x, y)
            } else {
                TRANSPARENT
            }
        },
        FilterNode::Tile { input, keep } => {
            assert(node.reads()[0] == *input);
            if keep.left < keep.right && keep.top < keep.bottom {
                let tile_x: u32 = keep.left + wrap(x as i64 - keep.left as i64, keep.right - keep.left);
                let tile_y: u32 = keep.top + wrap(y as i64 - keep.top as i64, keep.bottom - keep.top);
                results[*input as usize].get(tile_x, tile_y)
            } else {
                TRANSPARENT
            }
        },
        FilterNode::MorphologyDilate { input, reach_x, reach_y } => {
            assert(node.reads()[0] == *input);
            morphology_pixel(&results[*input as usize], x, y, *reach_x, *reach_y, true)
        },
        FilterNode::MorphologyErode { input, reach_x, reach_y } => {
            assert(node.reads()[0] == *input);
            morphology_pixel(&results[*input as usize], x, y, *reach_x, *reach_y, false)
        },
        _ => {
            assert(node.asks());
            match block {
                Some(found) => {
                    proof {
                        cell_is_stored(
                            x - bounds.x,
                            y - bounds.y,
                            bounds.width as int,
                            bounds.height as int,
                        );
                    }
                    let count: usize = found.len();
                    let (local_x, local_y): (u32, u32) = (x - bounds.x, y - bounds.y);
                    let index: usize = local_y as usize * bounds.width as usize + local_x as usize;
                    found[index]
                },
                None => TRANSPARENT,
            }
        },
    }
}

/// Evaluate one node into a cleared surface.
fn fill_node(
    scene: Ghost<Scene>,
    node: &FilterNode,
    source: &Surface,
    backdrop: &Surface,
    bounds: PixelRect,
    results: &Vec<Surface>,
    block: Option<&Vec<Rgba>>,
    into: &mut Surface,
)
    requires
        source@.wf(),
        backdrop@.wf(),
        scene@.source == source@,
        scene@.backdrop == backdrop@,
        scene@.bounds == bounds,
        bounds.x + bounds.width <= u32::MAX,
        bounds.y + bounds.height <= u32::MAX,
        results@.len() < scene@.nodes.len(),
        scene@.nodes[results@.len() as int] == *node,
        walkable(scene@.nodes),
        forall|i: int| 0 <= i < results@.len() ==> (#[trigger] results@[i])@.wf(),
        node.asks() && node.ready(results@.len() as int) ==> block is Some && block->Some_0@
            == scene@.computed[asked(scene@.nodes, results@.len()) as int] && block->Some_0@.len()
            == bounds.width * bounds.height,
        old(into)@.wf(),
        old(into)@.x == bounds.x && old(into)@.y == bounds.y,
        old(into)@.width == scene@.width && old(into)@.height == scene@.height,
        scene@.width >= 1,
        old(into)@.pixels == Seq::new(old(into)@.pixels.len(), |i: int| TRANSPARENT),
    ensures
        final(into)@ == scene@.stage(sheets(results@), results@.len() as int),
        final(into)@.wf(),
{
    let ready = is_ready(node, results.len());
    let (right, bottom): (u32, u32) = (bounds.x + bounds.width, bounds.y + bounds.height);
    let ghost prior = sheets(results@);
    let ghost index = results@.len() as int;
    let ghost start = into@;
    assert forall|u: int, v: int| start.has(u, v) implies #[trigger] start.at(u, v) == TRANSPARENT by {
        cell_is_stored(u - start.x, v - start.y, start.width as int, start.height as int);
    }
    let mut y: u32 = bounds.y;
    while y < bottom
        invariant
            bounds.y <= y <= bottom,
            right == bounds.x + bounds.width,
            bottom == bounds.y + bounds.height,
            source@.wf(),
            backdrop@.wf(),
            scene@.source == source@,
            scene@.backdrop == backdrop@,
            scene@.bounds == bounds,
            results@.len() < scene@.nodes.len(),
            scene@.nodes[results@.len() as int] == *node,
            walkable(scene@.nodes),
            ready == node.ready(results@.len() as int),
            prior == sheets(results@),
            index == results@.len(),
            forall|i: int| 0 <= i < results@.len() ==> (#[trigger] results@[i])@.wf(),
            node.asks() && ready ==> block is Some && block->Some_0@ == scene@.computed[asked(
                scene@.nodes,
                results@.len(),
            ) as int] && block->Some_0@.len() == bounds.width * bounds.height,
            into@.wf(),
            into@.same_place(start),
            forall|u: int, v: int|
                start.has(u, v) ==> #[trigger] into@.at(u, v) == (if bounds.has(u, v) && v < y {
                    scene@.value(prior, index, u, v)
                } else {
                    TRANSPARENT
                }),
        decreases bottom - y,
    {
        let mut x: u32 = bounds.x;
        while x < right
            invariant
                bounds.x <= x <= right,
                bounds.y <= y < bottom,
                right == bounds.x + bounds.width,
                bottom == bounds.y + bounds.height,
                source@.wf(),
                backdrop@.wf(),
                scene@.source == source@,
                scene@.backdrop == backdrop@,
                scene@.bounds == bounds,
                results@.len() < scene@.nodes.len(),
                scene@.nodes[results@.len() as int] == *node,
                walkable(scene@.nodes),
                ready == node.ready(results@.len() as int),
                prior == sheets(results@),
                index == results@.len(),
                forall|i: int| 0 <= i < results@.len() ==> (#[trigger] results@[i])@.wf(),
                node.asks() && ready ==> block is Some && block->Some_0@ == scene@.computed[asked(
                    scene@.nodes,
                    results@.len(),
                ) as int] && block->Some_0@.len() == bounds.width * bounds.height,
                into@.wf(),
                into@.same_place(start),
                forall|u: int, v: int|
                    start.has(u, v) ==> #[trigger] into@.at(u, v) == (if bounds.has(u, v) && (v < y || (v
                        == y && u < x)) {
                        scene@.value(prior, index, u, v)
                    } else {
                        TRANSPARENT
                    }),
            decreases right - x,
        {
            let value = node_pixel(scene, node, ready, source, backdrop, bounds, results, block, x, y);
            let ghost before = into@;
            into.set(x, y, value);
            assert forall|u: int, v: int| start.has(u, v) implies #[trigger] into@.at(u, v) == (if bounds.has(
                u,
                v,
            ) && (v < y || (v == y && u < x + 1)) {
                scene@.value(prior, index, u, v)
            } else {
                TRANSPARENT
            }) by {
                setting_sets_one(before, x as int, y as int, value, u, v);
            }
            x = x + 1;
        }
        y = y + 1;
    }
    proof {
        let stage = scene@.stage(prior, index);
        let (w, h) = (into@.width as int, into@.height as int);
        assert forall|p: int| 0 <= p < w * h implies #[trigger] into@.pixels[p] == stage.pixels[p] by {
            every_index_is_a_cell(p, w, h);
            let (u, v) = (bounds.x + p % w, bounds.y + p / w);
            assert(start.has(u, v));
            assert(into@.index(u, v) == p);
            assert(into@.at(u, v) == into@.pixels[p]);
        }
        assert(into@.pixels =~= stage.pixels);
    }
}

/// Evaluate a graph over a source, in surfaces of a pool, into one covering the bounds. A graph of no node
/// gives nothing to evaluate. Whatever happens, every surface but the finished one is back in the pool.
pub fn evaluate(
    nodes: &[FilterNode],
    source: &Surface,
    backdrop: &Surface,
    bounds: PixelRect,
    pool: &mut Pool,
    computed: &[Vec<Rgba>],
    ceiling: u64,
) -> (outcome: Result<Evaluation, Error>)
    requires
        old(pool).wf(),
        source@.wf(),
        backdrop@.wf(),
        walkable(nodes@),
        bounds.x + bounds.width <= u32::MAX,
        bounds.y + bounds.height <= u32::MAX,
        bounds.width * bounds.height <= u32::MAX,
    ensures
        ({
            let scene = Scene {
                nodes: nodes@,
                source: source@,
                backdrop: backdrop@,
                bounds,
                width: side(old(pool).extent.0),
                height: side(old(pool).extent.1),
                computed: blocks(computed@),
            };
            let progress = scene.progress(old(pool).free@.len() as int, 0);
            &&& final(pool).wf()
            &&& final(pool).extent == old(pool).extent
            &&& match outcome {
                Err(error) => final(pool).free@.len() == old(pool).free@.len() && if nodes@.len() == 0 {
                    error == Error::Allocation
                } else {
                    progress == Progress::Short && error == (Error::LimitExceeded {
                        limit: Limit::PreparedScratch,
                        ceiling,
                    })
                },
                Ok(Evaluation::Pending { node, inputs }) => {
                    &&& progress == Progress::Waits(node as int)
                    &&& node < nodes@.len()
                    &&& final(pool).free@.len() == old(pool).free@.len()
                    &&& inputs@.len() == nodes@[node as int].reads().len()
                    &&& forall|i: int|
                        0 <= i < inputs@.len() ==> (#[trigger] inputs@[i])@ == scene.stages(
                            node as nat,
                        )[nodes@[node as int].reads()[i] as int].pixels
                },
                Ok(Evaluation::Finished(surface)) => {
                    &&& nodes@.len() > 0
                    &&& progress == Progress::Done
                    &&& surface@ == scene.stages(nodes@.len()).last()
                    &&& old(pool).fits(surface)
                    &&& final(pool).free@.len() == old(pool).free@.len() - 1
                },
            }
        }),
{
    let scene: Ghost<Scene> = Ghost(
        Scene {
            nodes: nodes@,
            source: source@,
            backdrop: backdrop@,
            bounds,
            width: side(pool.extent.0),
            height: side(pool.extent.1),
            computed: blocks(computed@),
        },
    );
    if nodes.len() == 0 {
        return Err(Error::Allocation);
    }
    let ghost available = pool.free@.len() as int;
    let mut results: Vec<Surface> = Vec::new();
    let mut used: usize = 0;
    let mut next: usize = 0;
    assert(sheets(results@) =~= scene@.stages(0));
    while next < nodes.len()
        invariant
            next <= nodes@.len(),
            nodes@.len() > 0,
            next == results@.len(),
            pool.wf(),
            pool.extent == old(pool).extent,
            available == old(pool).free@.len(),
            pool.free@.len() + results@.len() == available,
            source@.wf(),
            backdrop@.wf(),
            walkable(nodes@),
            bounds.x + bounds.width <= u32::MAX,
            bounds.y + bounds.height <= u32::MAX,
            bounds.width * bounds.height <= u32::MAX,
            scene@ == (Scene {
                nodes: nodes@,
                source: source@,
                backdrop: backdrop@,
                bounds,
                width: side(old(pool).extent.0),
                height: side(old(pool).extent.1),
                computed: blocks(computed@),
            }),
            used == asked(nodes@, next as nat),
            used <= next,
            sheets(results@) == scene@.stages(next as nat),
            forall|i: int| 0 <= i < results@.len() ==> pool.fits(#[trigger] results@[i]),
            scene@.progress(available, 0) == scene@.progress(available, next as nat),
        decreases nodes@.len() - next,
    {
        let node = nodes[next];
        let taken = pool.take(bounds);
        let mut into = match taken {
            None => {
                give_back(pool, results);
                return Err(Error::LimitExceeded { limit: Limit::PreparedScratch, ceiling });
            },
            Some(surface) => surface,
        };
        let blurs = matches!(node, FilterNode::Blur { .. });
        if blurs && pool.available() == 0 {
            pool.give(into);
            give_back(pool, results);
            return Err(Error::LimitExceeded { limit: Limit::PreparedScratch, ceiling });
        }
        let ready = is_ready(&node, next);
        let asks = node.asking() && ready;
        let (wide, high): (u32, u32) = (bounds.width, bounds.height);
        assert(0 <= wide * high) by (nonlinear_arith);
        let count: u32 = wide * high;
        if asks && (used >= computed.len() || computed[used].len() != count as usize) {
            proof {
                if used < computed@.len() {
                    assert(blocks(computed@)[used as int] == computed@[used as int]@);
                }
                assert(scene@.unanswered(next as int));
            }
            let inputs = gather(&node, &results);
            assert forall|i: int| 0 <= i < inputs@.len() implies (#[trigger] inputs@[i])@ == scene@.stages(
                next as nat,
            )[node.reads()[i] as int].pixels by {
                assert(node.reads()[i] < results@.len());
                assert(sheets(results@)[node.reads()[i] as int] == results@[node.reads()[i] as int]@);
            }
            pool.give(into);
            give_back(pool, results);
            return Ok(Evaluation::Pending { node: next, inputs });
        }
        let block: Option<&Vec<Rgba>> = if asks {
            Some(&computed[used])
        } else {
            None
        };
        proof {
            if asks {
                assert(blocks(computed@)[used as int] == computed@[used as int]@);
            }
            assert(!scene@.unanswered(next as int));
            assert forall|i: int| 0 <= i < results@.len() implies (#[trigger] results@[i])@.wf() by {
                assert(pool.fits(results@[i]));
            }
        }
        let ghost fitting = into@;
        fill_node(scene, &node, source, backdrop, bounds, &results, block, &mut into);
        if asks {
            used = used + 1;
        }
        let ghost before = results@;
        results.push(into);
        proof {
            assert(sheets(results@) =~= sheets(before).push(into@));
            assert(scene@.stages((next + 1) as nat) == scene@.stages(next as nat).push(
                scene@.stage(scene@.stages(next as nat), next as int),
            ));
        }
        next = next + 1;
    }
    let last = results.pop();
    match last {
        Some(surface) => {
            assert(sheets(results@.push(surface))[results@.len() as int] == surface@);
            give_back(pool, results);
            Ok(Evaluation::Finished(surface))
        },
        None => Err(Error::Allocation),
    }
}

// ---------------------------------------------------------------------------------------------
// The taps of a separable blur.
// ---------------------------------------------------------------------------------------------
/// Which taps of a kernel fall on a run of pixels.
#[derive(Clone, Copy, PartialEq, Eq, Structural, Debug)]
pub struct Taps {
    /// The first tap that does, and the one past the last.
    pub first: usize,
    pub last: usize,
    /// The pixel the first of them falls on.
    pub pixel: usize,
}

/// How far a blur reaches, from its deviation and three times that rounded up: none where the deviation is not a
/// finite number above nothing, and then it changes nothing. It is one pixel at least, and no more than the limit.
pub fn kernel_radius(deviation: u32, reach: u32, limit: u32) -> (radius: Option<i64>)
    requires
        finite(limit),
    ensures
        radius == (if finite(deviation) && below(0, deviation) {
            Some(between(i64::MIN as int, floored(larger(smaller(reach, limit), ONE)), i64::MAX as int) as i64)
        } else {
            None
        }),
{
    if is_finite(deviation) && less(0, deviation) {
        let held: u32 = greater_of(lesser_of(reach, limit), ONE);
        assert(finite(larger(smaller(reach, limit), ONE)));
        Some(floor_wide(held))
    } else {
        None
    }
}

/// What a convolution is divided by: what it states, the sum of its weights where it states nothing, and one where
/// they cancel.
pub fn divided_by(stated: u32, sum: u32) -> (divisor: u32)
    ensures
        divisor == (if !same(stated, 0) {
            stated
        } else if !same(sum, 0) {
            sum
        } else {
            ONE
        }),
{
    if !equal(stated, 0) {
        stated
    } else if !equal(sum, 0) {
        sum
    } else {
        ONE
    }
}

/// Which taps of a kernel of `taps` weights, centred on a pixel of a run, fall on the run: outside it a blur
/// reads nothing.
pub fn taps_on(at: usize, length: usize, taps: usize) -> (used: Taps)
    requires
        at < length,
        taps % 2 == 1,
        length <= i64::MAX,
        taps <= i64::MAX,
    ensures
        ({
            let reach = (taps - 1) / 2;
            &&& used.first <= used.last <= taps
            &&& forall|i: int|
                0 <= i < taps ==> (used.first <= i < used.last <==> 0 <= #[trigger] (at + i - reach)
                    < length)
            &&& used.first < used.last ==> used.pixel == at + used.first - reach
            &&& reach <= at && at + reach < length ==> used.first == 0 && used.last == taps
        }),
{
    let reach: usize = (taps - 1) / 2;
    let first: usize = if at < reach {
        reach - at
    } else {
        0
    };
    let room: usize = length - at;
    let last: usize = if room > taps - reach {
        taps
    } else {
        room + reach
    };
    let pixel: usize = if at < reach {
        0
    } else {
        at - reach
    };
    Taps { first, last, pixel }
}

// ---------------------------------------------------------------------------------------------
// Laws.
// ---------------------------------------------------------------------------------------------
/// A tiled input repeats: pixels a whole period apart are the same.
pub proof fn a_tiled_input_repeats(scene: Scene, prior: Seq<Sheet>, i: int, x: int, y: int, keep: Keep, input: u16)
    requires
        scene.nodes[i] == (FilterNode::Tile { input, keep }),
        keep.left < keep.right,
        keep.top < keep.bottom,
    ensures
        scene.value(prior, i, x, y) == scene.value(prior, i, x + (keep.right - keep.left), y),
        scene.value(prior, i, x, y) == scene.value(prior, i, x, y + (keep.bottom - keep.top)),
{
    vstd::arithmetic::div_mod::lemma_mod_add_multiples_vanish(x - keep.left, keep.right - keep.left);
    vstd::arithmetic::div_mod::lemma_mod_add_multiples_vanish(y - keep.top, keep.bottom - keep.top);
    assert(keep.right - keep.left + (x - keep.left) == x + (keep.right - keep.left) - keep.left);
    assert(keep.bottom - keep.top + (y - keep.top) == y + (keep.bottom - keep.top) - keep.top);
}

/// The tile that lands on the rectangle is the rectangle.
pub proof fn a_tile_is_itself_in_place(scene: Scene, prior: Seq<Sheet>, i: int, x: int, y: int, keep: Keep, input: u16)
    requires
        scene.nodes[i] == (FilterNode::Tile { input, keep }),
        keep.has(x, y),
        scene.nodes[i].ready(i),
    ensures
        scene.value(prior, i, x, y) == read_at(prior, input, x, y),
{
    vstd::arithmetic::div_mod::lemma_small_mod((x - keep.left) as nat, (keep.right - keep.left) as nat);
    vstd::arithmetic::div_mod::lemma_small_mod((y - keep.top) as nat, (keep.bottom - keep.top) as nat);
}

/// Whether a value is past another, or as far: not below it where the larger is wanted, not above it otherwise.
pub open spec fn outdoes(value: u32, other: u32, larger: bool) -> bool {
    if larger {
        number(value) >= number(other)
    } else {
        number(value) <= number(other)
    }
}

proof fn picking_outdoes_both(left: u32, right: u32, larger: bool)
    requires
        !nan(left) && !nan(right),
    ensures
        ({
            let value = picked(left, right, larger);
            &&& !nan(value)
            &&& outdoes(value, left, larger) && outdoes(value, right, larger)
            &&& value == left || value == right
        }),
{
    extremes_are_by_number(left, right);
}

proof fn a_row_is_outdone(sheet: Sheet, start: Rgba, y: int, x0: int, x: int, larger: bool, channel: int)
    requires
        0 <= channel < 4,
        !nan(start[channel]),
        forall|u: int| x0 <= u < x ==> !nan(#[trigger] sheet.at(u, y)[channel]),
    ensures
        ({
            let value = row_picked(sheet, start, y, x0, x, larger)[channel];
            &&& !nan(value)
            &&& outdoes(value, start[channel], larger)
            &&& forall|u: int| x0 <= u < x ==> outdoes(value, #[trigger] sheet.at(u, y)[channel], larger)
            &&& value == start[channel] || exists|u: int|
                x0 <= u < x && value == #[trigger] sheet.at(u, y)[channel]
        }),
    decreases x - x0,
{
    if x > x0 {
        a_row_is_outdone(sheet, start, y, x0, x - 1, larger, channel);
        let before = row_picked(sheet, start, y, x0, x - 1, larger);
        let here = sheet.at(x - 1, y);
        picking_outdoes_both(before[channel], here[channel], larger);
        assert(row_picked(sheet, start, y, x0, x, larger)[channel] == picked(
            before[channel],
            here[channel],
            larger,
        ));
    }
}

proof fn rows_are_outdone(
    sheet: Sheet,
    start: Rgba,
    x0: int,
    x1: int,
    y0: int,
    y: int,
    larger: bool,
    channel: int,
)
    requires
        0 <= channel < 4,
        !nan(start[channel]),
        forall|u: int, v: int| x0 <= u < x1 && y0 <= v < y ==> !nan(#[trigger] sheet.at(u, v)[channel]),
    ensures
        ({
            let value = rows_picked(sheet, start, x0, x1, y0, y, larger)[channel];
            &&& !nan(value)
            &&& outdoes(value, start[channel], larger)
            &&& forall|u: int, v: int|
                x0 <= u < x1 && y0 <= v < y ==> outdoes(value, #[trigger] sheet.at(u, v)[channel], larger)
            &&& value == start[channel] || exists|u: int, v: int|
                x0 <= u < x1 && y0 <= v < y && value == #[trigger] sheet.at(u, v)[channel]
        }),
    decreases y - y0,
{
    if y > y0 {
        rows_are_outdone(sheet, start, x0, x1, y0, y - 1, larger, channel);
        let before = rows_picked(sheet, start, x0, x1, y0, y - 1, larger);
        a_row_is_outdone(sheet, before, y - 1, x0, x1, larger, channel);
    }
}

/// Whether no number within reach of a pixel fails to be one.
pub open spec fn numbers_within(
    sheet: Sheet,
    x: int,
    y: int,
    reach_x: int,
    reach_y: int,
    channel: int,
) -> bool {
    forall|u: int, v: int|
        x - reach_x <= u <= x + reach_x && y - reach_y <= v <= y + reach_y ==> !nan(
            #[trigger] sheet.at(u, v)[channel],
        )
}

/// A dilated pixel is, channel by channel, the largest of the input's pixels no more columns and no more rows away than
/// the reach of each axis, and an eroded one the smallest: it is past none of them and it is one of them.
pub proof fn morphology_takes_the_extreme_within_reach(
    scene: Scene,
    prior: Seq<Sheet>,
    i: int,
    x: int,
    y: int,
    channel: int,
    u: int,
    v: int,
)
    requires
        scene.nodes[i] is MorphologyDilate || scene.nodes[i] is MorphologyErode,
        scene.nodes[i].ready(i),
        0 <= channel < 4,
        ({
            let (input, reach_x, reach_y) = match scene.nodes[i] {
                FilterNode::MorphologyDilate { input, reach_x, reach_y } => (input, reach_x, reach_y),
                FilterNode::MorphologyErode { input, reach_x, reach_y } => (input, reach_x, reach_y),
                _ => (0u16, 0i64, 0i64),
            };
            &&& 0 <= reach_x && 0 <= reach_y
            &&& numbers_within(prior[input as int], x, y, reach_x as int, reach_y as int, channel)
            &&& x - reach_x <= u <= x + reach_x
            &&& y - reach_y <= v <= y + reach_y
        }),
    ensures
        ({
            let value = scene.value(prior, i, x, y)[channel];
            match scene.nodes[i] {
                FilterNode::MorphologyDilate { input, reach_x, reach_y } => {
                    &&& number(value) >= number(prior[input as int].at(u, v)[channel])
                    &&& exists|c: int, r: int|
                        x - reach_x <= c <= x + reach_x && y - reach_y <= r <= y + reach_y && value
                            == #[trigger] prior[input as int].at(c, r)[channel]
                },
                FilterNode::MorphologyErode { input, reach_x, reach_y } => {
                    &&& number(value) <= number(prior[input as int].at(u, v)[channel])
                    &&& exists|c: int, r: int|
                        x - reach_x <= c <= x + reach_x && y - reach_y <= r <= y + reach_y && value
                            == #[trigger] prior[input as int].at(c, r)[channel]
                },
                _ => true,
            }
        }),
{
    let (input, reach_x, reach_y, larger) = match scene.nodes[i] {
        FilterNode::MorphologyDilate { input, reach_x, reach_y } => (input, reach_x as int, reach_y as int, true),
        FilterNode::MorphologyErode { input, reach_x, reach_y } => (input, reach_x as int, reach_y as int, false),
        _ => (0u16, 0int, 0int, false),
    };
    let sheet = prior[input as int];
    let here = sheet.at(x, y)[channel];
    assert(!nan(here));
    rows_are_outdone(
        sheet,
        sheet.at(x, y),
        x - reach_x,
        x + reach_x + 1,
        y - reach_y,
        y + reach_y + 1,
        larger,
        channel,
    );
    let value = scene.value(prior, i, x, y)[channel];
    assert(outdoes(value, sheet.at(u, v)[channel], larger));
    if value == here {
        assert(value == sheet.at(x, y)[channel]);
    }
}

/// The source is the layer and the backdrop what is under it, pixel for pixel; a flood is its colour everywhere; a crop
/// is its input inside the rectangle and nothing outside it; a node whose input is not there is nothing everywhere.
pub proof fn plain_nodes_are_by_pixel(scene: Scene, prior: Seq<Sheet>, i: int, x: int, y: int)
    ensures
        scene.nodes[i] is Source ==> scene.value(prior, i, x, y) == scene.source.at(x, y),
        scene.nodes[i] is Backdrop ==> scene.value(prior, i, x, y) == scene.backdrop.at(x, y),
        scene.nodes[i] matches FilterNode::Flood { colour } ==> scene.value(prior, i, x, y) == colour,
        scene.nodes[i] matches FilterNode::Crop { input, keep } ==> scene.value(prior, i, x, y) == if input < i
            && keep.left <= x < keep.right && keep.top <= y < keep.bottom {
            prior[input as int].at(x, y)
        } else {
            [0u32, 0, 0, 0]
        },
{
    if let FilterNode::Crop { input, keep } = scene.nodes[i] {
        assert(scene.nodes[i].reads()[0] == input);
    }
}

/// A node the caller computes has, at a pixel of the bounds, the value given for it: the blocks are in the order of the
/// nodes that ask, and a block is row by row from the corner of the bounds.
pub proof fn a_computed_node_is_its_block(scene: Scene, prior: Seq<Sheet>, i: int, x: int, y: int)
    requires
        0 <= i < scene.nodes.len(),
        scene.nodes[i].asks(),
        scene.nodes[i].ready(i),
        scene.bounds.has(x, y),
    ensures
        scene.value(prior, i, x, y) == scene.computed[asked(scene.nodes, i as nat) as int][(y - scene.bounds.y)
            * scene.bounds.width + (x - scene.bounds.x)],
        asked(scene.nodes, (i + 1) as nat) == asked(scene.nodes, i as nat) + 1,
        asked(scene.nodes, 0) == 0,
{
}

/// A node that needs nothing computed leaves the count of those that do.
pub proof fn a_plain_node_takes_no_block(scene: Scene, i: int)
    requires
        0 <= i < scene.nodes.len(),
        !scene.nodes[i].asks() || !scene.nodes[i].ready(i),
    ensures
        asked(scene.nodes, (i + 1) as nat) == asked(scene.nodes, i as nat),
{
}

/// What a node is computed from, in order: what is drawn before what it is drawn on, the picture before its mask or its
/// map. Only the nodes that copy, crop, tile, flood or spread need nothing computed.
pub proof fn a_node_reads_its_inputs_in_order(input: u16, other: u16, keep: Keep, reach: i64, image: u32, colour: Rgba)
    ensures
        (FilterNode::Blur { input }).reads() =~= seq![input],
        (FilterNode::Offset { input }).reads() =~= seq![input],
        (FilterNode::ColorMatrix { input }).reads() =~= seq![input],
        (FilterNode::Convolution { input }).reads() =~= seq![input],
        (FilterNode::Composite { source: input, backdrop: other }).reads() =~= seq![input, other],
        (FilterNode::Blend { source: input, backdrop: other }).reads() =~= seq![input, other],
        (FilterNode::DisplacementMap { input, map: other }).reads() =~= seq![input, other],
        (FilterNode::In { input, mask: other }).reads() =~= seq![input, other],
        (FilterNode::Blur { input }).asks() && (FilterNode::Offset { input }).asks() && (FilterNode::ColorMatrix {
            input,
        }).asks() && (FilterNode::Convolution { input }).asks() && (FilterNode::Composite {
            source: input,
            backdrop: other,
        }).asks() && (FilterNode::Blend { source: input, backdrop: other }).asks() && (FilterNode::DisplacementMap {
            input,
            map: other,
        }).asks() && (FilterNode::In { input, mask: other }).asks() && FilterNode::Image(image).asks(),
        !FilterNode::Source.asks() && !FilterNode::Backdrop.asks() && !(FilterNode::Flood { colour }).asks() && !(
        FilterNode::Crop { input, keep }).asks() && !(FilterNode::Tile { input, keep }).asks() && !(
        FilterNode::MorphologyDilate { input, reach_x: reach, reach_y: reach }).asks() && !(
        FilterNode::MorphologyErode { input, reach_x: reach, reach_y: reach }).asks(),
{
}

/// A tiled pixel is its input's a whole number of periods away, inside the rectangle.
pub proof fn a_tiled_pixel_is_a_whole_number_of_periods_away(
    scene: Scene,
    prior: Seq<Sheet>,
    i: int,
    x: int,
    y: int,
    keep: Keep,
    input: u16,
)
    requires
        scene.nodes[i] == (FilterNode::Tile { input, keep }),
        scene.nodes[i].ready(i),
        keep.left < keep.right,
        keep.top < keep.bottom,
    ensures
        exists|across: int, down: int|
            {
                let (u, v) = (
                    x + #[trigger] (across * (keep.right - keep.left)),
                    y + #[trigger] (down * (keep.bottom - keep.top)),
                );
                &&& keep.left <= u < keep.right && keep.top <= v < keep.bottom
                &&& scene.value(prior, i, x, y) == prior[input as int].at(u, v)
            },
{
    let (w, h) = (keep.right - keep.left, keep.bottom - keep.top);
    lemma_fundamental_div_mod(x - keep.left, w);
    lemma_fundamental_div_mod(y - keep.top, h);
    let (across, down) = (-((x - keep.left) / w), -((y - keep.top) / h));
    assert(x + across * w == keep.left + (x - keep.left) % w) by (nonlinear_arith)
        requires
            x - keep.left == w * ((x - keep.left) / w) + (x - keep.left) % w,
            across == -((x - keep.left) / w),
    ;
    assert(y + down * h == keep.top + (y - keep.top) % h) by (nonlinear_arith)
        requires
            y - keep.top == h * ((y - keep.top) / h) + (y - keep.top) % h,
            down == -((y - keep.top) / h),
    ;
    assert(across * w == across * (keep.right - keep.left) && down * h == down * (keep.bottom - keep.top));
}

/// The surface a node is evaluated into has its corner at the bounds' and holds, at every pixel of the bounds it has room
/// for, the node's value there, and nothing anywhere else.
pub proof fn a_stage_holds_its_values(scene: Scene, prior: Seq<Sheet>, i: int, x: int, y: int)
    requires
        scene.width > 0,
        scene.stage(prior, i).has(x, y),
    ensures
        scene.stage(prior, i).x == scene.bounds.x && scene.stage(prior, i).y == scene.bounds.y,
        scene.stage(prior, i).at(x, y) == if x < scene.bounds.x + scene.bounds.width && y < scene.bounds.y
            + scene.bounds.height {
            scene.value(prior, i, x, y)
        } else {
            [0u32, 0, 0, 0]
        },
{
    let (w, h) = (scene.width as int, scene.height as int);
    let (u, v) = (x - scene.bounds.x, y - scene.bounds.y);
    cell_is_stored(u, v, w, h);
    lemma_fundamental_div_mod_converse(cell(u, v, w), w, v, u);
}

/// A graph is evaluated node after node, each from the ones before it, and every earlier surface stays what it was.
pub proof fn a_graph_is_evaluated_in_order(scene: Scene, count: nat, i: int)
    requires
        0 <= i < count,
    ensures
        scene.stages(count).len() == count,
        scene.stages(count)[i] == scene.stage(scene.stages(i as nat), i),
    decreases count,
{
    if i < count - 1 {
        a_graph_is_evaluated_in_order(scene, (count - 1) as nat, i);
    } else {
        stages_are_counted(scene, i as nat);
    }
    stages_are_counted(scene, count);
    stages_are_counted(scene, (count - 1) as nat);
}

proof fn stages_are_counted(scene: Scene, count: nat)
    ensures
        scene.stages(count).len() == count,
    decreases count,
{
    if count > 0 {
        stages_are_counted(scene, (count - 1) as nat);
    }
}

/// A graph is short of surfaces exactly where some node has none left, or a blur has no second one, and it waits for the
/// first node before that which is not computed.
pub proof fn a_graph_stops_at_its_first_want(scene: Scene, available: int, from: nat, i: int)
    requires
        from <= i < scene.nodes.len(),
    ensures
        match scene.progress(available, from) {
            Progress::Done => available > i && (scene.nodes[i] is Blur ==> available > i + 1) && !scene.unanswered(i),
            Progress::Waits(node) => {
                &&& from <= node < scene.nodes.len() && scene.unanswered(node) && available > node
                &&& i < node ==> !scene.unanswered(i) && available > i
            },
            Progress::Short => true,
        },
        available <= from ==> scene.progress(available, from) is Short,
    decreases scene.nodes.len() - from,
{
    if !scene.short(available, from as int) && !scene.unanswered(from as int) && from < i {
        a_graph_stops_at_its_first_want(scene, available, from + 1, i);
    } else if !scene.short(available, from as int) && !scene.unanswered(from as int) {
        if from + 1 < scene.nodes.len() {
            a_graph_stops_at_its_first_want(scene, available, from + 1, from as int + 1);
        }
    }
}

/// A blur's weights fall on their pixels: weight `i` of a kernel centred on a pixel falls on the one as far from it as the
/// weight is from the middle one, and the weights used are the ones that fall on the run.
pub proof fn weights_fall_around_their_pixel(at: usize, length: usize, taps: usize, used: Taps, i: int)
    requires
        at < length <= i64::MAX,
        taps % 2 == 1,
        taps <= i64::MAX,
        call_ensures(taps_on, (at, length, taps), used),
        used.first <= i < used.last,
    ensures
        ({
            let pixel = used.pixel + (i - used.first);
            let middle = taps as int / 2;
            pixel - at == i - middle && 0 <= pixel < length
        }),
{
    let reach = (taps - 1) / 2;
    assert(0 <= at + i - reach < length);
}

/// A blur reaches the reach asked for, held to the limit and to one pixel at least, and none where its deviation is not
/// above nothing.
pub proof fn a_blur_reaches_as_far_as_asked(deviation: u32, reach: u32, limit: u32, radius: Option<i64>)
    requires
        finite(deviation) && finite(reach) && finite(limit),
        number(reach) <= i32::MAX * pow2(149),
        number(ONE) <= number(limit),
        call_ensures(kernel_radius, (deviation, reach, limit), radius),
    ensures
        number(deviation) <= 0 ==> radius is None,
        number(deviation) > 0 ==> radius is Some,
        radius matches Some(pixels) ==> {
            &&& number(reach) <= number(ONE) ==> pixels * pow2(149) <= number(ONE) < (pixels + 1) * pow2(149)
            &&& number(ONE) <= number(reach) <= number(limit) ==> pixels * pow2(149) <= number(reach) < (pixels + 1)
                * pow2(149)
        },
{
    order_is_by_number(0, deviation);
    assert(number(0) == 0);
    extremes_are_by_number(reach, limit);
    let held = smaller(reach, limit);
    extremes_are_by_number(held, ONE);
    order_is_by_number(reach, limit);
    order_is_by_number(limit, reach);
    order_is_by_number(held, ONE);
    let kept = larger(held, ONE);
    whole_numbers_are_by_number(kept);
    order_is_by_number(kept, ONE);
    let unit = pow2(149) as int;
    lemma_pow2_pos(149);
    one_is_a_whole();
    let f = floored(kept);
    order_is_by_number(reach, ONE);
    if number(reach) <= number(limit) {
        assert(held == reach || number(held) == number(reach));
        assert(number(kept) <= i32::MAX * unit) by (nonlinear_arith)
            requires
                number(kept) <= number(reach) || number(kept) == number(ONE),
                number(reach) <= i32::MAX * unit,
                number(ONE) == unit,
                unit > 0,
        ;
        assert(0 <= f <= i32::MAX) by (nonlinear_arith)
            requires
                f * unit <= number(kept) < (f + 1) * unit,
                number(kept) <= i32::MAX * unit,
                number(kept) >= unit,
                unit > 0,
        ;
    } else {
        order_is_by_number(limit, ONE);
    }
}

proof fn one_is_a_whole()
    ensures
        number(ONE) == pow2(149),
{
    lemma2_to64();
    assert(ONE as int / 0x80_0000 % 0x100 == 127);
    lemma_pow2_adds(23, 126);
    assert(pow2(23) == 0x80_0000);
}


/// A node has the storage it needs where a surface is left for it beside those of the nodes before, and a second one
/// for a blur.
pub proof fn a_node_takes_its_surfaces(scene: Scene, available: int, i: int)
    requires
        0 <= i < scene.nodes.len(),
    ensures
        !scene.short(available, i) <==> available - i >= (match scene.nodes[i] {
            FilterNode::Blur { .. } => 2int,
            _ => 1int,
        }),
{
}

} // verus!
