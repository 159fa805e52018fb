//! Replaying the commands of a tile: the clips and layers that are open, where a drawing goes, and the storage
//! that is taken and given back.
//!
//! What a drawing covers and what its pixels become is floating point and the caller's to compute. Here stands
//! which pixels that is asked for, in what order, and what is done with the answers.
use super::clip::{masked, returnable, write_mask_row, Admission, ClipLevel, ClipStack, MaskPool, Nesting};
use super::error::{Error, Limit};
use super::filter::{blocks, evaluate, walkable, Evaluation, FilterNode, Progress, Scene};
use super::geom::PixelRect;
use super::layer::{grown, layer_bounds, side, Pool};
use super::raster::{Edges, FillRule};
use super::target::{setting_sets_one, Rgba, Sheet, Surface, TRANSPARENT};
use vstd::prelude::*;

verus! {

/// The blend mode that blends nothing.
pub const NORMAL: u8 = 0;

/// The operator that lays the source over what is under it.
pub const SOURCE_OVER: u8 = 0;

/// How a drawing is combined with what is under it: an opacity by its bits, and a blend mode and an operator by
/// number. But for the two that are named the numbers are the caller's.
#[derive(Clone, Copy, PartialEq, Eq, Structural, Debug)]
pub struct Ink {
    pub opacity: u32,
    pub blend: u8,
    pub operator: u8,
}

/// One command, with everything that can be worked out before the frame.
#[derive(Debug)]
#[allow(inconsistent_fields)]
pub enum Step {
    Fill { edges: Edges, rule: FillRule, antialias: bool, ink: Ink },
    Image { edges: Edges, ink: Ink },
    Glyphs { run: u32, ink: Ink },
    AliasedLines { points: Vec<(i32, i32)>, ink: Ink },
    PushClip { edges: Edges, rule: FillRule, antialias: bool, bounds: PixelRect, inverse: bool },
    PushClipMask { image: u32, inverse: bool },
    PopClip,
    BeginLayer { bounds: Option<PixelRect>, ink: Ink, filter: Option<u32> },
    EndLayer,
}

/// A run of pixels a drawing became.
#[derive(Debug)]
pub struct Span {
    pub x: u32,
    pub y: u32,
    pub values: Vec<Rgba>,
}

/// A row of a clip's coverage, in two hundred and fifty-five steps.
#[derive(Debug)]
pub struct Row {
    pub y: u32,
    pub coverage: Vec<u8>,
}

/// What the caller computed for a command.
#[derive(Debug)]
#[allow(inconsistent_fields)]
pub enum Answer {
    /// The command asks for nothing, or nothing is computed yet.
    Nothing,
    /// The pixels a drawing became, run by run.
    Spans(Vec<Span>),
    /// The coverage of a clip's shape over the area asked for, row by row.
    Rows(Vec<Row>),
    /// A mask's alpha over the area asked for, pixel by pixel, where the image and the transform are there. A
    /// pixel the transform has no point for has none.
    Alpha(Vec<Option<u8>>),
    /// The filter nodes computed so far, and the composited pixels once they were asked for.
    Closing { computed: Vec<Vec<Rgba>>, composed: Option<Vec<Rgba>> },
}

/// A pixel of a layer over the pixel it is composited onto.
#[derive(Clone, Copy, PartialEq, Eq, Debug)]
pub struct Spot {
    pub x: u32,
    pub y: u32,
    pub source: Rgba,
    pub backdrop: Rgba,
}

/// How far a command got.
#[derive(Debug)]
#[allow(inconsistent_fields)]
pub enum Turn {
    Done,
    /// The block of the layer's bounds this filter node computes is needed.
    Filter { node: usize, inputs: Vec<Vec<Rgba>> },
    /// What each of these pixels becomes is needed.
    Compose(Vec<Spot>),
}

/// An open layer.
#[derive(Debug)]
pub struct Layer {
    pub surface: Surface,
    pub bounds: PixelRect,
    pub ink: Ink,
    pub filter: Option<u32>,
    pub clip_depth: usize,
}

/// A layer as mathematics.
#[verifier::ext_equal]
pub ghost struct Group {
    pub sheet: Sheet,
    pub bounds: PixelRect,
    pub ink: Ink,
    pub filter: Option<u32>,
    pub clip_depth: nat,
}

impl View for Layer {
    type V = Group;

    open spec fn view(&self) -> Group {
        Group {
            sheet: self.surface@,
            bounds: self.bounds,
            ink: self.ink,
            filter: self.filter,
            clip_depth: self.clip_depth as nat,
        }
    }
}

/// Layers as mathematics.
pub open spec fn groups(layers: Seq<Layer>) -> Seq<Group> {
    Seq::new(layers.len(), |i: int| layers[i]@)
}

// ---------------------------------------------------------------------------------------------
// A tile's replay as mathematics.
// ---------------------------------------------------------------------------------------------
/// What a mask holds after a row of coverage. A row above the area, or one the mask has no room for, is not
/// written.
pub open spec fn row_written(mask: Seq<u8>, area: PixelRect, y: u32, coverage: Seq<u8>, inverse: bool) -> Seq<
    u8,
> {
    let start = (y - area.y) * area.width;
    let length = if coverage.len() < area.width {
        coverage.len() as int
    } else {
        area.width as int
    };
    if y < area.y || start + length > mask.len() {
        mask
    } else {
        Seq::new(
            mask.len(),
            |i: int|
                if start <= i < start + length {
                    masked(coverage[i - start], inverse)
                } else {
                    mask[i]
                },
        )
    }
}

/// What a mask holds after the first `count` rows of coverage.
pub open spec fn rows_written(mask: Seq<u8>, area: PixelRect, rows: Seq<Row>, inverse: bool, count: nat) -> Seq<
    u8,
>
    decreases count,
{
    if count == 0 {
        mask
    } else {
        row_written(
            rows_written(mask, area, rows, inverse, (count - 1) as nat),
            area,
            rows[count - 1].y,
            rows[count - 1].coverage@,
            inverse,
        )
    }
}

/// A sheet after the first `count` pixels of a run were stored in it. A pixel outside the area that may be
/// drawn in is not stored.
pub open spec fn spanned(sheet: Sheet, area: PixelRect, x: u32, y: u32, values: Seq<Rgba>, count: nat) -> Sheet
    decreases count,
{
    if count == 0 {
        sheet
    } else {
        let before = spanned(sheet, area, x, y, values, (count - 1) as nat);
        if area.has(x + count - 1, y as int) {
            before.with(x + count - 1, y as int, values[count - 1])
        } else {
            before
        }
    }
}

/// A sheet after the first `count` runs were stored in it.
pub open spec fn all_spanned(sheet: Sheet, area: PixelRect, spans: Seq<Span>, count: nat) -> Sheet
    decreases count,
{
    if count == 0 {
        sheet
    } else {
        let span = spans[count - 1];
        spanned(
            all_spanned(sheet, area, spans, (count - 1) as nat),
            area,
            span.x,
            span.y,
            span.values@,
            span.values@.len(),
        )
    }
}

/// The pixels of the first `count` columns of a row that a clip lets something through of.
pub open spec fn row_spots(
    source: Sheet,
    into: Sheet,
    clips: Nesting,
    area: PixelRect,
    y: int,
    count: nat,
) -> Seq<Spot>
    decreases count,
{
    if count == 0 {
        Seq::empty()
    } else {
        let before = row_spots(source, into, clips, area, y, (count - 1) as nat);
        let x = area.x + count - 1;
        if clips.blocks(x, y) {
            before
        } else {
            before.push(Spot { x: x as u32, y: y as u32, source: source.at(x, y), backdrop: into.at(x, y) })
        }
    }
}

/// The pixels of the first `count` rows of an area that a clip lets something through of.
pub open spec fn spots(source: Sheet, into: Sheet, clips: Nesting, area: PixelRect, count: nat) -> Seq<Spot>
    decreases count,
{
    if count == 0 {
        Seq::empty()
    } else {
        spots(source, into, clips, area, (count - 1) as nat) + row_spots(
            source,
            into,
            clips,
            area,
            area.y + count - 1,
            area.width as nat,
        )
    }
}

/// A sheet after the first `count` spots became their values.
pub open spec fn settled(sheet: Sheet, list: Seq<Spot>, values: Seq<Rgba>, count: nat) -> Sheet
    decreases count,
{
    if count == 0 {
        sheet
    } else {
        settled(sheet, list, values, (count - 1) as nat).with(
            list[count - 1].x as int,
            list[count - 1].y as int,
            values[count - 1],
        )
    }
}

/// How far a command gets.
pub ghost enum Reach {
    Refused(Error),
    Waits(int, Canvas),
    Composes(Seq<Spot>, Canvas),
    Done(Canvas),
}

/// The state of a tile's replay.
#[verifier::ext_equal]
pub ghost struct Canvas {
    pub tile: PixelRect,
    pub base: Sheet,
    pub clips: Nesting,
    pub layers: Seq<Group>,
    /// How many surfaces are left to take, and how large they are.
    pub surfaces: nat,
    pub extent: (u32, u32),
    /// How many masks are left to take, and how large they are.
    pub masks: nat,
    pub mask_size: nat,
}

impl Canvas {
    /// The pixels a drawing may touch: the innermost layer's, or the tile's.
    pub open spec fn area(self) -> PixelRect {
        if self.layers.len() == 0 {
            self.tile
        } else {
            self.layers.last().bounds
        }
    }

    /// Where a drawing goes: the innermost layer, or the tile.
    pub open spec fn sheet(self) -> Sheet {
        if self.layers.len() == 0 {
            self.base
        } else {
            self.layers.last().sheet
        }
    }

    /// The same with another sheet there.
    pub open spec fn with_sheet(self, sheet: Sheet) -> Canvas {
        if self.layers.len() == 0 {
            Canvas { base: sheet, ..self }
        } else {
            Canvas {
                layers: self.layers.update(self.layers.len() - 1, Group { sheet, ..self.layers.last() }),
                ..self
            }
        }
    }

    /// The same after runs of pixels were drawn: those in the area a drawing may touch are stored, and no other.
    pub open spec fn drawn(self, spans: Seq<Span>) -> Canvas {
        self.with_sheet(all_spanned(self.sheet(), self.area(), spans, spans.len()))
    }

    /// The pixels a clip applies to: an inverse clip keeps what its shape misses, so its level covers all that
    /// may be drawn.
    pub open spec fn clip_area(self, bounds: PixelRect, inverse: bool) -> PixelRect {
        if inverse {
            self.area()
        } else {
            self.area().meet(bounds)
        }
    }

    pub open spec fn with_level(self, level: Admission) -> Canvas {
        Canvas { clips: self.clips.pushed(level), ..self }
    }

    /// The same under one more clip. An empty shape clips everything away and its inverse nothing; where the
    /// masks are used up the clip is its rectangle.
    pub open spec fn clipped(self, empty: bool, bounds: PixelRect, inverse: bool, rows: Seq<Row>) -> Canvas {
        let area = self.clip_area(bounds, inverse);
        if empty || area.empty() {
            self.with_level(
                Admission {
                    bounds: if inverse {
                        self.area()
                    } else {
                        PixelRect { x: 0, y: 0, width: 0, height: 0 }
                    },
                    mask: None,
                },
            )
        } else if self.masks == 0 {
            self.with_level(Admission { bounds: area, mask: None })
        } else {
            let blank = Seq::new(
                self.mask_size,
                |i: int|
                    if inverse {
                        255u8
                    } else {
                        0u8
                    },
            );
            Canvas {
                masks: (self.masks - 1) as nat,
                ..self.with_level(
                    Admission {
                        bounds: area,
                        mask: Some(rows_written(blank, area, rows, inverse, rows.len())),
                    },
                )
            }
        }
    }

    /// The same under one more mask. One whose image is not there clips nothing away.
    pub open spec fn mask_clipped(self, alpha: Option<Seq<Option<u8>>>, inverse: bool) -> Canvas {
        match alpha {
            Some(values) if self.masks > 0 => Canvas {
                masks: (self.masks - 1) as nat,
                ..self.with_level(
                    Admission {
                        bounds: self.area(),
                        mask: Some(
                            Seq::new(
                                self.mask_size,
                                |i: int|
                                    match if i < values.len() {
                                        values[i]
                                    } else {
                                        None
                                    } {
                                        Some(value) => masked(value, inverse),
                                        None => 0,
                                    },
                            ),
                        ),
                    },
                )
            },
            _ => self.with_level(Admission { bounds: self.area(), mask: None }),
        }
    }

    /// The same with one clip less, its mask back in the reservation.
    pub open spec fn unclipped(self) -> Canvas {
        Canvas {
            clips: self.clips.popped(),
            masks: self.masks + (if self.clips.levels.len() > 0 && returnable(
                self.clips.levels.last().mask,
                self.mask_size,
            ) {
                1nat
            } else {
                0nat
            }),
            ..self
        }
    }

    /// The same with no more than `depth` clips.
    pub open spec fn unclipped_to(self, depth: nat) -> Canvas
        decreases self.clips.levels.len(),
    {
        if self.clips.levels.len() <= depth {
            self
        } else {
            self.unclipped().unclipped_to(depth)
        }
    }

    /// A cleared surface aimed at a rectangle.
    pub open spec fn blank(self, bounds: PixelRect) -> Sheet {
        Sheet {
            x: bounds.x,
            y: bounds.y,
            width: side(self.extent.0),
            height: side(self.extent.1),
            pixels: Seq::new(
                (side(self.extent.0) * side(self.extent.1)) as nat,
                |i: int| TRANSPARENT,
            ),
        }
    }

    /// The pixels a new layer occupies.
    pub open spec fn layer_area(self, bounds: Option<PixelRect>, filter: Option<u32>, expansion: u32) -> PixelRect {
        let reach = if filter is Some {
            expansion
        } else {
            0
        };
        match bounds {
            None => grown(self.area(), reach),
            Some(device) => grown(self.area(), reach).meet(device),
        }
    }

    /// The same with one more layer, or the refusal where the surfaces are used up.
    pub open spec fn opened(
        self,
        bounds: Option<PixelRect>,
        ink: Ink,
        filter: Option<u32>,
        expansion: u32,
        ceiling: u64,
    ) -> Reach {
        if self.surfaces == 0 {
            Reach::Refused(Error::LimitExceeded { limit: Limit::PreparedScratch, ceiling })
        } else {
            let area = self.layer_area(bounds, filter, expansion);
            Reach::Done(
                Canvas {
                    surfaces: (self.surfaces - 1) as nat,
                    layers: self.layers.push(
                        Group {
                            sheet: self.blank(area),
                            bounds: area,
                            ink,
                            filter,
                            clip_depth: self.clips.levels.len(),
                        },
                    ),
                    ..self
                },
            )
        }
    }

    /// The same once the clips a closing layer left open are closed.
    pub open spec fn own_clips_closed(self) -> Canvas {
        self.unclipped_to(self.layers.last().clip_depth)
    }

    /// The same without the innermost layer, its surface still out.
    pub open spec fn beneath(self) -> Canvas {
        Canvas { layers: self.layers.drop_last(), ..self }
    }

    /// The graph of the innermost layer, where it has one that is there.
    pub open spec fn graph(self, filters: Seq<Vec<FilterNode>>) -> Option<Seq<FilterNode>> {
        match self.layers.last().filter {
            Some(handle) => if handle < filters.len() {
                Some(filters[handle as int]@)
            } else {
                None
            },
            None => None,
        }
    }

    /// The graph of the innermost layer over its source and what it is about to be composited onto.
    pub open spec fn scene(self, nodes: Seq<FilterNode>, computed: Seq<Seq<Rgba>>) -> Scene {
        Scene {
            nodes,
            source: self.layers.last().sheet,
            backdrop: self.beneath().sheet(),
            bounds: self.layers.last().bounds,
            width: side(self.extent.0),
            height: side(self.extent.1),
            computed,
        }
    }

    /// The pixels of the innermost layer that are composited onto what is under it.
    pub open spec fn layer_spots(self, source: Sheet) -> Seq<Spot> {
        let area = self.beneath().area().meet(self.layers.last().bounds);
        spots(source, self.beneath().sheet(), self.clips, area, area.height as nat)
    }

    /// The same with the innermost layer composited as one thing onto what is under it.
    pub open spec fn composited(self, source: Sheet, composed: Option<Seq<Rgba>>) -> Reach {
        let list = self.layer_spots(source);
        match composed {
            Some(values) if values.len() == list.len() => {
                let under = self.beneath();
                Reach::Done(
                    Canvas {
                        surfaces: self.surfaces + 1,
                        ..under.with_sheet(settled(under.sheet(), list, values, list.len()))
                    },
                )
            },
            _ => Reach::Composes(list, self),
        }
    }

    /// The same with the innermost layer closed: its clips first, then its filter, then its pixels. Where there
    /// is no layer there is nothing to close.
    pub open spec fn closed(
        self,
        filters: Seq<Vec<FilterNode>>,
        computed: Seq<Seq<Rgba>>,
        composed: Option<Seq<Rgba>>,
        ceiling: u64,
    ) -> Reach {
        if self.layers.len() == 0 {
            Reach::Done(self)
        } else {
            let ready = self.own_clips_closed();
            match self.graph(filters) {
                None => ready.composited(self.layers.last().sheet, composed),
                Some(nodes) => {
                    let scene = ready.scene(nodes, computed);
                    if nodes.len() == 0 {
                        Reach::Refused(Error::Allocation)
                    } else {
                        match scene.progress(self.surfaces as int, 0) {
                            Progress::Short => Reach::Refused(
                                Error::LimitExceeded { limit: Limit::PreparedScratch, ceiling },
                            ),
                            Progress::Waits(node) => Reach::Waits(node, ready),
                            Progress::Done => ready.composited(scene.stages(nodes.len()).last(), composed),
                        }
                    }
                },
            }
        }
    }

    /// How far a command gets.
    pub open spec fn performed(
        self,
        step: Step,
        answer: Answer,
        filters: Seq<Vec<FilterNode>>,
        expansion: u32,
        ceiling: u64,
    ) -> Reach {
        match step {
            Step::PushClip { edges, bounds, inverse, .. } => Reach::Done(
                self.clipped(
                    edges.edges@.len() == 0,
                    bounds,
                    inverse,
                    match answer {
                        Answer::Rows(rows) => rows@,
                        _ => Seq::empty(),
                    },
                ),
            ),
            Step::PushClipMask { inverse, .. } => Reach::Done(
                self.mask_clipped(
                    match answer {
                        Answer::Alpha(values) => Some(values@),
                        _ => None,
                    },
                    inverse,
                ),
            ),
            Step::PopClip => Reach::Done(self.unclipped()),
            Step::BeginLayer { bounds, ink, filter } => self.opened(bounds, ink, filter, expansion, ceiling),
            Step::EndLayer => self.closed(
                filters,
                match answer {
                    Answer::Closing { computed, .. } => blocks(computed@),
                    _ => Seq::empty(),
                },
                match answer {
                    Answer::Closing { composed: Some(values), .. } => Some(values@),
                    _ => None,
                },
                ceiling,
            ),
            _ => Reach::Done(
                self.drawn(
                    match answer {
                        Answer::Spans(spans) => spans@,
                        _ => Seq::empty(),
                    },
                ),
            ),
        }
    }
}

// ---------------------------------------------------------------------------------------------
// The replay.
// ---------------------------------------------------------------------------------------------
/// Whether the pixels of a rectangle can be counted and named.
pub open spec fn countable(area: PixelRect) -> bool {
    area.x + area.width <= u32::MAX && area.y + area.height <= u32::MAX && area.width * area.height <= u32::MAX
}

/// The replay of one tile's commands.
#[derive(Debug)]
pub struct Replay {
    pub tile: PixelRect,
    pub base: Surface,
    pub clips: ClipStack,
    pub layers: Vec<Layer>,
    pub pool: Pool,
    pub masks: MaskPool,
}

impl View for Replay {
    type V = Canvas;

    open spec fn view(&self) -> Canvas {
        Canvas {
            tile: self.tile,
            base: self.base@,
            clips: self.clips@,
            layers: groups(self.layers@),
            surfaces: self.pool.free@.len(),
            extent: self.pool.extent,
            masks: self.masks.free@.len(),
            mask_size: self.masks.size as nat,
        }
    }
}

impl Replay {
    pub open spec fn wf(self) -> bool {
        &&& self.pool.wf()
        &&& self.masks.wf()
        &&& self.base@.wf()
        &&& countable(self.tile)
        &&& self.clips@.consistent()
        &&& forall|i: int|
            0 <= i < self.layers@.len() ==> self.pool.fits((#[trigger] self.layers@[i]).surface) && countable(
                self.layers@[i].bounds,
            )
    }

    /// Start on a tile, with nothing clipped and no layer open.
    pub fn begin(tile: PixelRect, base: Surface, pool: Pool, masks: MaskPool) -> (made: Replay)
        requires
            pool.wf(),
            masks.wf(),
            base@.wf(),
            countable(tile),
        ensures
            made.wf(),
            made@ == (Canvas {
                tile,
                base: base@,
                clips: Nesting { levels: Seq::empty(), bounds: seq![tile] },
                layers: Seq::empty(),
                surfaces: pool.free@.len(),
                extent: pool.extent,
                masks: masks.free@.len(),
                mask_size: masks.size as nat,
            }),
    {
        let mut clips = ClipStack::new();
        clips.reset(tile);
        let made = Replay { tile, base, clips, layers: Vec::new(), pool, masks };
        assert(made@.layers =~= Seq::<Group>::empty());
        made
    }

    /// The pixels a drawing may touch: the innermost layer's, or the tile's.
    pub fn area(&self) -> (area: PixelRect)
        ensures
            area == self@.area(),
            self.wf() ==> countable(area),
    {
        let count: usize = self.layers.len();
        if count == 0 {
            self.tile
        } else {
            assert(self@.layers.last() == self.layers@[count - 1]@);
            self.layers[count - 1].bounds
        }
    }

    /// The pixels a clip's coverage is asked for.
    pub fn clip_area(&self, bounds: PixelRect, inverse: bool) -> (area: PixelRect)
        ensures
            area == self@.clip_area(bounds, inverse),
    {
        let parent = self.area();
        if inverse {
            parent
        } else {
            parent.intersection(&bounds)
        }
    }

    /// The pixel a drawing would land on.
    pub fn get(&self, x: u32, y: u32) -> (value: Rgba)
        requires
            self.wf(),
        ensures
            value == self@.sheet().at(x as int, y as int),
    {
        let count: usize = self.layers.len();
        if count == 0 {
            self.base.get(x, y)
        } else {
            assert(self@.layers.last() == self.layers@[count - 1]@);
            self.layers[count - 1].surface.get(x, y)
        }
    }

    fn put_span(&mut self, span: &Span)
        requires
            old(self).wf(),
        ensures
            final(self).wf(),
            ({
                let sheet = spanned(
                    old(self)@.sheet(),
                    old(self)@.area(),
                    span.x,
                    span.y,
                    span.values@,
                    span.values@.len(),
                );
                final(self)@ == old(self)@.with_sheet(sheet) && final(self)@.sheet() == sheet
            }),
            final(self)@.area() == old(self)@.area(),
    {
        let area = self.area();
        let count: usize = self.layers.len();
        let ghost before = *self;
        if count == 0 {
            store_run(&mut self.base, area, span);
        } else {
            assert(before@.layers.last() == before.layers@[count - 1]@);
            store_run(&mut self.layers[count - 1].surface, area, span);
            assert(self@.layers =~= before@.with_sheet(
                spanned(before@.sheet(), area, span.x, span.y, span.values@, span.values@.len()),
            ).layers);
        }
    }

    /// Store the pixels a drawing became.
    fn draw(&mut self, spans: &Vec<Span>)
        requires
            old(self).wf(),
        ensures
            final(self).wf(),
            final(self)@ == old(self)@.drawn(spans@),
    {
        let mut next: usize = 0;
        let ghost start = self@;
        assert(start.with_sheet(start.sheet()).layers =~= start.layers);
        assert(start.with_sheet(start.sheet()) =~= start);
        while next < spans.len()
            invariant
                next <= spans@.len(),
                self.wf(),
                start == old(self)@,
                self@.area() == start.area(),
                self@ == start.with_sheet(all_spanned(start.sheet(), start.area(), spans@, next as nat)),
                self@.sheet() == all_spanned(start.sheet(), start.area(), spans@, next as nat),
            decreases spans@.len() - next,
        {
            self.put_span(&spans[next]);
            assert(self@.layers =~= start.with_sheet(
                all_spanned(start.sheet(), start.area(), spans@, (next + 1) as nat),
            ).layers);
            next = next + 1;
        }
    }

    fn push_level(&mut self, level: ClipLevel)
        requires
            old(self).wf(),
        ensures
            final(self).wf(),
            final(self)@ == old(self)@.with_level(level@),
    {
        self.clips.push(level);
    }

    /// Open a clip.
    fn push_clip(&mut self, empty: bool, bounds: PixelRect, inverse: bool, rows: &[Row])
        requires
            old(self).wf(),
        ensures
            final(self).wf(),
            final(self)@ == old(self)@.clipped(empty, bounds, inverse, rows@),
    {
        let area = self.clip_area(bounds, inverse);
        if empty || area.is_empty() {
            let level = if inverse {
                ClipLevel::rectangle(self.area())
            } else {
                ClipLevel::rectangle(PixelRect::nowhere())
            };
            self.push_level(level);
            return;
        }
        let taken = self.masks.take_filled(
            if inverse {
                255
            } else {
                0
            },
        );
        match taken {
            None => self.push_level(ClipLevel::rectangle(area)),
            Some(found) => {
                let mut mask = found;
                let ghost blank = mask@;
                assert(blank =~= Seq::new(
                    old(self)@.mask_size,
                    |i: int|
                        if inverse {
                            255u8
                        } else {
                            0u8
                        },
                ));
                let mut next: usize = 0;
                while next < rows.len()
                    invariant
                        next <= rows@.len(),
                        mask@ == rows_written(blank, area, rows@, inverse, next as nat),
                    decreases rows@.len() - next,
                {
                    write_row(&mut mask, area, &rows[next], inverse);
                    next = next + 1;
                }
                self.push_level(ClipLevel::with_mask(area, mask));
            },
        }
    }

    /// Open a clip that is a mask.
    fn push_clip_mask(&mut self, alpha: Option<&Vec<Option<u8>>>, inverse: bool)
        requires
            old(self).wf(),
        ensures
            final(self).wf(),
            final(self)@ == old(self)@.mask_clipped(
                match alpha {
                    Some(values) => Some(values@),
                    None => None,
                },
                inverse,
            ),
    {
        let parent = self.area();
        match self.masks.take() {
            None => self.push_level(ClipLevel::rectangle(parent)),
            Some(found) => match alpha {
                None => {
                    self.masks.give(found);
                    self.push_level(ClipLevel::rectangle(parent));
                },
                Some(values) => {
                    let mut mask = found;
                    let size: usize = mask.len();
                    let mut next: usize = 0;
                    while next < size && next < values.len()
                        invariant
                            next <= size,
                            next <= values@.len(),
                            size == mask@.len(),
                            forall|i: int|
                                0 <= i < size ==> #[trigger] mask@[i] == (match if i < next {
                                    values@[i]
                                } else {
                                    None
                                } {
                                    Some(value) => masked(value, inverse),
                                    None => 0,
                                }),
                        decreases size - next,
                    {
                        if let Some(value) = values[next] {
                            mask.set(
                                next,
                                if inverse {
                                    255 - value
                                } else {
                                    value
                                },
                            );
                        }
                        next = next + 1;
                    }
                    assert(mask@ =~= Seq::new(
                        old(self)@.mask_size,
                        |i: int|
                            match if i < values@.len() {
                                values@[i]
                            } else {
                                None
                            } {
                                Some(value) => masked(value, inverse),
                                None => 0,
                            },
                    ));
                    self.push_level(ClipLevel::with_mask(parent, mask));
                },
            },
        }
    }

    /// Close a clip.
    fn pop_clip(&mut self)
        requires
            old(self).wf(),
        ensures
            final(self).wf(),
            final(self)@ == old(self)@.unclipped(),
    {
        self.clips.pop(&mut self.masks);
        assert(super::clip::masks(self.masks.free@).len() == self.masks.free@.len());
        assert(super::clip::masks(old(self).masks.free@).len() == old(self).masks.free@.len());
    }

    /// Close clips until there are no more than `depth`.
    fn pop_clips_to(&mut self, depth: usize)
        requires
            old(self).wf(),
        ensures
            final(self).wf(),
            final(self)@ == old(self)@.unclipped_to(depth as nat),
    {
        while self.clips.depth() > depth
            invariant
                self.wf(),
                self@.unclipped_to(depth as nat) == old(self)@.unclipped_to(depth as nat),
            decreases self@.clips.levels.len(),
        {
            self.pop_clip();
        }
    }

    /// Open a layer.
    fn begin_layer(
        &mut self,
        bounds: Option<PixelRect>,
        ink: Ink,
        filter: Option<u32>,
        expansion: u32,
        ceiling: u64,
    ) -> (outcome: Result<(), Error>)
        requires
            old(self).wf(),
            countable(old(self)@.layer_area(bounds, filter, expansion)),
        ensures
            final(self).wf(),
            match outcome {
                Ok(_) => old(self)@.opened(bounds, ink, filter, expansion, ceiling) == Reach::Done(
                    final(self)@,
                ),
                Err(error) => old(self)@.opened(bounds, ink, filter, expansion, ceiling) == Reach::Refused(
                    error,
                ) && final(self)@ == old(self)@,
            },
    {
        let parent = self.area();
        let reach: u32 = if filter.is_some() {
            expansion
        } else {
            0
        };
        let area = layer_bounds(bounds, parent, reach);
        match self.pool.take(area) {
            None => Err(Error::LimitExceeded { limit: Limit::PreparedScratch, ceiling }),
            Some(surface) => {
                assert(surface@ =~= old(self)@.blank(area));
                let layer = Layer { surface, bounds: area, ink, filter, clip_depth: self.clips.depth() };
                let ghost before = self.layers@;
                self.layers.push(layer);
                assert(self@.layers =~= groups(before).push(layer@));
                assert(Reach::Done(self@) == old(self)@.opened(bounds, ink, filter, expansion, ceiling));
                Ok(())
            },
        }
    }
}

/// Store a run of pixels, as far as it is in an area.
fn store_run(into: &mut Surface, area: PixelRect, span: &Span)
    requires
        old(into)@.wf(),
        countable(area),
    ensures
        final(into)@ == spanned(old(into)@, area, span.x, span.y, span.values@, span.values@.len()),
        final(into)@.wf(),
        final(into)@.same_place(old(into)@),
{
    let mut next: usize = 0;
    while next < span.values.len()
        invariant
            next <= span.values@.len(),
            countable(area),
            into@.wf(),
            into@.same_place(old(into)@),
            into@ == spanned(old(into)@, area, span.x, span.y, span.values@, next as nat),
        decreases span.values@.len() - next,
    {
        let x: u128 = span.x as u128 + next as u128;
        let inside = area.x as u128 <= x && x < area.x as u128 + area.width as u128 && area.y <= span.y
            && span.y < area.y + area.height;
        if inside {
            into.set(x as u32, span.y, span.values[next]);
        }
        next = next + 1;
    }
}

fn write_row(mask: &mut Vec<u8>, area: PixelRect, row: &Row, inverse: bool)
    ensures
        final(mask)@ == row_written(old(mask)@, area, row.y, row.coverage@, inverse),
{
    if row.y < area.y {
        return;
    }
    let (down, stride): (u32, u32) = (row.y - area.y, area.width);
    assert(0 <= down * stride <= 0xffff_ffff * 0xffff_ffff) by (nonlinear_arith)
        requires
            0 <= down <= 0xffff_ffff,
            0 <= stride <= 0xffff_ffff,
    ;
    let start: u64 = down as u64 * stride as u64;
    let count: usize = row.coverage.len();
    let length: u64 = if (count as u64) < stride as u64 {
        count as u64
    } else {
        stride as u64
    };
    let size: u64 = mask.len() as u64;
    if length > size || start > size - length {
        return;
    }
    write_mask_row(mask, start as usize, length as usize, row.coverage.as_slice(), inverse);
    assert(mask@ =~= row_written(old(mask)@, area, row.y, row.coverage@, inverse));
}

proof fn unclipping_keeps_the_rest(canvas: Canvas, depth: nat)
    ensures
        ({
            let left = canvas.unclipped_to(depth);
            &&& left.tile == canvas.tile
            &&& left.base == canvas.base
            &&& left.layers == canvas.layers
            &&& left.surfaces == canvas.surfaces
            &&& left.extent == canvas.extent
            &&& left.mask_size == canvas.mask_size
        }),
    decreases canvas.clips.levels.len(),
{
    if canvas.clips.levels.len() > depth {
        unclipping_keeps_the_rest(canvas.unclipped(), depth);
    }
}

/// The pixels of an area that a clip lets something through of, row by row.
fn collect_spots(source: &Surface, into: &Surface, clips: &ClipStack, area: PixelRect) -> (list: Vec<Spot>)
    requires
        source@.wf(),
        into@.wf(),
        area.x + area.width <= u32::MAX,
        area.y + area.height <= u32::MAX,
    ensures
        list@ == spots(source@, into@, clips@, area, area.height as nat),
{
    let mut list: Vec<Spot> = Vec::new();
    let mut row: u32 = 0;
    while row < area.height
        invariant
            row <= area.height,
            source@.wf(),
            into@.wf(),
            area.x + area.width <= u32::MAX,
            area.y + area.height <= u32::MAX,
            list@ == spots(source@, into@, clips@, area, row as nat),
        decreases area.height - row,
    {
        let y: u32 = area.y + row;
        let ghost before = list@;
        let mut column: u32 = 0;
        assert(list@ =~= before + row_spots(source@, into@, clips@, area, y as int, 0));
        while column < area.width
            invariant
                column <= area.width,
                source@.wf(),
                into@.wf(),
                area.x + area.width <= u32::MAX,
                list@ == before + row_spots(source@, into@, clips@, area, y as int, column as nat),
            decreases area.width - column,
        {
            let x: u32 = area.x + column;
            if !clips.blocks(x, y) {
                list.push(Spot { x, y, source: source.get(x, y), backdrop: into.get(x, y) });
            }
            assert(list@ =~= before + row_spots(
                source@,
                into@,
                clips@,
                area,
                y as int,
                (column + 1) as nat,
            ));
            column = column + 1;
        }
        row = row + 1;
    }
    list
}

/// Set every spot to its value.
fn settle(into: &mut Surface, list: &Vec<Spot>, values: &Vec<Rgba>)
    requires
        old(into)@.wf(),
        values@.len() == list@.len(),
    ensures
        final(into)@ == settled(old(into)@, list@, values@, list@.len()),
        final(into)@.wf(),
        final(into)@.same_place(old(into)@),
{
    let mut next: usize = 0;
    while next < list.len()
        invariant
            next <= list@.len(),
            values@.len() == list@.len(),
            into@.wf(),
            into@.same_place(old(into)@),
            into@ == settled(old(into)@, list@, values@, next as nat),
        decreases list@.len() - next,
    {
        into.set(list[next].x, list[next].y, values[next]);
        next = next + 1;
    }
}

impl Replay {
    /// Run the filter of the innermost layer, where it has one that is there.
    fn filter_layer(
        &mut self,
        filters: &[Vec<FilterNode>],
        computed: &[Vec<Rgba>],
        ceiling: u64,
    ) -> (outcome: Result<Option<Evaluation>, Error>)
        requires
            old(self).wf(),
            old(self).layers@.len() > 0,
            forall|i: int| 0 <= i < filters@.len() ==> walkable((#[trigger] filters@[i])@),
        ensures
            final(self).wf(),
            final(self).layers == old(self).layers,
            final(self).clips == old(self).clips,
            final(self).base == old(self).base,
            final(self).tile == old(self).tile,
            final(self).masks == old(self).masks,
            final(self).pool.extent == old(self).pool.extent,
            ({
                let canvas = old(self)@;
                match canvas.graph(filters@) {
                    None => outcome == Ok::<Option<Evaluation>, Error>(None) && final(self).pool == old(
                        self,
                    ).pool,
                    Some(nodes) => {
                        let scene = canvas.scene(nodes, blocks(computed@));
                        let progress = scene.progress(canvas.surfaces as int, 0);
                        match outcome {
                            Err(error) => final(self)@ == canvas && if nodes.len() == 0 {
                                error == Error::Allocation
                            } else {
                                progress == Progress::Short && error == (Error::LimitExceeded {
                                    limit: Limit::PreparedScratch,
                                    ceiling,
                                })
                            },
                            Ok(None) => false,
                            Ok(Some(Evaluation::Pending { node, inputs })) => {
                                &&& nodes.len() > 0
                                &&& final(self)@ == canvas
                                &&& progress == Progress::Waits(node as int)
                                &&& inputs@.len() == nodes[node as int].reads().len()
                                &&& forall|i: int|
                                    0 <= i < inputs@.len() ==> (#[trigger] inputs@[i])@ == scene.stages(
                                        node as nat,
                                    )[nodes[node as int].reads()[i] as int].pixels
                            },
                            Ok(Some(Evaluation::Finished(surface))) => {
                                &&& nodes.len() > 0
                                &&& progress == Progress::Done
                                &&& surface@ == scene.stages(nodes.len()).last()
                                &&& old(self).pool.fits(surface)
                                &&& final(self).pool.free@.len() == canvas.surfaces - 1
                            },
                        }
                    },
                }
            }),
    {
        let count: usize = self.layers.len();
        let ghost canvas = self@;
        assert(canvas.layers.last() == self.layers@[count - 1]@);
        match self.layers[count - 1].filter {
            None => Ok(None),
            Some(handle) => {
                if handle as usize >= filters.len() {
                    return Ok(None);
                }
                let bounds = self.layers[count - 1].bounds;
                let nodes = &filters[handle as usize];
                let outcome = if count == 1 {
                    assert(canvas.beneath().sheet() == self.base@);
                    evaluate(
                        nodes.as_slice(),
                        &self.layers[count - 1].surface,
                        &self.base,
                        bounds,
                        &mut self.pool,
                        computed,
                        ceiling,
                    )
                } else {
                    assert(canvas.beneath().sheet() == self.layers@[count - 2].surface@);
                    evaluate(
                        nodes.as_slice(),
                        &self.layers[count - 1].surface,
                        &self.layers[count - 2].surface,
                        bounds,
                        &mut self.pool,
                        computed,
                        ceiling,
                    )
                };
                match outcome {
                    Err(error) => {
                        assert(self@ =~= canvas);
                        Err(error)
                    },
                    Ok(evaluation) => {
                        assert(!(evaluation is Finished) ==> self@ =~= canvas);
                        Ok(Some(evaluation))
                    },
                }
            },
        }
    }

    /// Close the innermost layer: its clips, its filter, and its pixels composited as one thing onto what is
    /// under it.
    fn end_layer(
        &mut self,
        filters: &[Vec<FilterNode>],
        computed: &[Vec<Rgba>],
        composed: Option<&Vec<Rgba>>,
        ceiling: u64,
    ) -> (outcome: Result<Turn, Error>)
        requires
            old(self).wf(),
            forall|i: int| 0 <= i < filters@.len() ==> walkable((#[trigger] filters@[i])@),
        ensures
            final(self).wf(),
            ({
                let reach = old(self)@.closed(
                    filters@,
                    blocks(computed@),
                    match composed {
                        Some(values) => Some(values@),
                        None => None,
                    },
                    ceiling,
                );
                match outcome {
                    Err(error) => reach == Reach::Refused(error) && final(self)@ == old(
                        self,
                    )@.own_clips_closed(),
                    Ok(Turn::Done) => reach == Reach::Done(final(self)@),
                    Ok(Turn::Filter { node, inputs }) => reach == Reach::Waits(node as int, final(self)@)
                        && asked_inputs(final(self)@, filters@, blocks(computed@), node, inputs@),
                    Ok(Turn::Compose(list)) => reach == Reach::Composes(list@, final(self)@),
                }
            }),
    {
        let count: usize = self.layers.len();
        if count == 0 {
            return Ok(Turn::Done);
        }
        let ghost start = self@;
        assert(start.layers.last() == self.layers@[count - 1]@);
        let depth: usize = self.layers[count - 1].clip_depth;
        self.pop_clips_to(depth);
        proof {
            unclipping_keeps_the_rest(start, depth as nat);
            assert(self@.layers.len() == start.layers.len());
        }
        let ghost ready = self@;
        assert(ready.layers.last() == self.layers@[count - 1]@);
        let ghost kept = *self;
        let outcome = self.filter_layer(filters, computed, ceiling);
        let filtered: Option<Surface> = match outcome {
            Err(error) => return Err(error),
            Ok(None) => None,
            Ok(Some(Evaluation::Pending { node, inputs })) => return Ok(Turn::Filter { node, inputs }),
            Ok(Some(Evaluation::Finished(surface))) => Some(surface),
        };
        let ghost source: Sheet = if filtered is Some {
            filtered->Some_0@
        } else {
            ready.layers.last().sheet
        };
        let under: PixelRect = if count == 1 {
            self.tile
        } else {
            assert(ready.beneath().layers.last() == self.layers@[count - 2]@);
            self.layers[count - 2].bounds
        };
        let area = under.intersection(&self.layers[count - 1].bounds);
        let list: Vec<Spot> = if count == 1 {
            match &filtered {
                Some(surface) => collect_spots(surface, &self.base, &self.clips, area),
                None => collect_spots(&self.layers[count - 1].surface, &self.base, &self.clips, area),
            }
        } else {
            match &filtered {
                Some(surface) => collect_spots(
                    surface,
                    &self.layers[count - 2].surface,
                    &self.clips,
                    area,
                ),
                None => collect_spots(
                    &self.layers[count - 1].surface,
                    &self.layers[count - 2].surface,
                    &self.clips,
                    area,
                ),
            }
        };
        assert(list@ == ready.layer_spots(source));
        let ghost values_given = match composed {
            Some(values) => Some(values@),
            None => None::<Seq<Rgba>>,
        };
        match composed {
            Some(values) if values.len() == list.len() => {
                if let Some(surface) = filtered {
                    self.pool.give(surface);
                }
                let ghost full = *self;
                assert(full@ =~= ready);
                self.close_settled(&list, values);
                assert(ready.composited(source, values_given) == Reach::Done(self@));
                Ok(Turn::Done)
            },
            _ => {
                if let Some(surface) = filtered {
                    self.pool.give(surface);
                }
                assert(self@ =~= ready);
                assert(ready.composited(source, values_given) == Reach::Composes(list@, ready));
                Ok(Turn::Compose(list))
            },
        }
    }

    /// Settle the pixels of the innermost layer on what is under it, and give its surface back.
    fn close_settled(&mut self, list: &Vec<Spot>, values: &Vec<Rgba>)
        requires
            old(self).wf(),
            old(self).layers@.len() > 0,
            values@.len() == list@.len(),
        ensures
            final(self).wf(),
            ({
                let under = old(self)@.beneath();
                final(self)@ == (Canvas {
                    surfaces: old(self)@.surfaces + 1,
                    ..under.with_sheet(settled(under.sheet(), list@, values@, list@.len()))
                })
            }),
    {
        let ghost before = *self;
        let ghost under = self@.beneath();
        if let Some(layer) = self.layers.pop() {
            assert(before.layers@.last() == layer);
            assert(groups(self.layers@) =~= under.layers);
            assert(self.pool.fits(layer.surface));
            self.pool.give(layer.surface);
            let count: usize = self.layers.len();
            let ghost middle = *self;
            assert(middle@ =~= (Canvas { surfaces: before@.surfaces + 1, ..under }));
            if count == 0 {
                settle(&mut self.base, list, values);
            } else {
                assert(under.layers.last() == middle.layers@[count - 1]@);
                settle(&mut self.layers[count - 1].surface, list, values);
            }
            assert(self@.layers =~= under.with_sheet(
                settled(under.sheet(), list@, values@, list@.len()),
            ).layers);
        }
    }

    /// Perform one command, with what the caller computed for it. A command that needs more says what, and is
    /// performed again with it.
    pub fn perform(
        &mut self,
        step: &Step,
        answer: &Answer,
        filters: &[Vec<FilterNode>],
        expansion: u32,
        ceiling: u64,
    ) -> (outcome: Result<Turn, Error>)
        requires
            old(self).wf(),
            forall|i: int| 0 <= i < filters@.len() ==> walkable((#[trigger] filters@[i])@),
            match *step {
                Step::BeginLayer { bounds, filter, .. } => countable(
                    old(self)@.layer_area(bounds, filter, expansion),
                ),
                _ => true,
            },
        ensures
            final(self).wf(),
            ({
                let reach = old(self)@.performed(*step, *answer, filters@, expansion, ceiling);
                match outcome {
                    Err(error) => reach == Reach::Refused(error) && final(self)@ == (if *step is EndLayer {
                        old(self)@.own_clips_closed()
                    } else {
                        old(self)@
                    }),
                    Ok(Turn::Done) => reach == Reach::Done(final(self)@),
                    Ok(Turn::Filter { node, inputs }) => {
                        &&& reach == Reach::Waits(node as int, final(self)@)
                        &&& *step is EndLayer
                        &&& asked_inputs(
                            final(self)@,
                            filters@,
                            match *answer {
                                Answer::Closing { computed, .. } => blocks(computed@),
                                _ => Seq::empty(),
                            },
                            node,
                            inputs@,
                        )
                    },
                    Ok(Turn::Compose(list)) => reach == Reach::Composes(list@, final(self)@),
                }
            }),
    {
        match step {
            Step::Fill { .. } | Step::Image { .. } | Step::Glyphs { .. } | Step::AliasedLines { .. } => {
                match answer {
                    Answer::Spans(spans) => self.draw(spans),
                    _ => {
                        let none: Vec<Span> = Vec::new();
                        self.draw(&none);
                    },
                }
                Ok(Turn::Done)
            },
            Step::PushClip { edges, bounds, inverse, .. } => {
                match answer {
                    Answer::Rows(rows) => self.push_clip(edges.is_empty(), *bounds, *inverse, rows.as_slice()),
                    _ => {
                        let none: Vec<Row> = Vec::new();
                        self.push_clip(edges.is_empty(), *bounds, *inverse, none.as_slice());
                    },
                }
                Ok(Turn::Done)
            },
            Step::PushClipMask { inverse, .. } => {
                match answer {
                    Answer::Alpha(values) => self.push_clip_mask(Some(values), *inverse),
                    _ => self.push_clip_mask(None, *inverse),
                }
                Ok(Turn::Done)
            },
            Step::PopClip => {
                self.pop_clip();
                Ok(Turn::Done)
            },
            Step::BeginLayer { bounds, ink, filter } => {
                match self.begin_layer(*bounds, *ink, *filter, expansion, ceiling) {
                    Ok(_) => Ok(Turn::Done),
                    Err(error) => Err(error),
                }
            },
            Step::EndLayer => match answer {
                Answer::Closing { computed, composed } => {
                    let values: Option<&Vec<Rgba>> = match composed {
                        Some(found) => Some(found),
                        None => None,
                    };
                    self.end_layer(filters, computed.as_slice(), values, ceiling)
                },
                _ => {
                    let none: Vec<Vec<Rgba>> = Vec::new();
                    assert(blocks(none@) =~= Seq::<Seq<Rgba>>::empty());
                    self.end_layer(filters, none.as_slice(), None, ceiling)
                },
            },
        }
    }

    /// Finish the tile: every layer's surface and every clip's mask goes back to its reservation.
    pub fn finish(self) -> (parts: (Surface, Pool, MaskPool))
        requires
            self.wf(),
        ensures
            parts.0 == self.base,
            parts.1.wf(),
            parts.1.extent == self.pool.extent,
            parts.1.free@.len() == self@.surfaces + self@.layers.len(),
            parts.2.wf(),
            parts.2.size == self.masks.size,
            parts.2.free@.len() == self@.masks + super::clip::returned(
                self@.clips.levels,
                self@.mask_size,
                self@.clips.levels.len(),
            ).len(),
    {
        let Replay { tile, base, clips, layers, pool, masks } = self;
        let mut clips = clips;
        let mut layers = layers;
        let mut pool = pool;
        let mut masks = masks;
        while layers.len() > 0
            invariant
                pool.wf(),
                pool.extent == self.pool.extent,
                pool.free@.len() + layers@.len() == self@.surfaces + self@.layers.len(),
                forall|i: int| 0 <= i < layers@.len() ==> pool.fits((#[trigger] layers@[i]).surface),
            decreases layers@.len(),
        {
            let ghost before = layers@;
            if let Some(layer) = layers.pop() {
                assert(layer == before[before.len() - 1]);
                pool.give(layer.surface);
            }
        }
        let ghost held = masks.free@;
        clips.drain_into(&mut masks);
        assert(super::clip::masks(held).len() == held.len());
        assert(super::clip::masks(masks.free@).len() == masks.free@.len());
        (base, pool, masks)
    }
}

/// What a filter node is given to compute from: the pixels of the surfaces it reads.
pub open spec fn asked_inputs(
    canvas: Canvas,
    filters: Seq<Vec<FilterNode>>,
    computed: Seq<Seq<Rgba>>,
    node: usize,
    inputs: Seq<Vec<Rgba>>,
) -> bool {
    match canvas.graph(filters) {
        None => false,
        Some(nodes) => {
            let scene = canvas.scene(nodes, computed);
            &&& inputs.len() == nodes[node as int].reads().len()
            &&& forall|i: int|
                0 <= i < inputs.len() ==> (#[trigger] inputs[i])@ == scene.stages(
                    node as nat,
                )[nodes[node as int].reads()[i] as int].pixels
        },
    }
}

// ---------------------------------------------------------------------------------------------
// Laws of the replay.
// ---------------------------------------------------------------------------------------------
impl Canvas {
    /// Whether every open clip's mask is one of the reservation's.
    pub open spec fn own_masks(self) -> bool {
        forall|i: int|
            0 <= i < self.clips.levels.len() ==> match (#[trigger] self.clips.levels[i]).mask {
                Some(mask) => mask.len() == self.mask_size,
                None => true,
            }
    }

    /// How many surfaces there are, taken or not.
    pub open spec fn all_surfaces(self) -> nat {
        self.surfaces + self.layers.len()
    }

    /// How many masks there are, taken or not.
    pub open spec fn all_masks(self) -> nat {
        self.masks + super::clip::returned(self.clips.levels, self.mask_size, self.clips.levels.len()).len()
    }

    /// Whether another state has the same tile and the same storage.
    pub open spec fn same_storage(self, other: Canvas) -> bool {
        &&& self.tile == other.tile
        &&& self.extent == other.extent
        &&& self.mask_size == other.mask_size
        &&& self.all_surfaces() == other.all_surfaces()
        &&& self.all_masks() == other.all_masks()
    }
}

proof fn rows_keep_the_size(mask: Seq<u8>, area: PixelRect, rows: Seq<Row>, inverse: bool, count: nat)
    ensures
        rows_written(mask, area, rows, inverse, count).len() == mask.len(),
    decreases count,
{
    if count > 0 {
        rows_keep_the_size(mask, area, rows, inverse, (count - 1) as nat);
    }
}

proof fn returned_is_by_level(some: Seq<Admission>, other: Seq<Admission>, size: nat, count: nat)
    requires
        count <= some.len(),
        count <= other.len(),
        forall|i: int| 0 <= i < count ==> #[trigger] some[i] == other[i],
    ensures
        super::clip::returned(some, size, count) == super::clip::returned(other, size, count),
    decreases count,
{
    if count > 0 {
        assert(some[count - 1] == other[count - 1]);
        returned_is_by_level(some, other, size, (count - 1) as nat);
    }
}

proof fn a_level_holds_its_mask(canvas: Canvas, level: Admission)
    ensures
        canvas.with_level(level).all_masks() == canvas.all_masks() + (if returnable(
            level.mask,
            canvas.mask_size,
        ) {
            1nat
        } else {
            0nat
        }),
{
    let levels = canvas.clips.levels;
    returned_is_by_level(levels.push(level), levels, canvas.mask_size, levels.len());
}

proof fn unclipping_returns(canvas: Canvas, depth: nat)
    requires
        canvas.own_masks(),
    ensures
        canvas.unclipped_to(depth).own_masks(),
        canvas.unclipped_to(depth).all_masks() == canvas.all_masks(),
        canvas.unclipped().own_masks(),
        canvas.unclipped().all_masks() == canvas.all_masks(),
    decreases canvas.clips.levels.len(),
{
    let levels = canvas.clips.levels;
    if levels.len() > 0 {
        returned_is_by_level(
            levels.drop_last(),
            levels,
            canvas.mask_size,
            (levels.len() - 1) as nat,
        );
        if levels.len() > depth {
            unclipping_returns(canvas.unclipped(), depth);
        }
    }
}

proof fn a_run_is_stored_by_pixel(
    sheet: Sheet,
    area: PixelRect,
    x: u32,
    y: u32,
    values: Seq<Rgba>,
    count: nat,
    u: int,
    v: int,
)
    requires
        sheet.wf(),
    ensures
        spanned(sheet, area, x, y, values, count).wf(),
        spanned(sheet, area, x, y, values, count).same_place(sheet),
        spanned(sheet, area, x, y, values, count).at(u, v) == (if v == y && x <= u < x + count && area.has(u, v)
            && sheet.has(u, v) {
            values[u - x]
        } else {
            sheet.at(u, v)
        }),
    decreases count,
{
    if count > 0 {
        a_run_is_stored_by_pixel(sheet, area, x, y, values, (count - 1) as nat, u, v);
        let before = spanned(sheet, area, x, y, values, (count - 1) as nat);
        setting_sets_one(before, x + count - 1, y as int, values[count - 1], u, v);
    }
}

proof fn runs_stay_in_their_area(sheet: Sheet, area: PixelRect, spans: Seq<Span>, count: nat, u: int, v: int)
    requires
        sheet.wf(),
    ensures
        all_spanned(sheet, area, spans, count).wf(),
        all_spanned(sheet, area, spans, count).same_place(sheet),
        !area.has(u, v) ==> all_spanned(sheet, area, spans, count).at(u, v) == sheet.at(u, v),
    decreases count,
{
    if count > 0 {
        runs_stay_in_their_area(sheet, area, spans, (count - 1) as nat, u, v);
        let span = spans[count - 1];
        a_run_is_stored_by_pixel(
            all_spanned(sheet, area, spans, (count - 1) as nat),
            area,
            span.x,
            span.y,
            span.values@,
            span.values@.len(),
            u,
            v,
        );
    }
}

/// A drawing touches nothing outside the area it may draw in, whatever runs it is given.
pub proof fn a_drawing_stays_in_its_area(canvas: Canvas, spans: Seq<Span>, x: int, y: int)
    requires
        canvas.sheet().wf(),
        !canvas.area().has(x, y),
    ensures
        canvas.drawn(spans).sheet().at(x, y) == canvas.sheet().at(x, y),
        canvas.drawn(spans).sheet().same_place(canvas.sheet()),
        canvas.drawn(spans).area() == canvas.area(),
{
    runs_stay_in_their_area(canvas.sheet(), canvas.area(), spans, spans.len(), x, y);
}

/// A pixel of the area is what the last run over it says, and a run over nothing else changes it.
pub proof fn the_last_run_over_a_pixel_stands(canvas: Canvas, spans: Seq<Span>, x: int, y: int)
    requires
        canvas.sheet().wf(),
        spans.len() > 0,
    ensures
        ({
            let span = spans.last();
            canvas.drawn(spans).sheet().at(x, y) == (if y == span.y && span.x <= x < span.x + span.values@.len()
                && canvas.area().has(x, y) && canvas.sheet().has(x, y) {
                span.values@[x - span.x]
            } else {
                canvas.drawn(spans.drop_last()).sheet().at(x, y)
            })
        }),
{
    let (sheet, area) = (canvas.sheet(), canvas.area());
    let span = spans.last();
    let count = (spans.len() - 1) as nat;
    runs_stay_in_their_area(sheet, area, spans, count, x, y);
    a_run_is_stored_by_pixel(
        all_spanned(sheet, area, spans, count),
        area,
        span.x,
        span.y,
        span.values@,
        span.values@.len(),
        x,
        y,
    );
    fewer_runs_are_the_same(sheet, area, spans, spans.drop_last(), count);
}

proof fn fewer_runs_are_the_same(sheet: Sheet, area: PixelRect, spans: Seq<Span>, other: Seq<Span>, count: nat)
    requires
        count <= spans.len(),
        count <= other.len(),
        forall|i: int| 0 <= i < count ==> #[trigger] spans[i] == other[i],
    ensures
        all_spanned(sheet, area, spans, count) == all_spanned(sheet, area, other, count),
    decreases count,
{
    if count > 0 {
        assert(spans[count - 1] == other[count - 1]);
        fewer_runs_are_the_same(sheet, area, spans, other, (count - 1) as nat);
    }
}

/// Whatever a command does, no surface and no mask is lost: each is in its reservation, in an open layer or in
/// an open clip. So a tile leaves as much storage as it found.
pub proof fn nothing_is_lost(
    canvas: Canvas,
    step: Step,
    answer: Answer,
    filters: Seq<Vec<FilterNode>>,
    expansion: u32,
    ceiling: u64,
)
    requires
        canvas.own_masks(),
    ensures
        match canvas.performed(step, answer, filters, expansion, ceiling) {
            Reach::Refused(_) => true,
            Reach::Waits(_, next) => next.own_masks() && next.same_storage(canvas),
            Reach::Composes(_, next) => next.own_masks() && next.same_storage(canvas),
            Reach::Done(next) => next.own_masks() && next.same_storage(canvas),
        },
{
    match step {
        Step::PushClip { edges, bounds, inverse, .. } => {
            let rows = match answer {
                Answer::Rows(rows) => rows@,
                _ => Seq::empty(),
            };
            let next = canvas.clipped(edges.edges@.len() == 0, bounds, inverse, rows);
            let level = next.clips.levels.last();
            let area = canvas.clip_area(bounds, inverse);
            let blank = Seq::new(
                canvas.mask_size,
                |i: int|
                    if inverse {
                        255u8
                    } else {
                        0u8
                    },
            );
            rows_keep_the_size(blank, area, rows, inverse, rows.len());
            a_level_holds_its_mask(canvas, level);
            assert(next.clips.levels =~= canvas.with_level(level).clips.levels);
        },
        Step::PushClipMask { inverse, .. } => {
            let alpha = match answer {
                Answer::Alpha(values) => Some(values@),
                _ => None,
            };
            let next = canvas.mask_clipped(alpha, inverse);
            let level = next.clips.levels.last();
            a_level_holds_its_mask(canvas, level);
            assert(next.clips.levels =~= canvas.with_level(level).clips.levels);
        },
        Step::PopClip => {
            unclipping_returns(canvas, 0);
        },
        Step::BeginLayer { .. } => {},
        Step::EndLayer => {
            if canvas.layers.len() > 0 {
                let depth = canvas.layers.last().clip_depth;
                unclipping_returns(canvas, depth);
                unclipping_keeps_the_rest(canvas, depth);
            }
        },
        _ => {},
    }
}

/// A drawing inside a layer touches neither the tile nor the layers around it.
pub proof fn a_layer_is_drawn_apart(canvas: Canvas, spans: Seq<Span>)
    requires
        canvas.layers.len() > 0,
    ensures
        canvas.drawn(spans).base == canvas.base,
        canvas.drawn(spans).layers.drop_last() == canvas.layers.drop_last(),
{
    assert(canvas.drawn(spans).layers.drop_last() =~= canvas.layers.drop_last());
}

proof fn unclipping_reaches_the_depth(canvas: Canvas, depth: nat)
    ensures
        canvas.unclipped_to(depth).clips.levels.len() <= depth,
    decreases canvas.clips.levels.len(),
{
    if canvas.clips.levels.len() > depth {
        unclipping_reaches_the_depth(canvas.unclipped(), depth);
    }
}

/// A layer closes its own clips: once it is closed, no clip opened inside it applies to what follows.
pub proof fn a_layer_closes_its_clips(
    canvas: Canvas,
    filters: Seq<Vec<FilterNode>>,
    computed: Seq<Seq<Rgba>>,
    composed: Option<Seq<Rgba>>,
    ceiling: u64,
)
    requires
        canvas.layers.len() > 0,
    ensures
        match canvas.closed(filters, computed, composed, ceiling) {
            Reach::Done(next) => next.clips.levels.len() <= canvas.layers.last().clip_depth && next.layers.len()
                == canvas.layers.len() - 1,
            _ => true,
        },
{
    let depth = canvas.layers.last().clip_depth;
    unclipping_reaches_the_depth(canvas, depth);
    unclipping_keeps_the_rest(canvas, depth);
}

proof fn row_spots_are_open(
    source: Sheet,
    into: Sheet,
    clips: Nesting,
    area: PixelRect,
    y: int,
    count: nat,
    i: int,
)
    requires
        area.x + area.width <= u32::MAX,
        0 <= y <= u32::MAX,
        count <= area.width,
        0 <= i < row_spots(source, into, clips, area, y, count).len(),
    ensures
        ({
            let spot = row_spots(source, into, clips, area, y, count)[i];
            &&& area.x <= spot.x < area.x + area.width
            &&& spot.y == y
            &&& !clips.blocks(spot.x as int, spot.y as int)
        }),
    decreases count,
{
    let before = row_spots(source, into, clips, area, y, (count - 1) as nat);
    if i < before.len() {
        row_spots_are_open(source, into, clips, area, y, (count - 1) as nat, i);
    }
}

proof fn spots_are_open(source: Sheet, into: Sheet, clips: Nesting, area: PixelRect, count: nat, i: int)
    requires
        area.x + area.width <= u32::MAX,
        area.y + area.height <= u32::MAX,
        count <= area.height,
        0 <= i < spots(source, into, clips, area, count).len(),
    ensures
        ({
            let spot = spots(source, into, clips, area, count)[i];
            &&& area.has(spot.x as int, spot.y as int)
            &&& !clips.blocks(spot.x as int, spot.y as int)
        }),
    decreases count,
{
    let before = spots(source, into, clips, area, (count - 1) as nat);
    if i < before.len() {
        spots_are_open(source, into, clips, area, (count - 1) as nat, i);
    } else {
        row_spots_are_open(
            source,
            into,
            clips,
            area,
            area.y + count - 1,
            area.width as nat,
            i - before.len(),
        );
    }
}

proof fn settling_keeps(sheet: Sheet, list: Seq<Spot>, values: Seq<Rgba>, count: nat, x: int, y: int)
    requires
        sheet.wf(),
        count <= list.len(),
        forall|i: int| 0 <= i < list.len() ==> !((#[trigger] list[i]).x == x && list[i].y == y),
    ensures
        settled(sheet, list, values, count).wf(),
        settled(sheet, list, values, count).at(x, y) == sheet.at(x, y),
    decreases count,
{
    if count > 0 {
        settling_keeps(sheet, list, values, (count - 1) as nat, x, y);
        let spot = list[count - 1];
        setting_sets_one(
            settled(sheet, list, values, (count - 1) as nat),
            spot.x as int,
            spot.y as int,
            values[count - 1],
            x,
            y,
        );
    }
}

/// Compositing a layer changes no pixel outside its bounds, and none that a clip lets nothing through of.
pub proof fn compositing_keeps_what_is_clipped(
    canvas: Canvas,
    source: Sheet,
    values: Seq<Rgba>,
    x: int,
    y: int,
)
    requires
        canvas.layers.len() > 0,
        canvas.beneath().sheet().wf(),
        countable(canvas.layers.last().bounds),
        !canvas.layers.last().bounds.has(x, y) || canvas.clips.blocks(x, y),
        canvas.composited(source, Some(values)) is Done,
    ensures
        canvas.composited(source, Some(values))->Done_0.sheet().at(x, y) == canvas.beneath().sheet().at(x, y),
{
    let under = canvas.beneath();
    let area = under.area().meet(canvas.layers.last().bounds);
    let list = canvas.layer_spots(source);
    assert forall|i: int| 0 <= i < list.len() implies !((#[trigger] list[i]).x == x && list[i].y == y) by {
        spots_are_open(source, under.sheet(), canvas.clips, area, area.height as nat, i);
        super::geom::meeting_is_by_pixels(
            under.area(),
            canvas.layers.last().bounds,
            list[i].x as int,
            list[i].y as int,
        );
    }
    settling_keeps(under.sheet(), list, values, list.len(), x, y);
    let next = under.with_sheet(settled(under.sheet(), list, values, list.len()));
    assert(next.sheet() == settled(under.sheet(), list, values, list.len()));
}

proof fn row_spots_are_by_pixel(source: Sheet, into: Sheet, clips: Nesting, area: PixelRect, y: int, count: nat)
    requires
        area.x + area.width <= u32::MAX,
        0 <= y <= u32::MAX,
        count <= area.width,
    ensures
        ({
            let list = row_spots(source, into, clips, area, y, count);
            &&& forall|i: int|
                0 <= i < list.len() ==> area.x <= (#[trigger] list[i]).x < area.x + count && list[i].y == y
                    && !clips.blocks(list[i].x as int, y) && list[i].source == source.at(list[i].x as int, y)
                    && list[i].backdrop == into.at(list[i].x as int, y)
            &&& forall|i: int, j: int| 0 <= i < j < list.len() ==> (#[trigger] list[i]).x < (#[trigger] list[j]).x
            &&& forall|x: int|
                area.x <= x < area.x + count && !(#[trigger] clips.blocks(x, y)) ==> exists|i: int|
                    0 <= i < list.len() && (#[trigger] list[i]).x == x
        }),
    decreases count,
{
    if count > 0 {
        row_spots_are_by_pixel(source, into, clips, area, y, (count - 1) as nat);
        let before = row_spots(source, into, clips, area, y, (count - 1) as nat);
        let list = row_spots(source, into, clips, area, y, count);
        let x = area.x + count - 1;
        assert forall|i: int| 0 <= i < list.len() implies area.x <= (#[trigger] list[i]).x < area.x + count && list[i].y
            == y && !clips.blocks(list[i].x as int, y) && list[i].source == source.at(list[i].x as int, y)
            && list[i].backdrop == into.at(list[i].x as int, y) by {
            if i < before.len() {
                assert(list[i] == before[i]);
            }
        }
        assert forall|i: int, j: int| 0 <= i < j < list.len() implies (#[trigger] list[i]).x < (
        #[trigger] list[j]).x by {
            assert(list[i] == before[i]);
            if j < before.len() {
                assert(list[j] == before[j]);
            }
        }
        assert forall|u: int| area.x <= u < area.x + count && !(#[trigger] clips.blocks(u, y)) implies exists|i: int|
            0 <= i < list.len() && (#[trigger] list[i]).x == u by {
            if u < x {
                let i = choose|i: int| 0 <= i < before.len() && (#[trigger] before[i]).x == u;
                assert(list[i] == before[i]);
            } else {
                assert(list[before.len() as int].x == u);
            }
        }
    }
}

proof fn spots_are_by_pixel(source: Sheet, into: Sheet, clips: Nesting, area: PixelRect, count: nat)
    requires
        area.x + area.width <= u32::MAX,
        area.y + area.height <= u32::MAX,
        count <= area.height,
    ensures
        ({
            let list = spots(source, into, clips, area, count);
            &&& forall|i: int|
                0 <= i < list.len() ==> area.x <= (#[trigger] list[i]).x < area.x + area.width && area.y <= list[i].y
                    < area.y + count && !clips.blocks(list[i].x as int, list[i].y as int) && list[i].source
                    == source.at(list[i].x as int, list[i].y as int) && list[i].backdrop == into.at(
                    list[i].x as int,
                    list[i].y as int,
                )
            &&& forall|i: int, j: int|
                0 <= i < j < list.len() ==> (#[trigger] list[i]).y < (#[trigger] list[j]).y || list[i].y == list[j].y
                    && list[i].x < list[j].x
            &&& forall|x: int, y: int|
                area.x <= x < area.x + area.width && area.y <= y < area.y + count && !(#[trigger] clips.blocks(x, y))
                    ==> exists|i: int| 0 <= i < list.len() && (#[trigger] list[i]).x == x && list[i].y == y
        }),
    decreases count,
{
    if count > 0 {
        let row = area.y + count - 1;
        spots_are_by_pixel(source, into, clips, area, (count - 1) as nat);
        row_spots_are_by_pixel(source, into, clips, area, row, area.width as nat);
        let before = spots(source, into, clips, area, (count - 1) as nat);
        let last = row_spots(source, into, clips, area, row, area.width as nat);
        let list = spots(source, into, clips, area, count);
        assert(list == before + last);
        assert forall|i: int| 0 <= i < list.len() implies area.x <= (#[trigger] list[i]).x < area.x + area.width && area.y
            <= list[i].y < area.y + count && !clips.blocks(list[i].x as int, list[i].y as int) && list[i].source
            == source.at(list[i].x as int, list[i].y as int) && list[i].backdrop == into.at(
            list[i].x as int,
            list[i].y as int,
        ) by {
            if i < before.len() {
                assert(list[i] == before[i]);
            } else {
                assert(list[i] == last[i - before.len()]);
            }
        }
        assert forall|i: int, j: int| 0 <= i < j < list.len() implies (#[trigger] list[i]).y < (#[trigger] list[j]).y
            || list[i].y == list[j].y && list[i].x < list[j].x by {
            if j < before.len() {
                assert(list[i] == before[i] && list[j] == before[j]);
            } else if i < before.len() {
                assert(list[i] == before[i] && list[j] == last[j - before.len()]);
            } else {
                assert(list[i] == last[i - before.len()] && list[j] == last[j - before.len()]);
            }
        }
        assert forall|x: int, y: int|
            area.x <= x < area.x + area.width && area.y <= y < area.y + count && !(#[trigger] clips.blocks(x, y)) implies
            exists|i: int| 0 <= i < list.len() && (#[trigger] list[i]).x == x && list[i].y == y by {
            if y < row {
                let i = choose|i: int| 0 <= i < before.len() && (#[trigger] before[i]).x == x && before[i].y == y;
                assert(list[i] == before[i]);
            } else {
                let i = choose|i: int| 0 <= i < last.len() && (#[trigger] last[i]).x == x;
                assert(list[before.len() + i] == last[i]);
            }
        }
    }
}

proof fn settling_is_by_pixel(sheet: Sheet, list: Seq<Spot>, values: Seq<Rgba>, count: nat, i: int)
    requires
        sheet.wf(),
        0 <= i < count <= list.len(),
        sheet.has(list[i].x as int, list[i].y as int),
        forall|j: int, k: int|
            0 <= j < k < list.len() ==> !((#[trigger] list[j]).x == (#[trigger] list[k]).x && list[j].y == list[k].y),
    ensures
        settled(sheet, list, values, count).wf(),
        settled(sheet, list, values, count).same_place(sheet),
        settled(sheet, list, values, count).at(list[i].x as int, list[i].y as int) == values[i],
    decreases count,
{
    let before = settled(sheet, list, values, (count - 1) as nat);
    settling_keeps_its_place(sheet, list, values, (count - 1) as nat);
    let spot = list[count - 1];
    setting_sets_one(
        before,
        spot.x as int,
        spot.y as int,
        values[count - 1],
        list[i].x as int,
        list[i].y as int,
    );
    if i < count - 1 {
        settling_is_by_pixel(sheet, list, values, (count - 1) as nat, i);
        assert(!(list[i].x == list[count - 1].x && list[i].y == list[count - 1].y));
    }
}

proof fn settling_keeps_its_place(sheet: Sheet, list: Seq<Spot>, values: Seq<Rgba>, count: nat)
    requires
        sheet.wf(),
        count <= list.len(),
    ensures
        settled(sheet, list, values, count).wf(),
        settled(sheet, list, values, count).same_place(sheet),
    decreases count,
{
    if count > 0 {
        settling_keeps_its_place(sheet, list, values, (count - 1) as nat);
        let spot = list[count - 1];
        setting_sets_one(
            settled(sheet, list, values, (count - 1) as nat),
            spot.x as int,
            spot.y as int,
            values[count - 1],
            0,
            0,
        );
    }
}

/// What is composited of a layer is every pixel of it in the area it lies on and not blocked, row by row and each once:
/// its own colour there over the one that is there already.
pub proof fn a_layer_is_composited_by_pixel(canvas: Canvas, source: Sheet, x: int, y: int, i: int)
    requires
        canvas.layers.len() > 0,
        countable(canvas.layers.last().bounds),
        0 <= i < canvas.layer_spots(source).len(),
    ensures
        ({
            let list = canvas.layer_spots(source);
            let (under, bounds) = (canvas.beneath(), canvas.layers.last().bounds);
            let spot = list[i];
            &&& under.area().has(spot.x as int, spot.y as int) && bounds.has(spot.x as int, spot.y as int)
            &&& !canvas.clips.blocks(spot.x as int, spot.y as int)
            &&& spot.source == source.at(spot.x as int, spot.y as int)
            &&& spot.backdrop == under.sheet().at(spot.x as int, spot.y as int)
            &&& under.area().has(x, y) && bounds.has(x, y) && !canvas.clips.blocks(x, y) ==> exists|k: int|
                0 <= k < list.len() && (#[trigger] list[k]).x == x && list[k].y == y
            &&& i + 1 < list.len() ==> spot.y < list[i + 1].y || spot.y == list[i + 1].y && spot.x < list[i + 1].x
        }),
{
    let under = canvas.beneath();
    let area = under.area().meet(canvas.layers.last().bounds);
    let spot = canvas.layer_spots(source)[i];
    spots_are_by_pixel(source, under.sheet(), canvas.clips, area, area.height as nat);
    super::geom::meeting_is_by_pixels(under.area(), canvas.layers.last().bounds, spot.x as int, spot.y as int);
    super::geom::meeting_is_by_pixels(under.area(), canvas.layers.last().bounds, x, y);
}

/// Once a layer is composited, each of its pixels is the value that was given for it, in the order they were asked for.
pub proof fn a_composited_pixel_is_its_value(canvas: Canvas, source: Sheet, values: Seq<Rgba>, i: int)
    requires
        canvas.layers.len() > 0,
        canvas.beneath().sheet().wf(),
        countable(canvas.layers.last().bounds),
        values.len() == canvas.layer_spots(source).len(),
        0 <= i < values.len(),
        canvas.beneath().sheet().has(
            canvas.layer_spots(source)[i].x as int,
            canvas.layer_spots(source)[i].y as int,
        ),
    ensures
        canvas.composited(source, Some(values)) matches Reach::Done(after) && after.sheet().at(
            canvas.layer_spots(source)[i].x as int,
            canvas.layer_spots(source)[i].y as int,
        ) == values[i] && after.layers.len() == canvas.layers.len() - 1 && after.surfaces == canvas.surfaces + 1,
{
    let under = canvas.beneath();
    let area = under.area().meet(canvas.layers.last().bounds);
    let list = canvas.layer_spots(source);
    spots_are_by_pixel(source, under.sheet(), canvas.clips, area, area.height as nat);
    settling_is_by_pixel(under.sheet(), list, values, list.len(), i);
    let next = under.with_sheet(settled(under.sheet(), list, values, list.len()));
    assert(next.sheet() == settled(under.sheet(), list, values, list.len()));
}

/// A row of coverage lands on the pixels of its own row: at a pixel of the area, in that row, the mask has the row's
/// coverage as many columns on as the pixel is from the area's left, inverted for an inverse clip, and elsewhere what it
/// had.
pub proof fn a_row_of_coverage_lands_on_its_pixels(
    mask: Seq<u8>,
    area: PixelRect,
    y: u32,
    coverage: Seq<u8>,
    inverse: bool,
    u: int,
    v: int,
)
    requires
        area.has(u, v),
        area.y <= y < area.y + area.height,
        mask.len() >= area.width * area.height,
        coverage.len() == area.width,
    ensures
        ({
            let index = (v - area.y) * area.width + (u - area.x);
            let after = row_written(mask, area, y, coverage, inverse);
            &&& after.len() == mask.len()
            &&& 0 <= index < mask.len()
            &&& after[index] == if v == y {
                if inverse {
                    (255 - coverage[u - area.x]) as u8
                } else {
                    coverage[u - area.x]
                }
            } else {
                mask[index]
            }
        }),
{
    let (w, h) = (area.width as int, area.height as int);
    let index = (v - area.y) * w + (u - area.x);
    let start = (y - area.y) * w;
    crate::grid::cell_is_stored(u - area.x, v - area.y, w, h);
    crate::grid::cell_is_stored(w - 1, y - area.y, w, h);
    assert(start + w <= w * h);
    if v < y {
        assert(index < start) by (nonlinear_arith)
            requires
                index == (v - area.y) * w + (u - area.x),
                start == (y - area.y) * w,
                v + 1 <= y,
                u - area.x < w,
                w >= 0,
        ;
    } else if v > y {
        assert(index >= start + w) by (nonlinear_arith)
            requires
                index == (v - area.y) * w + (u - area.x),
                start == (y - area.y) * w,
                y + 1 <= v,
                u - area.x >= 0,
                w >= 0,
        ;
    }
}

/// A clip keeps to the area a drawing may touch and to its own bounds; an inverse one to the area alone.
pub proof fn a_clip_area_is_by_pixel(canvas: Canvas, bounds: PixelRect, x: int, y: int)
    ensures
        canvas.clip_area(bounds, false).has(x, y) <==> canvas.area().has(x, y) && bounds.has(x, y),
        canvas.clip_area(bounds, true).has(x, y) <==> canvas.area().has(x, y),
{
    super::geom::meeting_is_by_pixels(canvas.area(), bounds, x, y);
}

/// An empty shape clips everything away, and its inverse nothing.
pub proof fn an_empty_clip_shows_nothing(canvas: Canvas, bounds: PixelRect, rows: Seq<Row>, x: int, y: int)
    requires
        canvas.area().has(x, y),
    ensures
        canvas.clipped(true, bounds, false, rows).clips.levels.last().at(x, y) == 0,
        canvas.clipped(true, bounds, true, rows).clips.levels.last().at(x, y) == 255,
{
}

/// Under a mask a pixel is let through as the mask's alpha there says, the alphas row by row over the area; where the
/// image is not there nothing is clipped away, and a pixel without a point is.
pub proof fn a_mask_clip_is_by_pixel(canvas: Canvas, values: Seq<Option<u8>>, inverse: bool, x: int, y: int)
    requires
        canvas.area().has(x, y),
        canvas.masks > 0,
        canvas.mask_size >= canvas.area().width * canvas.area().height,
        values.len() == canvas.area().width * canvas.area().height,
    ensures
        ({
            let area = canvas.area();
            let index = (y - area.y) * area.width + (x - area.x);
            let level = canvas.mask_clipped(Some(values), inverse).clips.levels.last();
            &&& 0 <= index < values.len()
            &&& level.at(x, y) == match values[index] {
                Some(alpha) => if inverse {
                    (255 - alpha) as u8
                } else {
                    alpha
                },
                None => 0u8,
            }
            &&& canvas.mask_clipped(None, inverse).clips.levels.last().at(x, y) == 255
        }),
{
    let area = canvas.area();
    crate::grid::cell_is_stored(x - area.x, y - area.y, area.width as int, area.height as int);
}

/// A layer opens cleared, over the pixels it is for, under the clips that are open, and is closed by the next end; what is
/// drawn in between goes to it.
pub proof fn a_layer_opens_cleared(
    canvas: Canvas,
    bounds: Option<PixelRect>,
    ink: Ink,
    filter: Option<u32>,
    expansion: u32,
    ceiling: u64,
    x: int,
    y: int,
)
    requires
        canvas.surfaces > 0,
    ensures
        canvas.opened(bounds, ink, filter, expansion, ceiling) matches Reach::Done(after) && {
            &&& after.layers.len() == canvas.layers.len() + 1
            &&& after.layers.drop_last() =~= canvas.layers
            &&& after.base == canvas.base && after.clips == canvas.clips
            &&& after.layers.last().ink == ink && after.layers.last().filter == filter
            &&& after.sheet().at(x, y) == [0u32, 0, 0, 0]
            &&& after.area().has(x, y) <==> (match filter {
                Some(_) => grown(canvas.area(), expansion),
                None => grown(canvas.area(), 0),
            }).has(x, y) && (bounds matches Some(device) ==> device.has(x, y))
        },
{
    let reach = if filter is Some {
        expansion
    } else {
        0
    };
    if let Some(device) = bounds {
        super::geom::meeting_is_by_pixels(grown(canvas.area(), reach), device, x, y);
    }
    let area = canvas.layer_area(bounds, filter, expansion);
    let sheet = canvas.blank(area);
    if sheet.has(x, y) {
        crate::grid::cell_is_stored(
            x - sheet.x,
            y - sheet.y,
            sheet.width as int,
            sheet.height as int,
        );
    }
}


/// Of the rows of coverage with one coordinate the last decides what a mask holds there, and a row of the area without
/// one holds what it held.
pub proof fn the_last_row_of_coverage_decides(
    mask: Seq<u8>,
    area: PixelRect,
    rows: Seq<Row>,
    inverse: bool,
    count: nat,
    last: int,
    u: int,
    v: int,
)
    requires
        area.has(u, v),
        mask.len() >= area.width * area.height,
        count <= rows.len(),
        -1 <= last < count,
        forall|k: int|
            0 <= k < count ==> area.y <= (#[trigger] rows[k]).y < area.y + area.height && rows[k].coverage@.len()
                == area.width,
        last >= 0 ==> rows[last].y == v,
        forall|k: int| last < k < count ==> (#[trigger] rows[k]).y != v,
    ensures
        ({
            let index = (v - area.y) * area.width + (u - area.x);
            let after = rows_written(mask, area, rows, inverse, count);
            &&& after.len() == mask.len()
            &&& after[index] == if last < 0 {
                mask[index]
            } else if inverse {
                (255 - rows[last].coverage@[u - area.x]) as u8
            } else {
                rows[last].coverage@[u - area.x]
            }
        }),
    decreases count,
{
    rows_keep_the_size(mask, area, rows, inverse, count);
    if count > 0 {
        let before = rows_written(mask, area, rows, inverse, (count - 1) as nat);
        rows_keep_the_size(mask, area, rows, inverse, (count - 1) as nat);
        let row = rows[count - 1];
        a_row_of_coverage_lands_on_its_pixels(before, area, row.y, row.coverage@, inverse, u, v);
        if last < count - 1 {
            the_last_row_of_coverage_decides(mask, area, rows, inverse, (count - 1) as nat, last, u, v);
        }
    }
}

} // verus!
