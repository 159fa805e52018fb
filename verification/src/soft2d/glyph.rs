//! Glyphs: a bounded cache that evicts in insertion order, the subpixel filter, and where a run's pen stands.
use super::clip::{ClipStack, Nesting};
use super::geom::PixelRect;
use vstd::prelude::*;

verus! {

/// How coverage is laid out in a mask.
#[derive(Clone, Copy, PartialEq, Eq, Structural, Debug)]
pub enum SubpixelLayout {
    RgbHorizontal,
    RgbVertical,
    BgrHorizontal,
    BgrVertical,
    Unknown,
}

/// How a glyph is rasterised.
#[derive(Clone, Copy, PartialEq, Eq, Structural, Debug)]
pub enum RasterisationMode {
    Grayscale,
    Subpixel(SubpixelLayout),
}

/// The form a glyph is decoded to.
#[derive(Clone, Copy, PartialEq, Eq, Structural, Debug)]
pub enum GlyphKind {
    Outline,
    GrayscaleMask,
    SubpixelMask,
    BitmapStrike,
    ColrLayers,
}

/// Everything that distinguishes two decoded glyphs.
#[derive(Clone, Copy, PartialEq, Eq, Structural, Debug)]
pub struct GlyphCacheKey {
    pub face: u64,
    pub face_index: u32,
    pub generation: u64,
    pub glyph: u32,
    pub size: i32,
    pub variation: u64,
    pub transform: u64,
    pub phase_x: u8,
    pub phase_y: u8,
    pub kind: GlyphKind,
    pub strike: Option<u32>,
    pub palette: Option<u32>,
    pub mode: RasterisationMode,
}

/// One decoded glyph, positioned relative to the pen in device pixels. A path is named by a number of the
/// caller's, with the bytes it occupies.
#[derive(Clone, Debug)]
#[allow(inconsistent_fields)]
pub enum GlyphImage {
    /// An outline to fill.
    Outline { path: u64, size: u64 },
    /// A coverage mask.
    Mask { left: i32, top: i32, width: u32, height: u32, coverage: Vec<u8>, mode: RasterisationMode },
    /// A bitmap strike, which is already colour.
    Bitmap { left: i32, top: i32, image: u64, size: u64 },
    /// Outlines with their own colours, drawn in order.
    Layers { paths: Vec<u64>, size: u64 },
    /// A glyph there is no form for, which draws nothing.
    Missing,
}

impl GlyphImage {
    /// What holding this costs.
    pub open spec fn cost(self) -> int {
        match self {
            GlyphImage::Outline { size, .. } => size as int,
            GlyphImage::Mask { coverage, .. } => coverage@.len() as int,
            GlyphImage::Bitmap { size, .. } => size as int,
            GlyphImage::Layers { size, .. } => size as int,
            GlyphImage::Missing => 0,
        }
    }

    /// What holding this costs.
    pub fn bytes(&self) -> (cost: u64)
        ensures
            cost == self.cost(),
    {
        match self {
            GlyphImage::Outline { size, .. } => *size,
            GlyphImage::Mask { coverage, .. } => coverage.len() as u64,
            GlyphImage::Bitmap { size, .. } => *size,
            GlyphImage::Layers { size, .. } => *size,
            GlyphImage::Missing => 0,
        }
    }

    /// The kind this form is.
    pub fn kind(&self) -> (kind: Option<GlyphKind>)
        ensures
            kind == (match *self {
                GlyphImage::Outline { .. } => Some(GlyphKind::Outline),
                GlyphImage::Mask { mode, .. } => if mode == RasterisationMode::Grayscale {
                    Some(GlyphKind::GrayscaleMask)
                } else {
                    Some(GlyphKind::SubpixelMask)
                },
                GlyphImage::Bitmap { .. } => Some(GlyphKind::BitmapStrike),
                GlyphImage::Layers { .. } => Some(GlyphKind::ColrLayers),
                GlyphImage::Missing => None,
            }),
    {
        match self {
            GlyphImage::Outline { .. } => Some(GlyphKind::Outline),
            GlyphImage::Mask { mode, .. } => {
                if *mode == RasterisationMode::Grayscale {
                    Some(GlyphKind::GrayscaleMask)
                } else {
                    Some(GlyphKind::SubpixelMask)
                }
            },
            GlyphImage::Bitmap { .. } => Some(GlyphKind::BitmapStrike),
            GlyphImage::Layers { .. } => Some(GlyphKind::ColrLayers),
            GlyphImage::Missing => None,
        }
    }
}

/// Where decoded glyphs come from.
pub trait GlyphProvider {
    /// The decoded form for a key, or `Missing` when the face has no such glyph.
    fn glyph(&self, key: &GlyphCacheKey) -> GlyphImage;
}

/// A provider for a drawing with no text.
#[derive(Clone, Copy, Debug)]
pub struct NoGlyphs;

impl GlyphProvider for NoGlyphs {
    fn glyph(&self, key: &GlyphCacheKey) -> (image: GlyphImage)
        ensures
            image is Missing,
    {
        GlyphImage::Missing
    }
}

/// One cached glyph.
pub type Entry = (GlyphCacheKey, GlyphImage);

/// What the entries of a cache cost together.
pub open spec fn total(entries: Seq<Entry>) -> int
    decreases entries.len(),
{
    if entries.len() == 0 {
        0
    } else {
        entries[0].1.cost() + total(entries.skip(1))
    }
}

/// The entries left after the oldest have made room for one more: as few leave as must.
pub open spec fn kept(entries: Seq<Entry>, cost: int, ceiling: int) -> Seq<Entry>
    decreases entries.len(),
{
    if entries.len() == 0 || total(entries) + cost <= ceiling {
        entries
    } else {
        kept(entries.skip(1), cost, ceiling)
    }
}

/// Where the entry of a key is, from one on.
pub open spec fn place_of(entries: Seq<Entry>, key: GlyphCacheKey, from: nat) -> Option<int>
    decreases entries.len() - from,
{
    if from >= entries.len() {
        None
    } else if entries[from as int].0 == key {
        Some(from as int)
    } else {
        place_of(entries, key, from + 1)
    }
}

proof fn a_total_is_a_cost(entries: Seq<Entry>)
    ensures
        0 <= total(entries),
        entries.len() > 0 ==> 0 <= entries[0].1.cost() <= total(entries),
    decreases entries.len(),
{
    if entries.len() > 0 {
        a_total_is_a_cost(entries.skip(1));
    }
}

proof fn a_total_grows(entries: Seq<Entry>, entry: Entry)
    ensures
        total(entries.push(entry)) == total(entries) + entry.1.cost(),
    decreases entries.len(),
{
    if entries.len() == 0 {
        assert(entries.push(entry).skip(1) =~= entries);
    } else {
        a_total_grows(entries.skip(1), entry);
        assert(entries.push(entry).skip(1) =~= entries.skip(1).push(entry));
    }
}

/// The bounded glyph cache.
#[derive(Debug)]
pub struct GlyphRaster {
    pub entries: Vec<Entry>,
    pub bytes: u64,
    pub ceiling: u64,
    /// Bumped when the cache is cleared, which is what a prepared list is bound to.
    pub generation: u64,
}

impl GlyphRaster {
    /// The cost that is kept is what the entries cost.
    pub open spec fn wf(self) -> bool {
        self.bytes == total(self.entries@)
    }

    pub fn new(ceiling: u64) -> (made: GlyphRaster)
        ensures
            made.wf(),
            made.entries@.len() == 0,
            made.ceiling == ceiling,
            made.generation == 1,
    {
        GlyphRaster { entries: Vec::new(), bytes: 0, ceiling, generation: 1 }
    }

    pub fn generation(&self) -> (count: u64)
        ensures
            count == self.generation,
    {
        self.generation
    }

    pub fn bytes(&self) -> (cost: u64)
        ensures
            cost == self.bytes,
    {
        self.bytes
    }

    pub fn len(&self) -> (count: usize)
        ensures
            count == self.entries@.len(),
    {
        self.entries.len()
    }

    pub fn is_empty(&self) -> (empty: bool)
        ensures
            empty == (self.entries@.len() == 0),
    {
        self.entries.len() == 0
    }

    /// Drop everything. A list prepared against the old generation is not replayed against this one.
    pub fn clear(&mut self)
        ensures
            final(self).wf(),
            final(self).entries@.len() == 0,
            final(self).ceiling == old(self).ceiling,
            final(self).generation == (if old(self).generation == u64::MAX {
                0
            } else {
                (old(self).generation + 1) as u64
            }),
    {
        self.entries.clear();
        self.bytes = 0;
        self.generation = if self.generation == 0xffff_ffff_ffff_ffff {
            0
        } else {
            self.generation + 1
        };
    }

    /// Where the glyph of a key is.
    pub fn position(&self, key: &GlyphCacheKey) -> (place: Option<usize>)
        ensures
            match place {
                Some(found) => place_of(self.entries@, *key, 0) == Some(found as int) && found
                    < self.entries@.len(),
                None => place_of(self.entries@, *key, 0) is None,
            },
    {
        let mut next: usize = 0;
        while next < self.entries.len()
            invariant
                next <= self.entries@.len(),
                place_of(self.entries@, *key, 0) == place_of(self.entries@, *key, next as nat),
            decreases self.entries@.len() - next,
        {
            if self.entries[next].0 == *key {
                return Some(next);
            }
            next = next + 1;
        }
        None
    }

    /// The place of the glyph of a key. Where it is not cached yet the provider is asked for this key, and what it
    /// answers is kept.
    pub fn get<P: GlyphProvider>(&mut self, key: &GlyphCacheKey, provider: &P) -> (place: usize)
        requires
            old(self).wf(),
        ensures
            final(self).wf(),
            final(self).ceiling == old(self).ceiling,
            final(self).generation == old(self).generation,
            match place_of(old(self).entries@, *key, 0) {
                Some(found) => place == found && final(self).entries@ == old(self).entries@,
                None => exists|image: GlyphImage|
                    #![trigger image.cost()]
                    {
                        let left = kept(old(self).entries@, image.cost(), old(self).ceiling as int);
                        &&& call_ensures(P::glyph, (provider, key), image)
                        &&& place == left.len()
                        &&& final(self).entries@ == left.push((*key, image))
                    },
            },
    {
        match self.position(key) {
            Some(found) => found,
            None => {
                let image = provider.glyph(key);
                let ghost decoded = image;
                match self.keep(key, Some(image)) {
                    Some(place) => {
                        proof {
                            let left = kept(old(self).entries@, decoded.cost(), old(self).ceiling as int);
                            assert(self.entries@ == left.push((*key, decoded)));
                        }
                        place
                    },
                    None => 0,
                }
            },
        }
    }

    /// The place of the glyph of a key. A glyph that is not cached is decoded by the caller: with no image this
    /// asks for it, with one it keeps it, the oldest entries making room.
    pub fn keep(&mut self, key: &GlyphCacheKey, decoded: Option<GlyphImage>) -> (place: Option<usize>)
        requires
            old(self).wf(),
        ensures
            final(self).wf(),
            final(self).ceiling == old(self).ceiling,
            final(self).generation == old(self).generation,
            match place_of(old(self).entries@, *key, 0) {
                Some(found) => place matches Some(kept_at) && kept_at == found && final(self).entries@ == old(
                    self,
                ).entries@,
                None => match decoded {
                    None => place is None && final(self).entries@ == old(self).entries@,
                    Some(image) => {
                        let left = kept(old(self).entries@, image.cost(), old(self).ceiling as int);
                        &&& place matches Some(kept_at) && kept_at == left.len()
                        &&& final(self).entries@ == left.push((*key, image))
                    },
                },
            },
    {
        if let Some(found) = self.position(key) {
            return Some(found);
        }
        match decoded {
            None => None,
            Some(image) => {
                let cost: u64 = image.bytes();
                let ghost all = self.entries@;
                while self.entries.len() > 0 && self.bytes as u128 + cost as u128 > self.ceiling as u128
                    invariant
                        self.wf(),
                        self.ceiling == old(self).ceiling,
                        self.generation == old(self).generation,
                        cost == image.cost(),
                        kept(all, cost as int, self.ceiling as int) == kept(
                            self.entries@,
                            cost as int,
                            self.ceiling as int,
                        ),
                    decreases self.entries@.len(),
                {
                    let ghost before = self.entries@;
                    proof {
                        a_total_is_a_cost(before);
                    }
                    let evicted = self.entries.remove(0);
                    assert(self.entries@ =~= before.skip(1));
                    self.bytes = self.bytes - evicted.1.bytes();
                    proof {
                        a_total_is_a_cost(self.entries@);
                    }
                }
                proof {
                    a_total_grows(self.entries@, (*key, image));
                }
                let place: usize = self.entries.len();
                self.bytes = self.bytes + cost;
                self.entries.push((*key, image));
                Some(place)
            },
        }
    }
}

/// A cache is within its ceiling, or holds a single glyph that is over it alone.
pub proof fn a_cache_is_bounded(entries: Seq<Entry>, entry: Entry, ceiling: int)
    ensures
        ({
            let left = kept(entries, entry.1.cost(), ceiling);
            total(left.push(entry)) <= ceiling || left.len() == 0
        }),
    decreases entries.len(),
{
    let cost = entry.1.cost();
    a_total_grows(kept(entries, cost, ceiling), entry);
    if entries.len() > 0 && total(entries) + cost > ceiling {
        a_cache_is_bounded(entries.skip(1), entry, ceiling);
    }
}

/// What makes room are the oldest entries: what is left is the end of the list.
pub proof fn the_oldest_leave_first(entries: Seq<Entry>, cost: int, ceiling: int)
    ensures
        kept(entries, cost, ceiling).len() <= entries.len(),
        kept(entries, cost, ceiling) == entries.skip(entries.len() - kept(entries, cost, ceiling).len()),
    decreases entries.len(),
{
    if entries.len() == 0 || total(entries) + cost <= ceiling {
        assert(entries.skip(0) =~= entries);
    } else {
        the_oldest_leave_first(entries.skip(1), cost, ceiling);
        let rest = entries.skip(1);
        let left = kept(rest, cost, ceiling);
        assert(rest.skip(rest.len() - left.len()) =~= entries.skip(entries.len() - left.len()));
    }
}

// ---------------------------------------------------------------------------------------------
// Subpixel coverage.
// ---------------------------------------------------------------------------------------------
/// The coverage at an index, or nothing outside the row.
pub open spec fn covered(row: Seq<u8>, index: int) -> int {
    if 0 <= index < row.len() {
        row[index] as int
    } else {
        0
    }
}

/// Five neighbours weighed together, in ninths, and no more than full coverage.
pub open spec fn filtered(row: Seq<u8>, ninths: Seq<u8>, index: int) -> int {
    let sum = covered(row, index - 2) * ninths[0] + covered(row, index - 1) * ninths[1] + covered(row, index)
        * ninths[2] + covered(row, index + 1) * ninths[3] + covered(row, index + 2) * ninths[4];
    if sum / 9 > 255 {
        255
    } else {
        sum / 9
    }
}

fn coverage_at(row: &[u8], index: usize, offset: usize) -> (value: u32)
    requires
        index < row@.len(),
        offset < 5,
    ensures
        value == covered(row@, index + offset - 2),
        value <= 255,
{
    let count: usize = row.len();
    if offset < 2 {
        let back: usize = 2 - offset;
        if index < back {
            0
        } else {
            row[index - back] as u32
        }
    } else {
        let forward: usize = offset - 2;
        if forward < count - index {
            row[index + forward] as u32
        } else {
            0
        }
    }
}

/// Apply a five-tap filter, weighed in ninths, across a row of subpixel coverage.
pub fn filter_subpixel(triples: &[u8], ninths: [u8; 5]) -> (out: Vec<u8>)
    ensures
        out@.len() == triples@.len(),
        forall|i: int| 0 <= i < out@.len() ==> #[trigger] out@[i] == filtered(triples@, ninths@, i),
{
    let mut out: Vec<u8> = Vec::new();
    let mut index: usize = 0;
    while index < triples.len()
        invariant
            index <= triples@.len(),
            out@.len() == index,
            forall|i: int| 0 <= i < index ==> #[trigger] out@[i] == filtered(triples@, ninths@, i),
        decreases triples@.len() - index,
    {
        let a: u32 = weighed(coverage_at(triples, index, 0), ninths[0]);
        let b: u32 = weighed(coverage_at(triples, index, 1), ninths[1]);
        let c: u32 = weighed(coverage_at(triples, index, 2), ninths[2]);
        let d: u32 = weighed(coverage_at(triples, index, 3), ninths[3]);
        let e: u32 = weighed(coverage_at(triples, index, 4), ninths[4]);
        let value: u32 = (a + b + c + d + e) / 9;
        out.push(
            if value > 255 {
                255
            } else {
                value as u8
            },
        );
        index = index + 1;
    }
    out
}

fn weighed(value: u32, weight: u8) -> (product: u32)
    requires
        value <= 255,
    ensures
        product == value * weight,
        product <= 65025,
{
    assert(0 <= value * weight <= 255 * 255) by (nonlinear_arith)
        requires
            0 <= value <= 255,
            0 <= weight <= 255,
    ;
    value * weight as u32
}

/// Which of three coverages each colour channel takes.
#[derive(Clone, Copy, PartialEq, Eq, Structural, Debug)]
pub struct ChannelOrder {
    pub red: usize,
    pub green: usize,
    pub blue: usize,
    /// Whether alpha is the mean of the three, rather than the first.
    pub mean: bool,
}

/// Which coverage of a triple each channel of a mask composites with. A layout nobody named is read as
/// grayscale.
pub fn subpixel_channels(mode: RasterisationMode) -> (order: ChannelOrder)
    ensures
        order == (match mode {
            RasterisationMode::Subpixel(SubpixelLayout::RgbHorizontal) => ChannelOrder {
                red: 0,
                green: 1,
                blue: 2,
                mean: true,
            },
            RasterisationMode::Subpixel(SubpixelLayout::RgbVertical) => ChannelOrder {
                red: 0,
                green: 1,
                blue: 2,
                mean: true,
            },
            RasterisationMode::Subpixel(SubpixelLayout::BgrHorizontal) => ChannelOrder {
                red: 2,
                green: 1,
                blue: 0,
                mean: true,
            },
            RasterisationMode::Subpixel(SubpixelLayout::BgrVertical) => ChannelOrder {
                red: 2,
                green: 1,
                blue: 0,
                mean: true,
            },
            _ => ChannelOrder { red: 0, green: 0, blue: 0, mean: false },
        }),
{
    match mode {
        RasterisationMode::Subpixel(layout) => match layout {
            SubpixelLayout::RgbHorizontal | SubpixelLayout::RgbVertical => {
                ChannelOrder { red: 0, green: 1, blue: 2, mean: true }
            },
            SubpixelLayout::BgrHorizontal | SubpixelLayout::BgrVertical => {
                ChannelOrder { red: 2, green: 1, blue: 0, mean: true }
            },
            SubpixelLayout::Unknown => ChannelOrder { red: 0, green: 0, blue: 0, mean: false },
        },
        RasterisationMode::Grayscale => ChannelOrder { red: 0, green: 0, blue: 0, mean: false },
    }
}

// ---------------------------------------------------------------------------------------------
// The pen of a run.
// ---------------------------------------------------------------------------------------------
/// One glyph of a run, its offsets and advances in sixty-fourths of a pixel.
#[derive(Clone, Copy, PartialEq, Eq, Structural, Debug)]
pub struct RunGlyph {
    pub glyph: u32,
    pub x_offset: i32,
    pub y_offset: i32,
    pub x_advance: i32,
    pub y_advance: i32,
    pub kind: GlyphKind,
    pub strike: Option<u32>,
    pub palette: Option<u32>,
}

/// What every glyph of a run is decoded from: a face of a file and its generation, a size in sixty-fourths of a
/// pixel, the face's variation, and how it is rasterised.
#[derive(Clone, Copy, PartialEq, Eq, Structural, Debug)]
pub struct RunFace {
    pub face: u64,
    pub face_index: u32,
    pub generation: u64,
    pub size: i32,
    pub variation: u64,
    pub mode: RasterisationMode,
}

/// The key of the transform that changes nothing.
pub const IDENTITY_TRANSFORM: u64 = 0;

/// The part of a transform a decoded glyph depends on, column by column: where a run is drawn makes no other
/// glyph of it.
pub fn linear_part(rows: [[u32; 3]; 2]) -> (part: [u32; 6])
    ensures
        part@ == seq![rows[0][0], rows[1][0], rows[0][1], rows[1][1], 0u32, 0u32],
{
    let part: [u32; 6] = [rows[0][0], rows[1][0], rows[0][1], rows[1][1], 0, 0];
    assert(part@ =~= seq![rows[0][0], rows[1][0], rows[0][1], rows[1][1], 0u32, 0u32]);
    part
}

/// The key a glyph of a run is decoded under. A transform without a key is taken for the one that changes
/// nothing.
pub open spec fn key_of(run: RunFace, glyph: RunGlyph, transform: Option<u64>, phase: (u8, u8)) -> GlyphCacheKey {
    GlyphCacheKey {
        face: run.face,
        face_index: run.face_index,
        generation: run.generation,
        glyph: glyph.glyph,
        size: run.size,
        variation: run.variation,
        transform: match transform {
            Some(key) => key,
            None => IDENTITY_TRANSFORM,
        },
        phase_x: phase.0,
        phase_y: phase.1,
        kind: glyph.kind,
        strike: glyph.strike,
        palette: glyph.palette,
        mode: run.mode,
    }
}

/// The key a glyph of a run is decoded under, from the key of the transform's linear part, where it has one, and
/// the phase of the place the glyph is drawn at.
pub fn glyph_key(run: &RunFace, glyph: &RunGlyph, transform: Option<u64>, phase: (u8, u8)) -> (key: GlyphCacheKey)
    ensures
        key == key_of(*run, *glyph, transform, phase),
{
    GlyphCacheKey {
        face: run.face,
        face_index: run.face_index,
        generation: run.generation,
        glyph: glyph.glyph,
        size: run.size,
        variation: run.variation,
        transform: match transform {
            Some(key) => key,
            None => IDENTITY_TRANSFORM,
        },
        phase_x: phase.0,
        phase_y: phase.1,
        kind: glyph.kind,
        strike: glyph.strike,
        palette: glyph.palette,
        mode: run.mode,
    }
}

/// Two glyphs of runs share a decoded form just where nothing that decodes them differs: the face and how it is
/// set, the glyph and its form, the transform's linear part and the phase. Where they are drawn makes no other
/// difference.
pub proof fn keys_tell_glyphs_apart(
    run: RunFace,
    glyph: RunGlyph,
    transform: Option<u64>,
    phase: (u8, u8),
    other_run: RunFace,
    other: RunGlyph,
    other_transform: Option<u64>,
    other_phase: (u8, u8),
)
    ensures
        key_of(run, glyph, transform, phase) == key_of(other_run, other, other_transform, other_phase) <==> {
            &&& run == other_run
            &&& glyph.glyph == other.glyph
            &&& glyph.kind == other.kind
            &&& glyph.strike == other.strike
            &&& glyph.palette == other.palette
            &&& transform.unwrap_or(IDENTITY_TRANSFORM) == other_transform.unwrap_or(IDENTITY_TRANSFORM)
            &&& phase == other_phase
        },
{
}

/// The sum of two numbers, held between the smallest and the largest.
pub open spec fn held_sum(left: int, right: int) -> int {
    if left + right < i32::MIN {
        i32::MIN as int
    } else if left + right > i32::MAX {
        i32::MAX as int
    } else {
        left + right
    }
}

/// The sum of two positions, saturating: a run that leaves the coordinate space stays at its edge.
pub fn add_fixed(left: i32, right: i32) -> (sum: i32)
    ensures
        sum == held_sum(left as int, right as int),
{
    let exact: i64 = left as i64 + right as i64;
    if exact < -0x8000_0000 {
        -0x8000_0000
    } else if exact > 0x7fff_ffff {
        0x7fff_ffff
    } else {
        exact as i32
    }
}

/// Where the pen stands before glyph `count` of a run.
pub open spec fn pen_at(origin: (i32, i32), glyphs: Seq<RunGlyph>, count: nat) -> (int, int)
    decreases count,
{
    if count == 0 {
        (origin.0 as int, origin.1 as int)
    } else {
        let before = pen_at(origin, glyphs, (count - 1) as nat);
        (
            held_sum(before.0, glyphs[count - 1].x_advance as int),
            held_sum(before.1, glyphs[count - 1].y_advance as int),
        )
    }
}

/// Where a glyph of a run is drawn: at the pen, moved by its own offset.
pub open spec fn glyph_at(origin: (i32, i32), glyphs: Seq<RunGlyph>, index: int) -> (int, int) {
    let pen = pen_at(origin, glyphs, index as nat);
    (
        held_sum(pen.0, glyphs[index].x_offset as int),
        held_sum(pen.1, glyphs[index].y_offset as int),
    )
}

/// Where each glyph of a run is drawn.
pub fn glyph_positions(origin: (i32, i32), glyphs: &[RunGlyph]) -> (places: Vec<(i32, i32)>)
    ensures
        places@.len() == glyphs@.len(),
        forall|i: int|
            0 <= i < places@.len() ==> ((#[trigger] places@[i]).0 as int, places@[i].1 as int) == glyph_at(
                origin,
                glyphs@,
                i,
            ),
{
    let mut places: Vec<(i32, i32)> = Vec::new();
    let (mut pen_x, mut pen_y): (i32, i32) = (origin.0, origin.1);
    let mut next: usize = 0;
    while next < glyphs.len()
        invariant
            next <= glyphs@.len(),
            places@.len() == next,
            (pen_x as int, pen_y as int) == pen_at(origin, glyphs@, next as nat),
            forall|i: int|
                0 <= i < next ==> ((#[trigger] places@[i]).0 as int, places@[i].1 as int) == glyph_at(
                    origin,
                    glyphs@,
                    i,
                ),
        decreases glyphs@.len() - next,
    {
        let glyph = glyphs[next];
        places.push((add_fixed(pen_x, glyph.x_offset), add_fixed(pen_y, glyph.y_offset)));
        pen_x = add_fixed(pen_x, glyph.x_advance);
        pen_y = add_fixed(pen_y, glyph.y_advance);
        next = next + 1;
    }
    places
}

/// One pixel of a glyph's mask or bitmap that is drawn: where it lands, where it comes from, and a mask's
/// coverage there.
#[derive(Clone, Copy, PartialEq, Eq, Debug)]
pub struct Landing {
    pub x: u32,
    pub y: u32,
    pub column: u32,
    pub row: u32,
    pub triple: [u8; 3],
}

/// The coverage at an index of a mask, three to a pixel where the mask is a subpixel one.
pub open spec fn triple_at(coverage: Seq<u8>, mode: RasterisationMode, index: int) -> [u8; 3] {
    if mode == RasterisationMode::Grayscale {
        [
            covered(coverage, index) as u8,
            covered(coverage, index) as u8,
            covered(coverage, index) as u8,
        ]
    } else {
        [
            covered(coverage, index * 3) as u8,
            covered(coverage, index * 3 + 1) as u8,
            covered(coverage, index * 3 + 2) as u8,
        ]
    }
}

/// Whether a triple covers anything: any of the three where alpha is their mean, else the first.
pub open spec fn visible(mode: RasterisationMode, triple: [u8; 3]) -> bool {
    if averages(mode) {
        triple[0] != 0 || triple[1] != 0 || triple[2] != 0
    } else {
        triple[0] != 0
    }
}

/// Whether alpha is the mean of the three coverages.
pub open spec fn averages(mode: RasterisationMode) -> bool {
    match mode {
        RasterisationMode::Grayscale => false,
        RasterisationMode::Subpixel(layout) => layout != SubpixelLayout::Unknown,
    }
}

/// What a glyph covers: a mask, or every pixel of a bitmap.
pub ghost enum Stamp {
    Mask(Seq<u8>, RasterisationMode),
    Bitmap,
}

impl Stamp {
    pub open spec fn triple(self, index: int) -> [u8; 3] {
        match self {
            Stamp::Mask(coverage, mode) => triple_at(coverage, mode, index),
            Stamp::Bitmap => [255, 255, 255],
        }
    }

    pub open spec fn shows(self, index: int) -> bool {
        match self {
            Stamp::Mask(coverage, mode) => visible(mode, triple_at(coverage, mode, index)),
            Stamp::Bitmap => true,
        }
    }
}

/// The landings of the first `count` columns of one row: pixels that show, are in the bounds, and that the clip
/// lets something through of.
pub open spec fn row_landings(
    stamp: Stamp,
    base: (int, int),
    width: u32,
    row: int,
    bounds: PixelRect,
    clips: Nesting,
    count: nat,
) -> Seq<Landing>
    decreases count,
{
    if count == 0 {
        Seq::empty()
    } else {
        let before = row_landings(stamp, base, width, row, bounds, clips, (count - 1) as nat);
        let (x, y) = (base.0 + (count - 1), base.1 + row);
        let index = row * width + (count - 1);
        if stamp.shows(index) && bounds.has(x, y) && !clips.blocks(x, y) {
            before.push(
                Landing {
                    x: x as u32,
                    y: y as u32,
                    column: (count - 1) as u32,
                    row: row as u32,
                    triple: stamp.triple(index),
                },
            )
        } else {
            before
        }
    }
}

/// The landings of the first `count` rows.
pub open spec fn landings(
    stamp: Stamp,
    base: (int, int),
    width: u32,
    bounds: PixelRect,
    clips: Nesting,
    count: nat,
) -> Seq<Landing>
    decreases count,
{
    if count == 0 {
        Seq::empty()
    } else {
        landings(stamp, base, width, bounds, clips, (count - 1) as nat) + row_landings(
            stamp,
            base,
            width,
            count - 1,
            bounds,
            clips,
            width as nat,
        )
    }
}

/// The coverage at an index, or nothing outside the mask.
fn value_at(coverage: &[u8], index: u64) -> (value: u8)
    ensures
        value == covered(coverage@, index as int),
{
    if index < coverage.len() as u64 {
        coverage[index as usize]
    } else {
        0
    }
}

fn read_triple(coverage: &[u8], mode: RasterisationMode, index: u64) -> (triple: [u8; 3])
    requires
        index <= 0x2_0000_0000,
    ensures
        triple == triple_at(coverage@, mode, index as int),
{
    if mode == RasterisationMode::Grayscale {
        let value: u8 = value_at(coverage, index);
        let triple: [u8; 3] = [value, value, value];
        assert(triple@ =~= triple_at(coverage@, mode, index as int)@);
        triple
    } else {
        let triple: [u8; 3] = [
            value_at(coverage, index * 3),
            value_at(coverage, index * 3 + 1),
            value_at(coverage, index * 3 + 2),
        ];
        assert(triple@ =~= triple_at(coverage@, mode, index as int)@);
        triple
    }
}

/// Whether a triple covers anything.
fn shows(mode: RasterisationMode, triple: [u8; 3]) -> (answer: bool)
    ensures
        answer == visible(mode, triple),
{
    let mean: bool = match mode {
        RasterisationMode::Grayscale => false,
        RasterisationMode::Subpixel(layout) => layout != SubpixelLayout::Unknown,
    };
    if mean {
        triple[0] != 0 || triple[1] != 0 || triple[2] != 0
    } else {
        triple[0] != 0
    }
}

/// Where a coordinate of a glyph lands, where that is in a range.
fn lands(base: i64, offset: u32, from: u32, to: u32) -> (at: Option<u32>)
    requires
        -0x4000_0000_0000_0000 <= base <= 0x4000_0000_0000_0000,
    ensures
        at == (if from <= base + offset < to {
            Some((base + offset) as u32)
        } else {
            None
        }),
{
    let at: i64 = base + offset as i64;
    if at >= from as i64 && at < to as i64 {
        Some(at as u32)
    } else {
        None
    }
}

/// The pixels of a mask that are drawn, its corner at `base`, row by row.
pub fn mask_landings(
    base: (i64, i64),
    width: u32,
    height: u32,
    coverage: &[u8],
    mode: RasterisationMode,
    bounds: PixelRect,
    clips: &ClipStack,
) -> (list: Vec<Landing>)
    requires
        width * height <= u32::MAX,
        bounds.x + bounds.width <= u32::MAX,
        bounds.y + bounds.height <= u32::MAX,
        -0x4000_0000_0000_0000 <= base.0 <= 0x4000_0000_0000_0000,
        -0x4000_0000_0000_0000 <= base.1 <= 0x4000_0000_0000_0000,
    ensures
        list@ == landings(
            Stamp::Mask(coverage@, mode),
            (base.0 as int, base.1 as int),
            width,
            bounds,
            clips@,
            height as nat,
        ),
{
    let mut list: Vec<Landing> = Vec::new();
    let (right, bottom): (u32, u32) = (bounds.x + bounds.width, bounds.y + bounds.height);
    let ghost corner = (base.0 as int, base.1 as int);
    let ghost stamp = Stamp::Mask(coverage@, mode);
    let mut row: u32 = 0;
    while row < height
        invariant
            row <= height,
            width * height <= u32::MAX,
            right == bounds.x + bounds.width,
            bottom == bounds.y + bounds.height,
            corner == (base.0 as int, base.1 as int),
            stamp == Stamp::Mask(coverage@, mode),
            -0x4000_0000_0000_0000 <= base.0 <= 0x4000_0000_0000_0000,
            -0x4000_0000_0000_0000 <= base.1 <= 0x4000_0000_0000_0000,
            list@ == landings(stamp, corner, width, bounds, clips@, row as nat),
        decreases height - row,
    {
        let ghost before = list@;
        let mut column: u32 = 0;
        assert(list@ =~= before + row_landings(stamp, corner, width, row as int, bounds, clips@, 0));
        assert(0 <= row * width <= height * width && height * width == width * height) by (nonlinear_arith)
            requires
                0 <= row <= height,
                0 <= width,
        ;
        let start: u64 = row as u64 * width as u64;
        while column < width
            invariant
                column <= width,
                row < height,
                start == row * width,
                start <= u32::MAX,
                right == bounds.x + bounds.width,
                bottom == bounds.y + bounds.height,
                corner == (base.0 as int, base.1 as int),
                stamp == Stamp::Mask(coverage@, mode),
                -0x4000_0000_0000_0000 <= base.0 <= 0x4000_0000_0000_0000,
                -0x4000_0000_0000_0000 <= base.1 <= 0x4000_0000_0000_0000,
                list@ == before + row_landings(
                    stamp,
                    corner,
                    width,
                    row as int,
                    bounds,
                    clips@,
                    column as nat,
                ),
            decreases width - column,
        {
            let index: u64 = start + column as u64;
            let triple = read_triple(coverage, mode, index);
            if shows(mode, triple) {
                if let Some(x) = lands(base.0, column, bounds.x, right) {
                    if let Some(y) = lands(base.1, row, bounds.y, bottom) {
                        if !clips.blocks(x, y) {
                            list.push(Landing { x, y, column, row, triple });
                        }
                    }
                }
            }
            assert(list@ =~= before + row_landings(
                stamp,
                corner,
                width,
                row as int,
                bounds,
                clips@,
                (column + 1) as nat,
            ));
            column = column + 1;
        }
        row = row + 1;
    }
    list
}

/// The pixels of a bitmap strike that are drawn, its corner at `base`, row by row.
pub fn bitmap_landings(
    base: (i64, i64),
    width: u32,
    height: u32,
    bounds: PixelRect,
    clips: &ClipStack,
) -> (list: Vec<Landing>)
    requires
        bounds.x + bounds.width <= u32::MAX,
        bounds.y + bounds.height <= u32::MAX,
        -0x4000_0000_0000_0000 <= base.0 <= 0x4000_0000_0000_0000,
        -0x4000_0000_0000_0000 <= base.1 <= 0x4000_0000_0000_0000,
    ensures
        list@ == landings(
            Stamp::Bitmap,
            (base.0 as int, base.1 as int),
            width,
            bounds,
            clips@,
            height as nat,
        ),
{
    let mut list: Vec<Landing> = Vec::new();
    let (right, bottom): (u32, u32) = (bounds.x + bounds.width, bounds.y + bounds.height);
    let ghost corner = (base.0 as int, base.1 as int);
    let ghost stamp = Stamp::Bitmap;
    let mut row: u32 = 0;
    while row < height
        invariant
            row <= height,
            right == bounds.x + bounds.width,
            bottom == bounds.y + bounds.height,
            corner == (base.0 as int, base.1 as int),
            stamp == Stamp::Bitmap,
            -0x4000_0000_0000_0000 <= base.0 <= 0x4000_0000_0000_0000,
            -0x4000_0000_0000_0000 <= base.1 <= 0x4000_0000_0000_0000,
            list@ == landings(stamp, corner, width, bounds, clips@, row as nat),
        decreases height - row,
    {
        let ghost before = list@;
        let mut column: u32 = 0;
        assert(list@ =~= before + row_landings(stamp, corner, width, row as int, bounds, clips@, 0));
        while column < width
            invariant
                column <= width,
                row < height,
                right == bounds.x + bounds.width,
                bottom == bounds.y + bounds.height,
                corner == (base.0 as int, base.1 as int),
                stamp == Stamp::Bitmap,
                -0x4000_0000_0000_0000 <= base.0 <= 0x4000_0000_0000_0000,
                -0x4000_0000_0000_0000 <= base.1 <= 0x4000_0000_0000_0000,
                list@ == before + row_landings(
                    stamp,
                    corner,
                    width,
                    row as int,
                    bounds,
                    clips@,
                    column as nat,
                ),
            decreases width - column,
        {
            if let Some(x) = lands(base.0, column, bounds.x, right) {
                if let Some(y) = lands(base.1, row, bounds.y, bottom) {
                    if !clips.blocks(x, y) {
                        let triple: [u8; 3] = [255, 255, 255];
                        assert(triple@ =~= stamp.triple(0)@);
                        list.push(Landing { x, y, column, row, triple });
                    }
                }
            }
            assert(list@ =~= before + row_landings(
                stamp,
                corner,
                width,
                row as int,
                bounds,
                clips@,
                (column + 1) as nat,
            ));
            column = column + 1;
        }
        row = row + 1;
    }
    list
}

// ---------------------------------------------------------------------------------------------
// Laws of drawing glyphs.
// ---------------------------------------------------------------------------------------------
/// A byte of a mask, and nothing past its end.
pub open spec fn byte_of(coverage: Seq<u8>, index: int) -> u8 {
    if 0 <= index < coverage.len() {
        coverage[index]
    } else {
        0
    }
}

/// Whether the coverages of a pixel of a mask are these: its one byte three times in a grayscale mask, and in a subpixel
/// one the three bytes from three times its place on, pixels counted row by row.
pub open spec fn covers_as(
    coverage: Seq<u8>,
    mode: RasterisationMode,
    width: u32,
    column: int,
    row: int,
    triple: [u8; 3],
) -> bool {
    let place = row * width + column;
    match mode {
        RasterisationMode::Grayscale => forall|k: int| 0 <= k < 3 ==> #[trigger] triple@[k] == byte_of(coverage, place),
        RasterisationMode::Subpixel(_) => forall|k: int|
            0 <= k < 3 ==> #[trigger] triple@[k] == byte_of(coverage, 3 * place + k),
    }
}

/// Whether a pixel of a mask is drawn at all: any of its bytes covers something where the layout of the subpixels is
/// known, else its first does.
pub open spec fn draws(coverage: Seq<u8>, mode: RasterisationMode, width: u32, column: int, row: int) -> bool {
    let place = row * width + column;
    match mode {
        RasterisationMode::Grayscale => byte_of(coverage, place) > 0,
        RasterisationMode::Subpixel(SubpixelLayout::Unknown) => byte_of(coverage, 3 * place) > 0,
        RasterisationMode::Subpixel(_) => byte_of(coverage, 3 * place) > 0 || byte_of(coverage, 3 * place + 1) > 0
            || byte_of(coverage, 3 * place + 2) > 0,
    }
}

proof fn a_triple_is_its_bytes(coverage: Seq<u8>, mode: RasterisationMode, width: u32, column: int, row: int)
    ensures
        covers_as(coverage, mode, width, column, row, triple_at(coverage, mode, row * width + column)),
        visible(mode, triple_at(coverage, mode, row * width + column)) == draws(coverage, mode, width, column, row),
{
    let place = row * width + column;
    let triple = triple_at(coverage, mode, place);
    match mode {
        RasterisationMode::Grayscale => {
            assert forall|k: int| 0 <= k < 3 implies #[trigger] triple@[k] == byte_of(coverage, place) by {}
        },
        RasterisationMode::Subpixel(layout) => {
            assert(place * 3 == 3 * place);
            assert forall|k: int| 0 <= k < 3 implies #[trigger] triple@[k] == byte_of(coverage, 3 * place + k) by {}
        },
    }
}

/// Whether a landing is the pixel of a glyph it says it is: as far from the glyph's corner as its column and row, in the
/// bounds, and not blocked.
pub open spec fn stands(landing: Landing, base: (int, int), width: u32, bounds: PixelRect, clips: Nesting) -> bool {
    &&& landing.column < width
    &&& landing.x == base.0 + landing.column
    &&& landing.y == base.1 + landing.row
    &&& bounds.x <= landing.x < bounds.x + bounds.width
    &&& bounds.y <= landing.y < bounds.y + bounds.height
    &&& !clips.blocks(landing.x as int, landing.y as int)
}

proof fn landings_of_a_row(
    stamp: Stamp,
    base: (int, int),
    width: u32,
    row: int,
    bounds: PixelRect,
    clips: Nesting,
    count: nat,
)
    requires
        bounds.x + bounds.width <= u32::MAX,
        bounds.y + bounds.height <= u32::MAX,
        count <= width,
        0 <= row <= u32::MAX,
    ensures
        ({
            let list = row_landings(stamp, base, width, row, bounds, clips, count);
            &&& forall|i: int|
                0 <= i < list.len() ==> stands(#[trigger] list[i], base, width, bounds, clips) && list[i].row == row
                    && list[i].column < count && list[i].triple == stamp.triple(row * width + list[i].column)
                    && stamp.shows(row * width + list[i].column)
            &&& forall|i: int, j: int|
                0 <= i < j < list.len() ==> (#[trigger] list[i]).column < (#[trigger] list[j]).column
            &&& forall|column: int|
                0 <= column < count && #[trigger] stamp.shows(row * width + column) && bounds.has(
                    base.0 + column,
                    base.1 + row,
                ) && !clips.blocks(base.0 + column, base.1 + row) ==> exists|i: int|
                    0 <= i < list.len() && (#[trigger] list[i]).column == column
        }),
    decreases count,
{
    if count > 0 {
        landings_of_a_row(stamp, base, width, row, bounds, clips, (count - 1) as nat);
        let before = row_landings(stamp, base, width, row, bounds, clips, (count - 1) as nat);
        let list = row_landings(stamp, base, width, row, bounds, clips, count);
        let (x, y) = (base.0 + (count - 1), base.1 + row);
        let index = row * width + (count - 1);
        if stamp.shows(index) && bounds.has(x, y) && !clips.blocks(x, y) {
            assert(list.drop_last() =~= before);
            assert(list[before.len() as int].column == count - 1);
        }
        assert forall|column: int|
            0 <= column < count && #[trigger] stamp.shows(row * width + column) && bounds.has(
                base.0 + column,
                base.1 + row,
            ) && !clips.blocks(base.0 + column, base.1 + row) implies exists|i: int|
            0 <= i < list.len() && (#[trigger] list[i]).column == column by {
            if column < count - 1 {
                let i = choose|i: int| 0 <= i < before.len() && (#[trigger] before[i]).column == column;
                assert(list[i].column == column);
            } else {
                assert(list[before.len() as int].column == column);
            }
        }
    }
}

proof fn landings_of_a_glyph(
    stamp: Stamp,
    base: (int, int),
    width: u32,
    bounds: PixelRect,
    clips: Nesting,
    count: nat,
)
    requires
        bounds.x + bounds.width <= u32::MAX,
        bounds.y + bounds.height <= u32::MAX,
        count <= u32::MAX,
    ensures
        ({
            let list = landings(stamp, base, width, bounds, clips, count);
            &&& forall|i: int|
                0 <= i < list.len() ==> stands(#[trigger] list[i], base, width, bounds, clips) && list[i].row < count
                    && list[i].triple == stamp.triple(list[i].row * width + list[i].column) && stamp.shows(
                    list[i].row * width + list[i].column,
                )
            &&& forall|i: int, j: int|
                0 <= i < j < list.len() ==> (#[trigger] list[i]).row < (#[trigger] list[j]).row || list[i].row
                    == list[j].row && list[i].column < list[j].column
            &&& forall|column: int, row: int|
                0 <= column < width && 0 <= row < count && #[trigger] stamp.shows(row * width + column) && bounds.has(
                    base.0 + column,
                    base.1 + row,
                ) && !clips.blocks(base.0 + column, base.1 + row) ==> exists|i: int|
                    0 <= i < list.len() && (#[trigger] list[i]).column == column && list[i].row == row
        }),
    decreases count,
{
    if count > 0 {
        let row = count - 1;
        landings_of_a_glyph(stamp, base, width, bounds, clips, (count - 1) as nat);
        landings_of_a_row(stamp, base, width, row, bounds, clips, width as nat);
        let before = landings(stamp, base, width, bounds, clips, (count - 1) as nat);
        let last = row_landings(stamp, base, width, row, bounds, clips, width as nat);
        let list = landings(stamp, base, width, bounds, clips, count);
        assert(list == before + last);
        assert forall|i: int| 0 <= i < list.len() implies stands(#[trigger] list[i], base, width, bounds, clips)
            && list[i].row < count && list[i].triple == stamp.triple(list[i].row * width + list[i].column)
            && stamp.shows(list[i].row * width + list[i].column) by {
            if i < before.len() {
                assert(list[i] == before[i]);
            } else {
                assert(list[i] == last[i - before.len()]);
            }
        }
        assert forall|i: int, j: int| 0 <= i < j < list.len() implies (#[trigger] list[i]).row < (
        #[trigger] list[j]).row || list[i].row == list[j].row && list[i].column < list[j].column by {
            if j < before.len() {
                assert(list[i] == before[i] && list[j] == before[j]);
            } else if i < before.len() {
                assert(list[i] == before[i] && list[j] == last[j - before.len()]);
            } else {
                assert(list[i] == last[i - before.len()] && list[j] == last[j - before.len()]);
            }
        }
        assert forall|column: int, r: int|
            0 <= column < width && 0 <= r < count && #[trigger] stamp.shows(r * width + column) && bounds.has(
                base.0 + column,
                base.1 + r,
            ) && !clips.blocks(base.0 + column, base.1 + r) implies exists|i: int|
            0 <= i < list.len() && (#[trigger] list[i]).column == column && list[i].row == r by {
            if r < row {
                let i = choose|i: int|
                    0 <= i < before.len() && (#[trigger] before[i]).column == column && before[i].row == r;
                assert(list[i] == before[i]);
            } else {
                let i = choose|i: int| 0 <= i < last.len() && (#[trigger] last[i]).column == column;
                assert(list[before.len() + i] == last[i]);
            }
        }
    }
}

/// A mask is drawn pixel by pixel: every pixel that is drawn lands as far from the mask's corner as it is in the mask,
/// with its own bytes, inside the bounds and where the clip lets something through; and the pixels come row by row, no
/// pixel twice.
pub proof fn a_mask_lands_by_its_own_bytes(
    coverage: Seq<u8>,
    mode: RasterisationMode,
    base: (int, int),
    width: u32,
    height: u32,
    bounds: PixelRect,
    clips: Nesting,
    i: int,
)
    requires
        bounds.x + bounds.width <= u32::MAX,
        bounds.y + bounds.height <= u32::MAX,
        0 <= i < landings(Stamp::Mask(coverage, mode), base, width, bounds, clips, height as nat).len(),
    ensures
        ({
            let list = landings(Stamp::Mask(coverage, mode), base, width, bounds, clips, height as nat);
            let landing = list[i];
            &&& stands(landing, base, width, bounds, clips)
            &&& landing.row < height
            &&& covers_as(coverage, mode, width, landing.column as int, landing.row as int, landing.triple)
            &&& draws(coverage, mode, width, landing.column as int, landing.row as int)
            &&& i + 1 < list.len() ==> landing.row * width + landing.column < list[i + 1].row * width + list[i
                + 1].column
        }),
{
    let stamp = Stamp::Mask(coverage, mode);
    landings_of_a_glyph(stamp, base, width, bounds, clips, height as nat);
    let list = landings(stamp, base, width, bounds, clips, height as nat);
    let landing = list[i];
    a_triple_is_its_bytes(coverage, mode, width, landing.column as int, landing.row as int);
    if i + 1 < list.len() {
        let next = list[i + 1];
        assert(landing.row * width + landing.column < next.row * width + next.column) by (nonlinear_arith)
            requires
                landing.row < next.row || landing.row == next.row && landing.column < next.column,
                landing.column < width,
                next.column >= 0,
        ;
    }
}

/// Every pixel of a mask that covers something, is inside the bounds and is not blocked lands.
pub proof fn every_covered_pixel_of_a_mask_lands(
    coverage: Seq<u8>,
    mode: RasterisationMode,
    base: (int, int),
    width: u32,
    height: u32,
    bounds: PixelRect,
    clips: Nesting,
    column: int,
    row: int,
)
    requires
        bounds.x + bounds.width <= u32::MAX,
        bounds.y + bounds.height <= u32::MAX,
        0 <= column < width,
        0 <= row < height,
        draws(coverage, mode, width, column, row),
        bounds.x <= base.0 + column < bounds.x + bounds.width,
        bounds.y <= base.1 + row < bounds.y + bounds.height,
        !clips.blocks(base.0 + column, base.1 + row),
    ensures
        ({
            let list = landings(Stamp::Mask(coverage, mode), base, width, bounds, clips, height as nat);
            exists|i: int| 0 <= i < list.len() && (#[trigger] list[i]).column == column && list[i].row == row
        }),
{
    let stamp = Stamp::Mask(coverage, mode);
    landings_of_a_glyph(stamp, base, width, bounds, clips, height as nat);
    a_triple_is_its_bytes(coverage, mode, width, column, row);
    assert(stamp.shows(row * width + column));
}

/// A bitmap lands whole: every pixel of it inside the bounds and not blocked, as far from its corner as it is in the
/// bitmap, and no other.
pub proof fn a_bitmap_lands_whole(
    base: (int, int),
    width: u32,
    height: u32,
    bounds: PixelRect,
    clips: Nesting,
    column: int,
    row: int,
    i: int,
)
    requires
        bounds.x + bounds.width <= u32::MAX,
        bounds.y + bounds.height <= u32::MAX,
        0 <= column < width,
        0 <= row < height,
        0 <= i < landings(Stamp::Bitmap, base, width, bounds, clips, height as nat).len(),
    ensures
        ({
            let list = landings(Stamp::Bitmap, base, width, bounds, clips, height as nat);
            &&& stands(list[i], base, width, bounds, clips) && list[i].row < height
            &&& bounds.x <= base.0 + column < bounds.x + bounds.width && bounds.y <= base.1 + row < bounds.y
                + bounds.height && !clips.blocks(base.0 + column, base.1 + row) ==> exists|j: int|
                0 <= j < list.len() && (#[trigger] list[j]).column == column && list[j].row == row
        }),
{
    landings_of_a_glyph(Stamp::Bitmap, base, width, bounds, clips, height as nat);
    assert(Stamp::Bitmap.shows(row * width + column));
}

/// The bytes of a subpixel mask are read once each: two pixels share none, and each of the three times as many bytes as
/// pixels is one of a pixel's three.
pub proof fn a_subpixel_mask_is_read_once(
    coverage: Seq<u8>,
    layout: SubpixelLayout,
    width: u32,
    height: u32,
    byte: int,
)
    requires
        coverage.len() == 3 * (width * height),
        0 <= byte < coverage.len(),
    ensures
        exists|column: int, row: int, k: int|
            #![trigger triple_at(coverage, RasterisationMode::Subpixel(layout), row * width + column)@[k]]
            0 <= column < width && 0 <= row < height && 0 <= k < 3 && byte == 3 * (row * width + column) + k
                && triple_at(coverage, RasterisationMode::Subpixel(layout), row * width + column)@[k]
                == coverage[byte],
{
    let (place, k) = (byte / 3, byte % 3);
    assert(0 <= place < width * height);
    if width == 0 {
        assert(width * height == 0) by (nonlinear_arith)
            requires
                width == 0,
        ;
    }
    crate::grid::every_index_is_a_cell(place, width as int, height as int);
    let (column, row) = (place % width as int, place / width as int);
    a_triple_is_its_bytes(coverage, RasterisationMode::Subpixel(layout), width, column, row);
    assert(row * width + column == place);
    let triple = triple_at(coverage, RasterisationMode::Subpixel(layout), row * width + column);
    assert(triple@[k] == byte_of(coverage, 3 * place + k));
}

/// A run's pen starts at its origin and each glyph moves it by its own advance; a glyph is drawn at the pen moved by its
/// own offset. A place past the largest number, or before the smallest, is that number.
pub proof fn a_glyph_is_drawn_at_its_pen(origin: (i32, i32), glyphs: Seq<RunGlyph>, index: int)
    requires
        0 <= index < glyphs.len(),
    ensures
        ({
            let (pen, next) = (pen_at(origin, glyphs, index as nat), pen_at(origin, glyphs, (index + 1) as nat));
            let (glyph, at) = (glyphs[index], glyph_at(origin, glyphs, index));
            let held = |value: int|
                if value > 0x7fff_ffff {
                    0x7fff_ffffint
                } else if value < -0x8000_0000 {
                    -0x8000_0000int
                } else {
                    value
                };
            &&& pen_at(origin, glyphs, 0) == (origin.0 as int, origin.1 as int)
            &&& next == (held(pen.0 + glyph.x_advance), held(pen.1 + glyph.y_advance))
            &&& at == (held(pen.0 + glyph.x_offset), held(pen.1 + glyph.y_offset))
        }),
{
}

/// A mask of a named layout gives each channel a coverage of its own, green always the middle one, red the first or the
/// last as the layout's name begins, and blue the other; alpha is then their mean. Any other mask gives all of them the
/// first.
pub proof fn channels_take_their_own_coverage(mode: RasterisationMode, order: ChannelOrder)
    requires
        call_ensures(subpixel_channels, (mode,), order),
    ensures
        match mode {
            RasterisationMode::Subpixel(SubpixelLayout::RgbHorizontal | SubpixelLayout::RgbVertical) => order.mean
                && order.red == 0 && order.green == 1 && order.blue == 2,
            RasterisationMode::Subpixel(SubpixelLayout::BgrHorizontal | SubpixelLayout::BgrVertical) => order.mean
                && order.red == 2 && order.green == 1 && order.blue == 0,
            _ => !order.mean && order.red == 0 && order.green == 0 && order.blue == 0,
        },
{
}

/// Filtering a row is the weighted mean of five neighbours, in ninths: the weight of a place goes to the coverage as far
/// from it as the weight is from the middle one, nothing lies outside the row, and it is full at most.
pub proof fn filtering_weighs_the_neighbours(row: Seq<u8>, ninths: Seq<u8>, index: int)
    requires
        ninths.len() == 5,
        0 <= index < row.len(),
    ensures
        ({
            let at = |offset: int| byte_of(row, index + offset) as int;
            let sum = at(-2) * ninths[0] + at(-1) * ninths[1] + at(0) * ninths[2] + at(1) * ninths[3] + at(2) * ninths[4];
            let value = filtered(row, ninths, index);
            &&& 0 <= value <= 255
            &&& value < 255 ==> 9 * value <= sum < 9 * (value + 1)
            &&& value == 255 ==> sum >= 9 * 255
        }),
{
    let sum = covered(row, index - 2) * ninths[0] + covered(row, index - 1) * ninths[1] + covered(row, index)
        * ninths[2] + covered(row, index + 1) * ninths[3] + covered(row, index + 2) * ninths[4];
    a_product_of_counts(covered(row, index - 2), ninths[0] as int);
    a_product_of_counts(covered(row, index - 1), ninths[1] as int);
    a_product_of_counts(covered(row, index), ninths[2] as int);
    a_product_of_counts(covered(row, index + 1), ninths[3] as int);
    a_product_of_counts(covered(row, index + 2), ninths[4] as int);
    assert(sum >= 0);
}

proof fn a_product_of_counts(left: int, right: int)
    requires
        0 <= left,
        0 <= right,
    ensures
        left * right >= 0,
{
    assert(left * right >= 0) by (nonlinear_arith)
        requires
            0 <= left,
            0 <= right,
    ;
}

/// A cached glyph is found under its own key: the place of a key holds that key, and where there is none no entry has it.
pub proof fn a_key_finds_its_own_entry(entries: Seq<Entry>, key: GlyphCacheKey, from: nat, i: int)
    requires
        from <= i < entries.len(),
    ensures
        match place_of(entries, key, from) {
            Some(found) => from <= found < entries.len() && entries[found].0 == key && (i < found ==> entries[i].0
                != key),
            None => entries[i].0 != key,
        },
    decreases entries.len() - from,
{
    if entries[from as int].0 != key {
        if from < i {
            a_key_finds_its_own_entry(entries, key, from + 1, i);
        } else if from + 1 < entries.len() {
            a_key_finds_its_own_entry(entries, key, from + 1, from as int + 1);
        }
    }
}

/// No more entries leave than must: with one more left the newcomer would not have fitted.
pub proof fn no_entry_leaves_needlessly(entries: Seq<Entry>, cost: int, ceiling: int)
    ensures
        ({
            let left = kept(entries, cost, ceiling);
            left.len() < entries.len() ==> total(entries.skip(entries.len() - left.len() - 1)) + cost > ceiling
        }),
    decreases entries.len(),
{
    if entries.len() > 0 && total(entries) + cost > ceiling {
        let rest = entries.skip(1);
        no_entry_leaves_needlessly(rest, cost, ceiling);
        the_oldest_leave_first(rest, cost, ceiling);
        let left = kept(rest, cost, ceiling);
        if left.len() < rest.len() {
            assert(rest.skip(rest.len() - left.len() - 1) =~= entries.skip(entries.len() - left.len() - 1));
        } else {
            assert(entries.skip(0) =~= entries);
        }
    }
}

} // verus!
