//! The attachments of a pass, and how one fragment reaches them.
//!
//! A fragment is taken in one order: the sample masks, the stencil test, the depth test, blending, the
//! write mask. The blend equation and the average of a resolve are floating-point work of the caller;
//! what they are computed from, and where their results go, is decided here.
use super::error::{Error, FormatFault};
use super::raster::bit;
use super::state::{depth_stencil_test, tested, CompareOp, LoadOp, Outcome, StencilFace, StoreOp, Stored, WriteMask};
use crate::bits::{below, less, nan, number, order_is_by_number, ONE};
use crate::grid::{cell, cell_is_stored, cells_are_apart};
use vstd::prelude::*;

verus! {

/// Four channels, each a binary32 value by its bits.
pub type Pixel = [u32; 4];

/// The value a discarded attachment is filled with: opaque magenta, so that reading it is obvious.
pub const POISON: Pixel = [0x3F80_0000, 0, 0x3F80_0000, 0x3F80_0000];

/// No light and no coverage.
pub const ZERO: Pixel = [0, 0, 0, 0];

/// Where a sample of a pixel is stored.
pub open spec fn slot(x: u32, y: u32, sample: u32, width: u32, samples: u32) -> int {
    (y * width + x) * samples + sample
}

fn slot_of(x: u32, y: u32, sample: u32, width: u32, samples: u32) -> (index: u128)
    ensures
        index == slot(x, y, sample, width, samples),
{
    assert(0 <= y * width <= 0xffff_ffff * 0xffff_ffff) by (nonlinear_arith)
        requires
            0 <= y <= 0xffff_ffff,
            0 <= width <= 0xffff_ffff,
    ;
    let pixel: u128 = y as u128 * width as u128 + x as u128;
    assert(0 <= pixel * samples <= 0x1_0000_0000_0000_0000 * 0xffff_ffff) by (nonlinear_arith)
        requires
            0 <= pixel <= 0x1_0000_0000_0000_0000,
            0 <= samples <= 0xffff_ffff,
    ;
    pixel * samples as u128 + sample as u128
}

/// A sample of a pixel inside an attachment is stored inside it.
pub proof fn a_sample_is_stored(x: u32, y: u32, sample: u32, width: u32, height: u32, samples: u32)
    requires
        x < width,
        y < height,
        sample < samples,
    ensures
        0 <= slot(x, y, sample, width, samples) < width * height * samples,
{
    cell_is_stored(x as int, y as int, width as int, height as int);
    cell_is_stored(sample as int, y * width + x, samples as int, width * height);
    assert((width * height) * samples == samples * (width * height)) by (nonlinear_arith);
}

/// Two samples stored at one place are one sample of one pixel.
pub proof fn samples_are_apart(
    x: u32,
    y: u32,
    sample: u32,
    u: u32,
    v: u32,
    other: u32,
    width: u32,
    samples: u32,
)
    requires
        x < width,
        u < width,
        sample < samples,
        other < samples,
        slot(x, y, sample, width, samples) == slot(u, v, other, width, samples),
    ensures
        x == u,
        y == v,
        sample == other,
{
    cells_are_apart(sample as int, y * width + x, other as int, v * width + u, samples as int);
    cells_are_apart(x as int, y as int, u as int, v as int, width as int);
}

/// One colour attachment's storage: `samples` values per pixel.
#[derive(Clone, Debug)]
pub struct Colour {
    pub width: u32,
    pub height: u32,
    pub samples: u32,
    /// Whether this attachment holds an integer identity rather than colour.
    pub integer: bool,
    pub values: Vec<Pixel>,
}

impl View for Colour {
    type V = Seq<Pixel>;

    open spec fn view(&self) -> Seq<Pixel> {
        self.values@
    }
}

/// What stands at an index of a list, or a default outside it.
pub open spec fn entry<T>(values: Seq<T>, index: int, otherwise: T) -> T {
    if 0 <= index < values.len() {
        values[index]
    } else {
        otherwise
    }
}

/// A list with one entry replaced, or the list itself where the index is outside it.
pub open spec fn replaced<T>(values: Seq<T>, index: int, value: T) -> Seq<T> {
    if 0 <= index < values.len() {
        values.update(index, value)
    } else {
        values
    }
}

impl Colour {
    /// Whether the storage is the size the shape says.
    pub open spec fn wf(self) -> bool {
        self@.len() == self.width * self.height * self.samples
    }

    /// Whether another attachment has the same shape.
    pub open spec fn same_shape(self, other: Colour) -> bool {
        self.width == other.width && self.height == other.height && self.samples == other.samples
            && self.integer == other.integer
    }

    pub fn new(width: u32, height: u32, samples: u32, integer: bool) -> (made: Colour)
        requires
            width * height <= u32::MAX,
            width * height * samples <= u32::MAX,
        ensures
            made.width == width,
            made.height == height,
            made.samples == samples,
            made.integer == integer,
            made.wf(),
            made@ == Seq::new((width * height * samples) as nat, |i: int| ZERO),
    {
        let count: u32 = width * height * samples;
        let mut values: Vec<Pixel> = Vec::new();
        let mut filled: u32 = 0;
        while filled < count
            invariant
                filled <= count,
                values@.len() == filled,
                forall|i: int| 0 <= i < filled ==> #[trigger] values@[i] == ZERO,
            decreases count - filled,
        {
            values.push(ZERO);
            filled = filled + 1;
        }
        let made = Colour { width, height, samples, integer, values };
        assert(made@ =~= Seq::new((width * height * samples) as nat, |i: int| ZERO));
        made
    }

    pub fn at(&self, x: u32, y: u32, sample: u32) -> (value: Pixel)
        ensures
            value == entry(self@, slot(x, y, sample, self.width, self.samples), ZERO),
    {
        let index: u128 = slot_of(x, y, sample, self.width, self.samples);
        if index < self.values.len() as u128 {
            self.values[index as usize]
        } else {
            ZERO
        }
    }

    pub fn set(&mut self, x: u32, y: u32, sample: u32, value: Pixel)
        ensures
            final(self).same_shape(*old(self)),
            final(self)@ == replaced(
                old(self)@,
                slot(x, y, sample, old(self).width, old(self).samples),
                value,
            ),
    {
        let index: u128 = slot_of(x, y, sample, self.width, self.samples);
        if index < self.values.len() as u128 {
            self.values.set(index as usize, value);
        }
    }

    pub fn fill(&mut self, value: Pixel)
        ensures
            final(self).same_shape(*old(self)),
            final(self)@ == Seq::new(old(self)@.len(), |i: int| value),
    {
        let mut index: usize = 0;
        while index < self.values.len()
            invariant
                index <= self.values@.len(),
                self.values@.len() == old(self).values@.len(),
                self.same_shape(*old(self)),
                forall|i: int| 0 <= i < index ==> #[trigger] self.values@[i] == value,
            decreases self.values@.len() - index,
        {
            self.values.set(index, value);
            index = index + 1;
        }
        assert(self@ =~= Seq::new(old(self)@.len(), |i: int| value));
    }

    /// The samples of one pixel, in order.
    pub open spec fn pixel(self, x: u32, y: u32) -> Seq<Pixel> {
        Seq::new(
            self.samples as nat,
            |sample: int| entry(self@, slot(x, y, sample as u32, self.width, self.samples), ZERO),
        )
    }

    /// The samples of one pixel, in order: what a resolve averages.
    pub fn samples_at(&self, x: u32, y: u32) -> (values: Vec<Pixel>)
        ensures
            values@ == self.pixel(x, y),
    {
        let mut values: Vec<Pixel> = Vec::new();
        let mut sample: u32 = 0;
        while sample < self.samples
            invariant
                sample <= self.samples,
                values@.len() == sample,
                forall|i: int| 0 <= i < sample ==> #[trigger] values@[i] == self.pixel(x, y)[i],
            decreases self.samples - sample,
        {
            values.push(self.at(x, y, sample));
            sample = sample + 1;
        }
        assert(values@ =~= self.pixel(x, y));
        values
    }

    /// What one pixel resolves to: an identity is its first sample, since the average of two
    /// identities belongs to neither; a colour is the average of its samples, which the caller
    /// computed.
    pub open spec fn resolved(self, averages: Seq<Pixel>, x: u32, y: u32) -> Pixel {
        if self.integer {
            self.pixel(x, y)[0]
        } else {
            averages[cell(x as int, y as int, self.width as int)]
        }
    }

    /// One value per pixel, row by row.
    pub fn resolve(&self, averages: &[Pixel]) -> (values: Vec<Pixel>)
        requires
            self.samples >= 1,
            self.width * self.height <= u32::MAX,
            !self.integer ==> averages@.len() == self.width * self.height,
        ensures
            values@.len() == self.width * self.height,
            forall|x: u32, y: u32|
                x < self.width && y < self.height ==> #[trigger] values@[cell(
                    x as int,
                    y as int,
                    self.width as int,
                )] == self.resolved(averages@, x, y),
    {
        let mut values: Vec<Pixel> = Vec::new();
        let mut y: u32 = 0;
        let (width, height): (u32, u32) = (self.width, self.height);
        while y < height
            invariant
                y <= height,
                width == self.width,
                height == self.height,
                self.samples >= 1,
                !self.integer ==> averages@.len() == width * height,
                values@.len() == cell(0, y as int, width as int),
                width * height <= u32::MAX,
                forall|u: u32, v: u32|
                    u < width && v < height && cell(u as int, v as int, width as int) < values@.len()
                        ==> #[trigger] values@[cell(u as int, v as int, width as int)] == self.resolved(
                        averages@,
                        u,
                        v,
                    ),
            decreases height - y,
        {
            let mut x: u32 = 0;
            while x < width
                invariant
                    x <= width,
                    y < height,
                    width == self.width,
                    height == self.height,
                    self.samples >= 1,
                    !self.integer ==> averages@.len() == width * height,
                    values@.len() == cell(x as int, y as int, width as int),
                    width * height <= u32::MAX,
                    forall|u: u32, v: u32|
                        u < width && v < height && cell(u as int, v as int, width as int) < values@.len()
                            ==> #[trigger] values@[cell(u as int, v as int, width as int)]
                            == self.resolved(averages@, u, v),
                decreases width - x,
            {
                proof {
                    cell_is_stored(x as int, y as int, width as int, height as int);
                }
                let value = if self.integer {
                    self.at(x, y, 0)
                } else {
                    averages[values.len()]
                };
                let ghost before = values@;
                values.push(value);
                assert forall|u: u32, v: u32|
                    u < width && v < height && cell(u as int, v as int, width as int) < values@.len() implies
                    #[trigger] values@[cell(u as int, v as int, width as int)] == self.resolved(
                    averages@,
                    u,
                    v,
                ) by {
                    let i = cell(u as int, v as int, width as int);
                    cell_is_stored(u as int, v as int, width as int, height as int);
                    if i == before.len() {
                        cells_are_apart(u as int, v as int, x as int, y as int, width as int);
                    } else {
                        assert(before[i] == values@[i]);
                    }
                }
                x = x + 1;
            }
            assert(cell(width as int, y as int, width as int) == cell(0, y + 1, width as int))
                by (nonlinear_arith);
            y = y + 1;
        }
        assert forall|x: u32, y: u32| x < width && y < height implies #[trigger] values@[cell(
            x as int,
            y as int,
            width as int,
        )] == self.resolved(averages@, x, y) by {
            cell_is_stored(x as int, y as int, width as int, height as int);
            assert(width * height == cell(0, height as int, width as int)) by (nonlinear_arith);
        }
        assert(width * height == cell(0, height as int, width as int)) by (nonlinear_arith);
        values
    }
}

/// How a depth is stored.
#[derive(Clone, Copy, PartialEq, Eq, Structural, Debug)]
pub enum DepthFormat {
    Depth16,
    Depth24,
    Depth32F,
    Depth24Stencil8,
    Depth32FStencil8,
}

/// The depth and stencil attachment.
#[derive(Clone, Debug)]
pub struct DepthStencil {
    pub width: u32,
    pub height: u32,
    pub samples: u32,
    pub format: DepthFormat,
    pub depth: Vec<Stored>,
    pub stencil: Vec<u8>,
}

impl DepthStencil {
    /// The stored depths.
    pub open spec fn depths(self) -> Seq<Stored> {
        self.depth@
    }

    /// The stored stencil values.
    pub open spec fn stencils(self) -> Seq<u8> {
        self.stencil@
    }

    /// Whether the storage is the size the shape says.
    pub open spec fn wf(self) -> bool {
        self.depths().len() == self.width * self.height * self.samples && self.stencils().len()
            == self.width * self.height * self.samples
    }

    /// Whether another attachment has the same shape and format.
    pub open spec fn same_shape(self, other: DepthStencil) -> bool {
        self.width == other.width && self.height == other.height && self.samples == other.samples
            && self.format == other.format
    }

    /// An attachment cleared to `far`, which is the far plane as the format stores it.
    pub fn new(width: u32, height: u32, samples: u32, format: DepthFormat, far: Stored) -> (made: DepthStencil)
        requires
            width * height <= u32::MAX,
            width * height * samples <= u32::MAX,
        ensures
            made.width == width,
            made.height == height,
            made.samples == samples,
            made.format == format,
            made.wf(),
            made.depths() == Seq::new((width * height * samples) as nat, |i: int| far),
            made.stencils() == Seq::new((width * height * samples) as nat, |i: int| 0u8),
    {
        let count: u32 = width * height * samples;
        let mut depth: Vec<Stored> = Vec::new();
        let mut stencil: Vec<u8> = Vec::new();
        let mut filled: u32 = 0;
        while filled < count
            invariant
                filled <= count,
                depth@.len() == filled,
                stencil@.len() == filled,
                forall|i: int| 0 <= i < filled ==> #[trigger] depth@[i] == far,
                forall|i: int| 0 <= i < filled ==> #[trigger] stencil@[i] == 0,
            decreases count - filled,
        {
            depth.push(far);
            stencil.push(0);
            filled = filled + 1;
        }
        let made = DepthStencil { width, height, samples, format, depth, stencil };
        assert(made.depths() =~= Seq::new((width * height * samples) as nat, |i: int| far));
        assert(made.stencils() =~= Seq::new((width * height * samples) as nat, |i: int| 0u8));
        made
    }

    pub fn depth_at(&self, x: u32, y: u32, sample: u32) -> (value: Stored)
        ensures
            value == entry(
                self.depths(),
                slot(x, y, sample, self.width, self.samples),
                Stored::Float(ONE),
            ),
    {
        let index: u128 = slot_of(x, y, sample, self.width, self.samples);
        if index < self.depth.len() as u128 {
            self.depth[index as usize]
        } else {
            Stored::Float(ONE)
        }
    }

    pub fn stencil_at(&self, x: u32, y: u32, sample: u32) -> (value: u8)
        ensures
            value == entry(self.stencils(), slot(x, y, sample, self.width, self.samples), 0),
    {
        let index: u128 = slot_of(x, y, sample, self.width, self.samples);
        if index < self.stencil.len() as u128 {
            self.stencil[index as usize]
        } else {
            0
        }
    }

    /// Whether the depths of a rectangle hold this depth.
    pub open spec fn holds_in(self, area: (u32, u32, u32, u32), depth: Stored) -> bool {
        exists|x: u32, y: u32, sample: u32|
            #[trigger] self.samples_in(area, x, y, sample) && depth == entry(
                self.depths(),
                slot(x, y, sample, self.width, self.samples),
                Stored::Float(ONE),
            )
    }

    /// Whether a sample lies in a rectangle of the attachment, given by its corners.
    pub open spec fn samples_in(self, area: (u32, u32, u32, u32), x: u32, y: u32, sample: u32) -> bool {
        area.0 <= x < area.2 && x < self.width && area.1 <= y < area.3 && y < self.height && sample
            < self.samples
    }

    /// The depths of the first `count` samples of a pixel.
    pub open spec fn pixel_depths(self, x: int, y: int, count: nat) -> Seq<Stored> {
        Seq::new(count, |s: int| self.stored_depth(x as u32, y as u32, s as u32))
    }

    /// The depths of `count` pixels of a row from one on, sample by sample.
    pub open spec fn row_depths(self, x: int, y: int, count: nat) -> Seq<Stored>
        decreases count,
    {
        if count == 0 {
            Seq::empty()
        } else {
            self.row_depths(x, y, (count - 1) as nat) + self.pixel_depths(
                x + count - 1,
                y,
                self.samples as nat,
            )
        }
    }

    /// The depths of the first `count` rows of a rectangle, given by its corners, row by row.
    pub open spec fn block_depths(self, area: (u32, u32, u32, u32), count: nat) -> Seq<Stored>
        decreases count,
    {
        if count == 0 {
            Seq::empty()
        } else {
            self.block_depths(area, (count - 1) as nat) + self.row_depths(
                area.0 as int,
                area.1 + count - 1,
                within(area.0, area.2, self.width),
            )
        }
    }

    /// Every depth stored in a rectangle, row by row, which is what the bound of a tile is taken from.
    pub fn depths_in(&self, x0: u32, y0: u32, x1: u32, y1: u32) -> (values: Vec<Stored>)
        ensures
            values@ == self.block_depths((x0, y0, x1, y1), within(y0, y1, self.height)),
            forall|depth: Stored| values@.contains(depth) <==> #[trigger] self.holds_in(
                (x0, y0, x1, y1),
                depth,
            ),
    {
        let ghost area = (x0, y0, x1, y1);
        let mut values: Vec<Stored> = Vec::new();
        let right: u32 = if x1 < self.width {
            x1
        } else {
            self.width
        };
        let bottom: u32 = if y1 < self.height {
            y1
        } else {
            self.height
        };
        let mut y: u32 = y0;
        while y < bottom
            invariant
                bottom == y1 || bottom == self.height,
                bottom <= y1,
                bottom <= self.height,
                right <= x1,
                right <= self.width,
                right == x1 || right == self.width,
                y0 <= y,
                y <= bottom || y == y0,
                area == (x0, y0, x1, y1),
                forall|i: int| 0 <= i < values@.len() ==> self.holds_in(area, #[trigger] values@[i]),
                forall|u: u32, v: u32, s: u32|
                    #[trigger] self.samples_in(area, u, v, s) && v < y ==> values@.contains(
                        self.stored_depth(u, v, s),
                    ),
                values@ == self.block_depths(area, (y - y0) as nat),
            decreases bottom - y,
        {
            let mut x: u32 = x0;
            let ghost above = values@;
            assert(values@ =~= above + self.row_depths(x0 as int, y as int, 0));
            while x < right
                invariant
                    y < bottom,
                    y0 <= y,
                    bottom <= y1,
                    bottom <= self.height,
                    right <= x1,
                    right <= self.width,
                    right == x1 || right == self.width,
                    x0 <= x,
                    x <= right || x == x0,
                    area == (x0, y0, x1, y1),
                    forall|i: int| 0 <= i < values@.len() ==> self.holds_in(area, #[trigger] values@[i]),
                    forall|u: u32, v: u32, s: u32|
                        #[trigger] self.samples_in(area, u, v, s) && (v < y || (v == y && u < x))
                            ==> values@.contains(self.stored_depth(u, v, s)),
                    values@ == above + self.row_depths(x0 as int, y as int, (x - x0) as nat),
                decreases right - x,
            {
                let mut sample: u32 = 0;
                let ghost left = values@;
                assert(values@ =~= left + self.pixel_depths(x as int, y as int, 0));
                while sample < self.samples
                    invariant
                        sample <= self.samples,
                        y < bottom,
                        y0 <= y,
                        x < right,
                        x0 <= x,
                        bottom <= y1,
                        bottom <= self.height,
                        right <= x1,
                        right <= self.width,
                        area == (x0, y0, x1, y1),
                        forall|i: int|
                            0 <= i < values@.len() ==> self.holds_in(area, #[trigger] values@[i]),
                        forall|u: u32, v: u32, s: u32|
                            #[trigger] self.samples_in(area, u, v, s) && (v < y || (v == y && (u < x || (u
                                == x && s < sample)))) ==> values@.contains(self.stored_depth(u, v, s)),
                        values@ == left + self.pixel_depths(x as int, y as int, sample as nat),
                    decreases self.samples - sample,
                {
                    let ghost before = values@;
                    let value = self.depth_at(x, y, sample);
                    values.push(value);
                    proof {
                        assert(self.samples_in(area, x, y, sample));
                        assert(self.holds_in(area, value));
                        assert(values@[before.len() as int] == value);
                        assert forall|u: u32, v: u32, s: u32|
                            #[trigger] self.samples_in(area, u, v, s) && (v < y || (v == y && (u < x || (u
                                == x && s < sample + 1)))) implies values@.contains(
                            self.stored_depth(u, v, s),
                        ) by {
                            let depth = self.stored_depth(u, v, s);
                            if u == x && v == y && s == sample {
                                assert(values@[before.len() as int] == depth);
                            } else {
                                let i = choose|i: int| 0 <= i < before.len() && before[i] == depth;
                                assert(before.contains(depth));
                                assert(values@[i] == depth);
                            }
                        }
                    }
                    assert(values@ =~= left + self.pixel_depths(x as int, y as int, (sample + 1) as nat));
                    sample = sample + 1;
                }
                assert(values@ =~= above + self.row_depths(x0 as int, y as int, (x + 1 - x0) as nat));
                x = x + 1;
            }
            y = y + 1;
        }
        assert forall|depth: Stored| values@.contains(depth) <==> #[trigger] self.holds_in(area, depth) by {
            if self.holds_in(area, depth) {
                let (u, v, s) = choose|u: u32, v: u32, s: u32|
                    #[trigger] self.samples_in(area, u, v, s) && depth == entry(
                        self.depths(),
                        slot(u, v, s, self.width, self.samples),
                        Stored::Float(ONE),
                    );
                assert(self.samples_in(area, u, v, s));
                assert(depth == self.stored_depth(u, v, s));
            }
        }
        values
    }

    /// The depth stored for one sample.
    pub open spec fn stored_depth(self, x: u32, y: u32, sample: u32) -> Stored {
        entry(self.depths(), slot(x, y, sample, self.width, self.samples), Stored::Float(ONE))
    }

    /// Clear to a depth, as the format stores it, and a stencil value.
    pub fn clear(&mut self, stored: Stored, stencil: u8)
        ensures
            final(self).same_shape(*old(self)),
            final(self).depths() == Seq::new(old(self).depths().len(), |i: int| stored),
            final(self).stencils() == Seq::new(old(self).stencils().len(), |i: int| stencil),
    {
        let mut index: usize = 0;
        while index < self.depth.len()
            invariant
                index <= self.depth@.len(),
                self.depth@.len() == old(self).depth@.len(),
                self.stencil == old(self).stencil,
                self.same_shape(*old(self)),
                forall|i: int| 0 <= i < index ==> #[trigger] self.depth@[i] == stored,
            decreases self.depth@.len() - index,
        {
            self.depth.set(index, stored);
            index = index + 1;
        }
        let mut index: usize = 0;
        while index < self.stencil.len()
            invariant
                index <= self.stencil@.len(),
                self.stencil@.len() == old(self).stencil@.len(),
                self.depth@.len() == old(self).depth@.len(),
                self.same_shape(*old(self)),
                forall|i: int| 0 <= i < self.depth@.len() ==> #[trigger] self.depth@[i] == stored,
                forall|i: int| 0 <= i < index ==> #[trigger] self.stencil@[i] == stencil,
            decreases self.stencil@.len() - index,
        {
            self.stencil.set(index, stencil);
            index = index + 1;
        }
        assert(self.depths() =~= Seq::new(old(self).depths().len(), |i: int| stored));
        assert(self.stencils() =~= Seq::new(old(self).stencils().len(), |i: int| stencil));
    }
}

/// How many coordinates from one on are below an end and below an extent.
pub open spec fn within(from: u32, end: u32, extent: u32) -> nat {
    let last = if end < extent {
        end
    } else {
        extent
    };
    if last < from {
        0
    } else {
        (last - from) as nat
    }
}

/// The furthest of the first `count` depths, and nothing nearer than the near plane.
pub open spec fn furthest_of(readings: Seq<u32>, count: nat) -> u32
    decreases count,
{
    if count == 0 {
        0
    } else {
        let held = furthest_of(readings, (count - 1) as nat);
        if below(held, readings[count - 1]) {
            readings[count - 1]
        } else {
            held
        }
    }
}

/// The furthest of the depths read back from a rectangle.
pub fn furthest_in(readings: &[u32]) -> (furthest: u32)
    ensures
        furthest == furthest_of(readings@, readings@.len()),
{
    let mut furthest: u32 = 0;
    let mut next: usize = 0;
    while next < readings.len()
        invariant
            next <= readings@.len(),
            furthest == furthest_of(readings@, next as nat),
        decreases readings@.len() - next,
    {
        if less(furthest, readings[next]) {
            furthest = readings[next];
        }
        next = next + 1;
    }
    furthest
}

/// No depth that was read is beyond the furthest.
pub proof fn the_furthest_bounds_every_reading(readings: Seq<u32>, count: nat, i: int)
    requires
        0 <= i < count <= readings.len(),
    ensures
        !nan(furthest_of(readings, count)),
        !below(furthest_of(readings, count), readings[i]),
    decreases count,
{
    never_not_a_number(readings, count);
    if i < count - 1 {
        the_furthest_bounds_every_reading(readings, (count - 1) as nat, i);
    } else {
        never_not_a_number(readings, (count - 1) as nat);
    }
}

proof fn never_not_a_number(readings: Seq<u32>, count: nat)
    ensures
        !nan(furthest_of(readings, count)),
    decreases count,
{
    if count > 0 {
        never_not_a_number(readings, (count - 1) as nat);
    }
}

/// What a pass does with one attachment at each end.
#[derive(Clone, Copy, Debug)]
pub struct Operations {
    pub load: LoadOp,
    pub store: StoreOp,
    /// The value `LoadOp::Clear` writes.
    pub clear: Pixel,
}

/// The contents of an attachment after its load operation.
pub open spec fn loaded(contents: Seq<Pixel>, operations: Operations) -> Seq<Pixel> {
    match operations.load {
        LoadOp::Load => contents,
        LoadOp::Clear => Seq::new(contents.len(), |i: int| operations.clear),
        LoadOp::Discard => Seq::new(contents.len(), |i: int| POISON),
    }
}

/// Apply a load operation to a colour attachment.
pub fn load_colour(attachment: &mut Colour, operations: &Operations)
    ensures
        final(attachment).same_shape(*old(attachment)),
        final(attachment)@ == loaded(old(attachment)@, *operations),
{
    match operations.load {
        LoadOp::Load => {},
        LoadOp::Clear => attachment.fill(operations.clear),
        LoadOp::Discard => attachment.fill(POISON),
    }
}

/// Apply a store operation, answering whether the contents may be read afterwards.
pub fn store_colour(attachment: &mut Colour, operations: &Operations) -> (readable: bool)
    ensures
        final(attachment).same_shape(*old(attachment)),
        readable == (operations.store == StoreOp::Store),
        final(attachment)@ == if readable {
            old(attachment)@
        } else {
            Seq::new(old(attachment)@.len(), |i: int| POISON)
        },
{
    match operations.store {
        StoreOp::Store => true,
        StoreOp::Discard => {
            attachment.fill(POISON);
            false
        },
    }
}

/// How one attachment blends.
#[derive(Clone, Copy, PartialEq, Eq, Structural, Debug)]
pub struct AttachmentBlend {
    pub enabled: bool,
    pub write_mask: WriteMask,
}

/// Everything the fragment path needs about one pixel's state.
#[derive(Clone, Copy, Debug)]
pub struct Fragment {
    pub x: u32,
    pub y: u32,
    /// Which samples the rasteriser covered.
    pub coverage: u32,
    /// The depth, as the depth attachment's format stores it.
    pub depth: Stored,
    pub colour: Pixel,
    pub blend: AttachmentBlend,
    pub depth_compare: CompareOp,
    pub depth_write: bool,
    pub stencil: Option<StencilFace>,
    /// The static sample mask.
    pub sample_mask: u32,
    /// The mask the fragment's own alpha narrows coverage to, where alpha-to-coverage is on.
    pub alpha_mask: Option<Result<u32, Error>>,
}

/// What a fragment writes into.
#[verifier::ext_equal]
pub ghost struct Surfaces {
    pub colour: Seq<Pixel>,
    pub depth: Seq<Stored>,
    pub stencil: Seq<u8>,
}

/// What one fragment, or some of its samples, came to.
#[verifier::ext_equal]
pub ghost struct Progress {
    pub surfaces: Surfaces,
    pub written: nat,
    pub fault: Option<Error>,
}

/// The contents of a colour attachment and of a depth one, where there is one.
pub open spec fn surfaces_of(colour: Colour, depth_stencil: Option<DepthStencil>) -> Surfaces {
    Surfaces {
        colour: colour@,
        depth: match depth_stencil {
            Some(buffer) => buffer.depths(),
            None => Seq::empty(),
        },
        stencil: match depth_stencil {
            Some(buffer) => buffer.stencils(),
            None => Seq::empty(),
        },
    }
}

/// Coverage after the masks.
pub open spec fn narrowed(fragment: Fragment) -> u32 {
    match fragment.alpha_mask {
        Some(Ok(alpha)) => fragment.coverage & fragment.sample_mask & alpha,
        _ => fragment.coverage & fragment.sample_mask,
    }
}

/// A value under a write mask: a masked channel keeps the destination's.
pub open spec fn masked(mask: WriteMask, value: Pixel, destination: Pixel) -> Pixel {
    [
        if mask.red { value[0] } else { destination[0] },
        if mask.green { value[1] } else { destination[1] },
        if mask.blue { value[2] } else { destination[2] },
        if mask.alpha { value[3] } else { destination[3] },
    ]
}

fn keep_masked(mask: WriteMask, value: Pixel, destination: Pixel) -> (kept: Pixel)
    ensures
        kept == masked(mask, value, destination),
{
    let kept: Pixel = [
        if mask.red { value[0] } else { destination[0] },
        if mask.green { value[1] } else { destination[1] },
        if mask.blue { value[2] } else { destination[2] },
        if mask.alpha { value[3] } else { destination[3] },
    ];
    kept
}

/// What the depth and stencil test of one sample comes to, where there is a depth attachment.
pub open spec fn sample_outcome(
    surfaces: Surfaces,
    depth_stencil: Option<DepthStencil>,
    fragment: Fragment,
    sample: u32,
) -> Outcome {
    match depth_stencil {
        None => Outcome { passed: true, depth: None, stencil: None },
        Some(buffer) => {
            let at = slot(fragment.x, fragment.y, sample, buffer.width, buffer.samples);
            tested(
                fragment.depth_compare,
                fragment.depth_write,
                fragment.depth,
                entry(surfaces.depth, at, Stored::Float(ONE)),
                match fragment.stencil {
                    Some(face) => Some((face, entry(surfaces.stencil, at, 0))),
                    None => None,
                },
            )
        },
    }
}

/// One covered sample of a fragment.
pub open spec fn sample_written(
    before: Progress,
    colour: Colour,
    depth_stencil: Option<DepthStencil>,
    fragment: Fragment,
    blended: Seq<Pixel>,
    sample: u32,
) -> Progress {
    let outcome = sample_outcome(before.surfaces, depth_stencil, fragment, sample);
    let at = match depth_stencil {
        Some(buffer) => slot(fragment.x, fragment.y, sample, buffer.width, buffer.samples),
        None => -1,
    };
    let tested = Surfaces {
        depth: match outcome.depth {
            Some(depth) => replaced(before.surfaces.depth, at, depth),
            None => before.surfaces.depth,
        },
        stencil: match outcome.stencil {
            Some(stencil) => replaced(before.surfaces.stencil, at, stencil),
            None => before.surfaces.stencil,
        },
        ..before.surfaces
    };
    if !outcome.passed {
        Progress { surfaces: tested, ..before }
    } else if colour.integer && fragment.blend.enabled {
        Progress {
            surfaces: tested,
            fault: Some(Error::UnsupportedFormat { reason: FormatFault::IntegerBlend }),
            ..before
        }
    } else {
        let place = slot(fragment.x, fragment.y, sample, colour.width, colour.samples);
        let value = if colour.integer {
            fragment.colour
        } else {
            blended[sample as int]
        };
        Progress {
            surfaces: Surfaces {
                colour: replaced(
                    tested.colour,
                    place,
                    masked(fragment.blend.write_mask, value, entry(tested.colour, place, ZERO)),
                ),
                ..tested
            },
            written: before.written + 1,
            fault: None,
        }
    }
}

/// The first `count` samples of a fragment.
pub open spec fn samples_written(
    start: Surfaces,
    colour: Colour,
    depth_stencil: Option<DepthStencil>,
    fragment: Fragment,
    blended: Seq<Pixel>,
    count: nat,
) -> Progress
    decreases count,
{
    if count == 0 {
        Progress { surfaces: start, written: 0, fault: None }
    } else {
        let before = samples_written(start, colour, depth_stencil, fragment, blended, (count - 1) as nat);
        if before.fault is Some || !bit(narrowed(fragment), (count - 1) as u32) {
            before
        } else {
            sample_written(before, colour, depth_stencil, fragment, blended, (count - 1) as u32)
        }
    }
}

/// What writing one fragment comes to.
pub open spec fn fragment_written(
    colour: Colour,
    depth_stencil: Option<DepthStencil>,
    fragment: Fragment,
    blended: Seq<Pixel>,
) -> Progress {
    let start = surfaces_of(colour, depth_stencil);
    match fragment.alpha_mask {
        Some(Err(error)) => Progress { surfaces: start, written: 0, fault: Some(error) },
        _ => samples_written(start, colour, depth_stencil, fragment, blended, colour.samples as nat),
    }
}

/// A depth attachment of the same shape, or none where there was none.
pub open spec fn same_buffer(after: Option<DepthStencil>, before: Option<DepthStencil>) -> bool {
    match (after, before) {
        (Some(new), Some(old)) => new.same_shape(old) && (old.wf() ==> new.wf()),
        (None, None) => true,
        _ => false,
    }
}

proof fn no_bits_no_samples(
    start: Surfaces,
    colour: Colour,
    depth_stencil: Option<DepthStencil>,
    fragment: Fragment,
    blended: Seq<Pixel>,
    count: nat,
)
    requires
        narrowed(fragment) == 0,
        count <= 32,
    ensures
        samples_written(start, colour, depth_stencil, fragment, blended, count) == (Progress {
            surfaces: start,
            written: 0,
            fault: None,
        }),
    decreases count,
{
    if count > 0 {
        no_bits_no_samples(start, colour, depth_stencil, fragment, blended, (count - 1) as nat);
        let index = (count - 1) as u32;
        assert(0u32 & (1u32 << index) == 0) by (bit_vector);
    }
}

proof fn a_fault_stays(
    start: Surfaces,
    colour: Colour,
    depth_stencil: Option<DepthStencil>,
    fragment: Fragment,
    blended: Seq<Pixel>,
    from: nat,
    to: nat,
)
    requires
        from <= to,
        samples_written(start, colour, depth_stencil, fragment, blended, from).fault is Some,
    ensures
        samples_written(start, colour, depth_stencil, fragment, blended, to) == samples_written(
            start,
            colour,
            depth_stencil,
            fragment,
            blended,
            from,
        ),
    decreases to - from,
{
    if from < to {
        a_fault_stays(start, colour, depth_stencil, fragment, blended, from, (to - 1) as nat);
    }
}

/// The depth and stencil test of one sample against the attachment, storing what it stores.
fn test_sample(depth_stencil: &mut Option<DepthStencil>, fragment: &Fragment, sample: u32) -> (passed: bool)
    ensures
        ({
            let before = surfaces_of_buffer(*old(depth_stencil));
            let outcome = sample_outcome(before, *old(depth_stencil), *fragment, sample);
            let at = match *old(depth_stencil) {
                Some(buffer) => slot(fragment.x, fragment.y, sample, buffer.width, buffer.samples),
                None => -1,
            };
            let after = surfaces_of_buffer(*final(depth_stencil));
            &&& passed == outcome.passed
            &&& same_buffer(*final(depth_stencil), *old(depth_stencil))
            &&& after.depth == match outcome.depth {
                Some(depth) => replaced(before.depth, at, depth),
                None => before.depth,
            }
            &&& after.stencil == match outcome.stencil {
                Some(stencil) => replaced(before.stencil, at, stencil),
                None => before.stencil,
            }
        }),
{
    match depth_stencil {
        None => true,
        Some(buffer) => {
            let stored = buffer.depth_at(fragment.x, fragment.y, sample);
            let stencil = match fragment.stencil {
                Some(face) => Some((face, buffer.stencil_at(fragment.x, fragment.y, sample))),
                None => None,
            };
            let outcome = depth_stencil_test(
                fragment.depth_compare,
                fragment.depth_write,
                fragment.depth,
                stored,
                stencil,
            );
            let index: u128 = slot_of(fragment.x, fragment.y, sample, buffer.width, buffer.samples);
            if let Some(value) = outcome.depth {
                if index < buffer.depth.len() as u128 {
                    buffer.depth.set(index as usize, value);
                }
            }
            if let Some(value) = outcome.stencil {
                if index < buffer.stencil.len() as u128 {
                    buffer.stencil.set(index as usize, value);
                }
            }
            outcome.passed
        },
    }
}

/// The contents of a depth attachment, where there is one.
pub open spec fn surfaces_of_buffer(depth_stencil: Option<DepthStencil>) -> Surfaces {
    Surfaces {
        colour: Seq::empty(),
        depth: match depth_stencil {
            Some(buffer) => buffer.depths(),
            None => Seq::empty(),
        },
        stencil: match depth_stencil {
            Some(buffer) => buffer.stencils(),
            None => Seq::empty(),
        },
    }
}

/// Write one fragment to one colour attachment and the depth one. `blended` holds, for each sample, what
/// the blend equation makes of the fragment's colour and the sample's; an integer attachment uses none.
pub fn write_fragment(
    colour: &mut Colour,
    depth_stencil: &mut Option<DepthStencil>,
    fragment: &Fragment,
    blended: &[Pixel],
) -> (written: Result<u32, Error>)
    requires
        old(colour).samples <= 32,
        !old(colour).integer ==> blended@.len() >= old(colour).samples,
    ensures
        ({
            let whole = fragment_written(*old(colour), *old(depth_stencil), *fragment, blended@);
            &&& final(colour).same_shape(*old(colour))
            &&& same_buffer(*final(depth_stencil), *old(depth_stencil))
            &&& surfaces_of(*final(colour), *final(depth_stencil)) == whole.surfaces
            &&& match written {
                Ok(count) => whole.fault is None && count == whole.written,
                Err(error) => whole.fault == Some(error),
            }
        }),
{
    let ghost start = surfaces_of(*colour, *depth_stencil);
    let coverage: u32 = match fragment.alpha_mask {
        Some(Err(error)) => {
            return Err(error);
        },
        Some(Ok(alpha)) => fragment.coverage & fragment.sample_mask & alpha,
        None => fragment.coverage & fragment.sample_mask,
    };
    let samples: u32 = colour.samples;
    if coverage == 0 {
        proof {
            no_bits_no_samples(start, *colour, *depth_stencil, *fragment, blended@, samples as nat);
        }
        return Ok(0);
    }
    let mut written: u32 = 0;
    let mut sample: u32 = 0;
    while sample < samples
        invariant
            sample <= samples <= 32,
            written <= sample,
            samples == old(colour).samples,
            coverage == narrowed(*fragment),
            !(fragment.alpha_mask matches Some(Err(_))),
            start == surfaces_of(*old(colour), *old(depth_stencil)),
            !old(colour).integer ==> blended@.len() >= samples,
            colour.same_shape(*old(colour)),
            same_buffer(*depth_stencil, *old(depth_stencil)),
            samples_written(
                start,
                *old(colour),
                *old(depth_stencil),
                *fragment,
                blended@,
                sample as nat,
            ) == (Progress {
                surfaces: surfaces_of(*colour, *depth_stencil),
                written: written as nat,
                fault: None,
            }),
        decreases samples - sample,
    {
        let covered = coverage & (1u32 << sample) != 0;
        if covered {
            let ghost before = surfaces_of(*colour, *depth_stencil);
            let ghost next = samples_written(
                start,
                *old(colour),
                *old(depth_stencil),
                *fragment,
                blended@,
                (sample + 1) as nat,
            );
            let ghost buffer = *depth_stencil;
            assert(sample_outcome(before, *old(depth_stencil), *fragment, sample) == sample_outcome(
                surfaces_of_buffer(buffer),
                buffer,
                *fragment,
                sample,
            ));
            let passed = test_sample(depth_stencil, fragment, sample);
            if passed {
                if colour.integer && fragment.blend.enabled {
                    proof {
                        assert(next.surfaces =~= surfaces_of(*colour, *depth_stencil));
                        a_fault_stays(
                            start,
                            *old(colour),
                            *old(depth_stencil),
                            *fragment,
                            blended@,
                            (sample + 1) as nat,
                            samples as nat,
                        );
                    }
                    return Err(Error::UnsupportedFormat { reason: FormatFault::IntegerBlend });
                }
                let destination = colour.at(fragment.x, fragment.y, sample);
                let value = if colour.integer {
                    fragment.colour
                } else {
                    blended[sample as usize]
                };
                let kept = keep_masked(fragment.blend.write_mask, value, destination);
                colour.set(fragment.x, fragment.y, sample, kept);
                written = written + 1;
            }
            assert(next.surfaces =~= surfaces_of(*colour, *depth_stencil));
            assert(next =~= (Progress {
                surfaces: surfaces_of(*colour, *depth_stencil),
                written: written as nat,
                fault: None,
            }));
        }
        sample = sample + 1;
    }
    Ok(written)
}

/// A fragment reaches its own pixel and no other: everything stored elsewhere is as it was.
pub proof fn a_fragment_touches_only_its_own_pixel(
    colour: Colour,
    depth_stencil: Option<DepthStencil>,
    fragment: Fragment,
    blended: Seq<Pixel>,
    x: u32,
    y: u32,
    sample: u32,
)
    requires
        fragment.x < colour.width,
        x < colour.width,
        sample < colour.samples,
        x != fragment.x || y != fragment.y,
    ensures
        entry(
            fragment_written(colour, depth_stencil, fragment, blended).surfaces.colour,
            slot(x, y, sample, colour.width, colour.samples),
            ZERO,
        ) == entry(colour@, slot(x, y, sample, colour.width, colour.samples), ZERO),
{
    other_pixels_stay(
        surfaces_of(colour, depth_stencil),
        colour,
        depth_stencil,
        fragment,
        blended,
        colour.samples as nat,
        x,
        y,
        sample,
    );
}

proof fn other_pixels_stay(
    start: Surfaces,
    colour: Colour,
    depth_stencil: Option<DepthStencil>,
    fragment: Fragment,
    blended: Seq<Pixel>,
    count: nat,
    x: u32,
    y: u32,
    sample: u32,
)
    requires
        count <= colour.samples,
        fragment.x < colour.width,
        x < colour.width,
        sample < colour.samples,
        x != fragment.x || y != fragment.y,
    ensures
        ({
            let after = samples_written(start, colour, depth_stencil, fragment, blended, count);
            let at = slot(x, y, sample, colour.width, colour.samples);
            after.surfaces.colour.len() == start.colour.len() && entry(after.surfaces.colour, at, ZERO)
                == entry(start.colour, at, ZERO)
        }),
    decreases count,
{
    if count > 0 {
        other_pixels_stay(
            start,
            colour,
            depth_stencil,
            fragment,
            blended,
            (count - 1) as nat,
            x,
            y,
            sample,
        );
        let current = (count - 1) as u32;
        if slot(x, y, sample, colour.width, colour.samples) == slot(
            fragment.x,
            fragment.y,
            current,
            colour.width,
            colour.samples,
        ) {
            samples_are_apart(
                x,
                y,
                sample,
                fragment.x,
                fragment.y,
                current,
                colour.width,
                colour.samples,
            );
        }
    }
}

// ---------------------------------------------------------------------------------------------
// Laws of the attachments.
// ---------------------------------------------------------------------------------------------
/// Samples are stored pixel by pixel and row by row: the next sample of a pixel is next, the pixel to the right is as many
/// samples on as a pixel has, the one below a row of them on, and the first is first.
pub proof fn samples_are_stored_in_order(x: u32, y: u32, sample: u32, width: u32, samples: u32)
    requires
        x < u32::MAX && y < u32::MAX && sample < u32::MAX,
    ensures
        ({
            let here = slot(x, y, sample, width, samples);
            &&& slot(0, 0, 0, width, samples) == 0
            &&& slot(x, y, (sample + 1) as u32, width, samples) - here == 1
            &&& slot((x + 1) as u32, y, sample, width, samples) - here == samples
            &&& slot(x, (y + 1) as u32, sample, width, samples) - here == width * samples
        }),
{
    let at = y * width + x;
    assert((at + 1) * samples == at * samples + samples) by (nonlinear_arith);
    assert((y + 1) * width + x == at + width) by (nonlinear_arith)
        requires
            at == y * width + x,
    ;
    assert((at + width) * samples == at * samples + width * samples) by (nonlinear_arith);
    assert((0 * width + 0) * samples + 0 == 0) by (nonlinear_arith);
}

/// A write mask is by channel: the first is red, the second green, the third blue and the fourth alpha; a channel that is
/// not written keeps what was there.
pub proof fn a_write_mask_is_by_channel(mask: WriteMask, value: Pixel, under: Pixel)
    ensures
        masked(mask, value, under)@[0] == if mask.red {
            value@[0]
        } else {
            under@[0]
        },
        masked(mask, value, under)@[1] == if mask.green {
            value@[1]
        } else {
            under@[1]
        },
        masked(mask, value, under)@[2] == if mask.blue {
            value@[2]
        } else {
            under@[2]
        },
        masked(mask, value, under)@[3] == if mask.alpha {
            value@[3]
        } else {
            under@[3]
        },
{
}

/// A sample is written where the rasteriser covers it, the sample mask has it and, where alpha narrows coverage, the alpha
/// mask has it too.
pub proof fn coverage_is_narrowed_by_every_mask(fragment: Fragment, sample: u32)
    requires
        sample < 32,
    ensures
        bit(narrowed(fragment), sample) <==> bit(fragment.coverage, sample) && bit(fragment.sample_mask, sample) && (
        fragment.alpha_mask matches Some(Ok(alpha)) ==> bit(alpha, sample)),
{
    let (a, b) = (fragment.coverage, fragment.sample_mask);
    assert(a & b & (1u32 << sample) != 0 <==> a & (1u32 << sample) != 0 && b & (1u32 << sample) != 0) by (bit_vector)
        requires
            sample < 32,
    ;
    if let Some(Ok(c)) = fragment.alpha_mask {
        assert(a & b & c & (1u32 << sample) != 0 <==> a & (1u32 << sample) != 0 && b & (1u32 << sample) != 0 && c & (
        1u32 << sample) != 0) by (bit_vector)
            requires
                sample < 32,
        ;
    }
}

/// An attachment that is loaded keeps what it held, one that is cleared holds its clear value everywhere, and one that is
/// discarded holds neither: every pixel is opaque magenta.
pub proof fn a_load_is_by_pixel(contents: Seq<Pixel>, operations: Operations, i: int)
    requires
        0 <= i < contents.len(),
    ensures
        loaded(contents, operations).len() == contents.len(),
        operations.load is Load ==> loaded(contents, operations)[i] == contents[i],
        operations.load is Clear ==> loaded(contents, operations)[i] == operations.clear,
        operations.load is Discard ==> loaded(contents, operations)[i] == [0x3F80_0000u32, 0, 0x3F80_0000, 0x3F80_0000],
{
}

/// The furthest of some depths is one of them and none is further, or it is the near plane where none is beyond it.
pub proof fn the_furthest_is_furthest(readings: Seq<u32>, count: nat, i: int)
    requires
        0 <= i < count <= readings.len(),
        !nan(readings[i]),
    ensures
        number(furthest_of(readings, count)) >= number(readings[i]),
        number(furthest_of(readings, count)) >= 0,
        furthest_of(readings, count) == 0 || exists|k: int|
            0 <= k < count && furthest_of(readings, count) == #[trigger] readings[k],
    decreases count,
{
    the_furthest_bounds_every_reading(readings, count, i);
    order_is_by_number(furthest_of(readings, count), readings[i]);
    the_furthest_is_read(readings, count);
}

proof fn the_furthest_is_read(readings: Seq<u32>, count: nat)
    requires
        count <= readings.len(),
    ensures
        !nan(furthest_of(readings, count)),
        number(furthest_of(readings, count)) >= 0,
        furthest_of(readings, count) == 0 || exists|k: int|
            0 <= k < count && furthest_of(readings, count) == #[trigger] readings[k],
    decreases count,
{
    if count > 0 {
        the_furthest_is_read(readings, (count - 1) as nat);
        let held = furthest_of(readings, (count - 1) as nat);
        if below(held, readings[count - 1]) {
            order_is_by_number(held, readings[count - 1]);
            assert(readings[count - 1] == furthest_of(readings, count));
        } else if held != 0 {
            let k = choose|k: int| 0 <= k < count - 1 && held == #[trigger] readings[k];
            assert(readings[k] == furthest_of(readings, count));
        }
    } else {
        assert(number(0) == 0);
    }
}

/// A colour pixel resolves to the average of its own samples and an identity to its first sample, row by row.
pub proof fn a_pixel_resolves_to_its_own(attachment: Colour, averages: Seq<Pixel>, values: Vec<Pixel>, given: &[Pixel], x: u32, y: u32)
    requires
        given@ == averages,
        attachment.samples >= 1,
        attachment.width * attachment.height <= u32::MAX,
        !attachment.integer ==> averages.len() == attachment.width * attachment.height,
        call_ensures(Colour::resolve, (&attachment, given), values),
        x < attachment.width,
        y < attachment.height,
    ensures
        values@[y * attachment.width + x] == if attachment.integer {
            entry(attachment@, (y * attachment.width + x) * attachment.samples, ZERO)
        } else {
            averages[y * attachment.width + x]
        },
{
    let at = cell(x as int, y as int, attachment.width as int);
    assert(at == y * attachment.width + x);
    assert(values@[at] == attachment.resolved(averages, x, y));
}

/// What writing a fragment leaves at a sample of its own pixel: where the sample is covered and its test passes, the
/// blended colour under the write mask, or for an identity the fragment's own, and the fragment's depth where the draw
/// writes it; where it is not covered, everything as it was; where it is covered and refused, the colour and the depth as
/// they were. The stencil value is what the test made of it.
pub proof fn a_fragment_writes_its_own_samples(
    colour: Colour,
    buffer: DepthStencil,
    fragment: Fragment,
    blended: Seq<Pixel>,
    sample: u32,
)
    requires
        !(colour.integer && fragment.blend.enabled),
        !(fragment.alpha_mask matches Some(Err(_))),
        fragment.x < colour.width && fragment.y < colour.height,
        sample < colour.samples,
        buffer.width == colour.width && buffer.height == colour.height && buffer.samples == colour.samples,
        colour.wf() && buffer.wf(),
    ensures
        ({
            let after = fragment_written(colour, Some(buffer), fragment, blended).surfaces;
            let at = (fragment.y * colour.width + fragment.x) * colour.samples + sample;
            let outcome = tested(
                fragment.depth_compare,
                fragment.depth_write,
                fragment.depth,
                buffer.depths()[at],
                match fragment.stencil {
                    Some(face) => Some((face, buffer.stencils()[at])),
                    None => None,
                },
            );
            let covered = bit(narrowed(fragment), sample);
            let value = if colour.integer {
                fragment.colour
            } else {
                blended[sample as int]
            };
            &&& after.colour[at] == if covered && outcome.passed {
                masked(fragment.blend.write_mask, value, colour@[at])
            } else {
                colour@[at]
            }
            &&& after.depth[at] == if covered && outcome.passed && fragment.depth_write {
                fragment.depth
            } else {
                buffer.depths()[at]
            }
            &&& after.stencil[at] == if covered && outcome.stencil is Some {
                outcome.stencil->Some_0
            } else {
                buffer.stencils()[at]
            }
        }),
{
    a_sample_is_stored(fragment.x, fragment.y, sample, colour.width, colour.height, colour.samples);
    samples_are_written_one_by_one(
        surfaces_of(colour, Some(buffer)),
        colour,
        buffer,
        fragment,
        blended,
        colour.samples as nat,
        sample,
    );
}

proof fn samples_are_written_one_by_one(
    start: Surfaces,
    colour: Colour,
    buffer: DepthStencil,
    fragment: Fragment,
    blended: Seq<Pixel>,
    count: nat,
    sample: u32,
)
    requires
        start == surfaces_of(colour, Some(buffer)),
        !(colour.integer && fragment.blend.enabled),
        fragment.x < colour.width && fragment.y < colour.height,
        sample < colour.samples,
        count <= colour.samples,
        buffer.width == colour.width && buffer.height == colour.height && buffer.samples == colour.samples,
        colour.wf() && buffer.wf(),
    ensures
        ({
            let progress = samples_written(start, colour, Some(buffer), fragment, blended, count);
            let after = progress.surfaces;
            let at = slot(fragment.x, fragment.y, sample, colour.width, colour.samples);
            let outcome = sample_outcome(start, Some(buffer), fragment, sample);
            let done = sample < count && bit(narrowed(fragment), sample);
            let value = if colour.integer {
                fragment.colour
            } else {
                blended[sample as int]
            };
            &&& progress.fault is None
            &&& after.colour.len() == start.colour.len() && after.depth.len() == start.depth.len()
                && after.stencil.len() == start.stencil.len()
            &&& 0 <= at < start.colour.len() && at < start.depth.len() && at < start.stencil.len()
            &&& after.colour[at] == if done && outcome.passed {
                masked(fragment.blend.write_mask, value, start.colour[at])
            } else {
                start.colour[at]
            }
            &&& after.depth[at] == if done && outcome.passed && fragment.depth_write {
                fragment.depth
            } else {
                start.depth[at]
            }
            &&& after.stencil[at] == if done && outcome.stencil is Some {
                outcome.stencil->Some_0
            } else {
                start.stencil[at]
            }
        }),
    decreases count,
{
    a_sample_is_stored(fragment.x, fragment.y, sample, colour.width, colour.height, colour.samples);
    if count > 0 {
        samples_are_written_one_by_one(start, colour, buffer, fragment, blended, (count - 1) as nat, sample);
        let current = (count - 1) as u32;
        a_sample_is_stored(fragment.x, fragment.y, current, colour.width, colour.height, colour.samples);
        if slot(fragment.x, fragment.y, sample, colour.width, colour.samples) == slot(
            fragment.x,
            fragment.y,
            current,
            colour.width,
            colour.samples,
        ) {
            samples_are_apart(
                fragment.x,
                fragment.y,
                sample,
                fragment.x,
                fragment.y,
                current,
                colour.width,
                colour.samples,
            );
        }
    }
}


/// A run of coordinates holds those from its start that are below both its end and the extent, and no other.
pub proof fn a_run_stops_at_both_ends(from: u32, end: u32, extent: u32, at: int)
    ensures
        from <= at < from + within(from, end, extent) <==> from <= at < end && at < extent,
{
}

/// Replacing an entry replaces that one and no other, and keeps how many there are.
pub proof fn replacing_replaces_one<T>(values: Seq<T>, index: int, value: T, other: int, otherwise: T)
    ensures
        replaced(values, index, value).len() == values.len(),
        0 <= index < values.len() ==> entry(replaced(values, index, value), index, otherwise) == value,
        other != index ==> entry(replaced(values, index, value), other, otherwise) == entry(values, other, otherwise),
        0 <= other < values.len() ==> entry(values, other, otherwise) == values[other],
        !(0 <= other < values.len()) ==> entry(values, other, otherwise) == otherwise,
{
}

/// The depths of a row are those of its pixels in order, every sample of one before the next.
pub proof fn depths_go_sample_by_sample(buffer: DepthStencil, x: u32, y: u32, count: nat, pixel: int, sample: int)
    requires
        0 <= pixel < count,
        0 <= sample < buffer.samples,
        x + count <= u32::MAX,
    ensures
        buffer.row_depths(x as int, y as int, count).len() == count * buffer.samples,
        0 <= pixel * buffer.samples + sample < count * buffer.samples,
        buffer.row_depths(x as int, y as int, count)[pixel * buffer.samples + sample] == buffer.stored_depth(
            (x + pixel) as u32,
            y,
            sample as u32,
        ),
    decreases count,
{
    let n = buffer.samples as int;
    let c = count as int;
    depths_of_a_row_are_counted(buffer, x as int, y as int, count);
    assert(0 <= pixel * n + sample < c * n) by (nonlinear_arith)
        requires
            0 <= pixel < c,
            0 <= sample < n,
    ;
    depths_of_a_row_are_counted(buffer, x as int, y as int, (count - 1) as nat);
    assert((c - 1) * n == c * n - n) by (nonlinear_arith);
    if pixel < count - 1 {
        depths_go_sample_by_sample(buffer, x, y, (count - 1) as nat, pixel, sample);
    }
}

proof fn depths_of_a_row_are_counted(buffer: DepthStencil, x: int, y: int, count: nat)
    ensures
        buffer.row_depths(x, y, count).len() == count * buffer.samples,
    decreases count,
{
    let (c, n) = (count as int, buffer.samples as int);
    assert(c == 0 ==> c * n == 0) by (nonlinear_arith);
    if count > 0 {
        depths_of_a_row_are_counted(buffer, x, y, (count - 1) as nat);
        assert((c - 1) * n + n == c * n) by (nonlinear_arith);
    }
}

} // verus!
