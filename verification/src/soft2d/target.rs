//! The surfaces a drawing is composited in: a rectangle of pixels with a place in the target.
//!
//! A pixel is four binary32 channels by their bits. A layer's surface keeps the precision of a half, which
//! the caller rounds to before it stores.
use super::geom::PixelRect;
use crate::grid::{cell, cell_is_stored, cells_are_apart};
use vstd::prelude::*;

verus! {

/// Four premultiplied channels by their bits.
pub type Rgba = [u32; 4];

/// No light and no coverage.
pub const TRANSPARENT: Rgba = [0, 0, 0, 0];

/// A rectangle of pixels as mathematics.
#[verifier::ext_equal]
pub ghost struct Sheet {
    pub x: u32,
    pub y: u32,
    pub width: u32,
    pub height: u32,
    pub pixels: Seq<Rgba>,
}

impl Sheet {
    /// Whether there is a pixel for every place.
    pub open spec fn wf(self) -> bool {
        self.pixels.len() == self.width * self.height
    }

    /// Whether a pixel of the target is on the sheet.
    pub open spec fn has(self, x: int, y: int) -> bool {
        self.x <= x < self.x + self.width && self.y <= y < self.y + self.height
    }

    /// Where a pixel of the target is kept.
    pub open spec fn index(self, x: int, y: int) -> int {
        cell(x - self.x, y - self.y, self.width as int)
    }

    /// A pixel, in the target's coordinates; nothing off the sheet.
    pub open spec fn at(self, x: int, y: int) -> Rgba {
        if self.has(x, y) {
            self.pixels[self.index(x, y)]
        } else {
            TRANSPARENT
        }
    }

    /// The sheet with one pixel replaced; a pixel off the sheet is not kept.
    pub open spec fn with(self, x: int, y: int, value: Rgba) -> Sheet {
        if self.has(x, y) {
            Sheet { pixels: self.pixels.update(self.index(x, y), value), ..self }
        } else {
            self
        }
    }

    /// Whether a run from a pixel on is stored whole.
    pub open spec fn holds_run(self, x: int, y: int, length: int) -> bool {
        self.has(x, y) && self.index(x, y) + length <= self.pixels.len()
    }

    /// A run of pixels from one on, as they are stored; nothing off the sheet and past its end.
    pub open spec fn run(self, x: int, y: int, length: nat) -> Seq<Rgba> {
        Seq::new(
            length,
            |i: int|
                if self.has(x, y) && self.index(x, y) + i < self.pixels.len() {
                    self.pixels[self.index(x, y) + i]
                } else {
                    TRANSPARENT
                },
        )
    }

    /// The sheet with a run of pixels stored from one on; what falls past the end is not kept.
    pub open spec fn with_run(self, x: int, y: int, values: Seq<Rgba>) -> Sheet {
        let start = self.index(x, y);
        Sheet {
            pixels: Seq::new(
                self.pixels.len(),
                |i: int|
                    if self.has(x, y) && start <= i < start + values.len() {
                        values[i - start]
                    } else {
                        self.pixels[i]
                    },
            ),
            ..self
        }
    }

    /// The first `count` rows of an area stored, each where it fits whole, or each as far as it fits.
    pub open spec fn with_rows(self, area: PixelRect, rows: Seq<Seq<Rgba>>, count: nat, whole: bool) -> Sheet
        decreases count,
    {
        if count == 0 {
            self
        } else {
            let before = self.with_rows(area, rows, (count - 1) as nat, whole);
            let (y, row) = (area.y + count - 1, rows[count - 1]);
            if whole && !before.holds_run(area.x as int, y, row.len() as int) {
                before
            } else {
                before.with_run(area.x as int, y, row)
            }
        }
    }

    /// The first `count` rows of an area, those that are stored whole, or all as far as they are stored.
    pub open spec fn rows(self, area: PixelRect, count: nat, whole: bool) -> Seq<(u32, Seq<Rgba>)>
        decreases count,
    {
        if count == 0 {
            Seq::empty()
        } else {
            let before = self.rows(area, (count - 1) as nat, whole);
            let y = area.y + count - 1;
            if whole && !self.holds_run(area.x as int, y, area.width as int) {
                before
            } else {
                before.push((y as u32, self.run(area.x as int, y, area.width as nat)))
            }
        }
    }

    /// Whether two sheets are the same place and size.
    pub open spec fn same_place(self, other: Sheet) -> bool {
        self.x == other.x && self.y == other.y && self.width == other.width && self.height == other.height
    }
}

/// How many rows of an area have a coordinate.
pub open spec fn row_count(area: PixelRect) -> nat {
    if area.y + area.height > u32::MAX {
        (u32::MAX - area.y) as nat
    } else {
        area.height as nat
    }
}

/// Rows of pixels as mathematics.
pub open spec fn runs(rows: Seq<Vec<Rgba>>) -> Seq<Seq<Rgba>> {
    Seq::new(rows.len(), |i: int| rows[i]@)
}

/// Rows of pixels with their coordinates, as mathematics.
pub open spec fn numbered(rows: Seq<(u32, Vec<Rgba>)>) -> Seq<(u32, Seq<Rgba>)> {
    Seq::new(rows.len(), |i: int| (rows[i].0, rows[i].1@))
}

fn rows_of(area: PixelRect) -> (count: u32)
    ensures
        count == row_count(area),
{
    let room: u32 = 0xffff_ffff - area.y;
    if area.height < room {
        area.height
    } else {
        room
    }
}

/// Setting a pixel sets it and no other.
pub proof fn setting_sets_one(sheet: Sheet, x: int, y: int, value: Rgba, u: int, v: int)
    requires
        sheet.wf(),
    ensures
        sheet.with(x, y, value).wf(),
        sheet.with(x, y, value).at(u, v) == (if u == x && v == y && sheet.has(x, y) {
            value
        } else {
            sheet.at(u, v)
        }),
{
    if sheet.has(x, y) {
        cell_is_stored(x - sheet.x, y - sheet.y, sheet.width as int, sheet.height as int);
        if sheet.has(u, v) {
            cell_is_stored(u - sheet.x, v - sheet.y, sheet.width as int, sheet.height as int);
            if sheet.index(u, v) == sheet.index(x, y) {
                cells_are_apart(
                    u - sheet.x,
                    v - sheet.y,
                    x - sheet.x,
                    y - sheet.y,
                    sheet.width as int,
                );
            }
        }
    }
}

/// A rectangle of pixels, with its place in the target.
#[derive(Debug)]
pub struct Surface {
    pub pixels: Vec<Rgba>,
    pub origin: (u32, u32),
    pub width: u32,
    pub height: u32,
}

impl View for Surface {
    type V = Sheet;

    open spec fn view(&self) -> Sheet {
        Sheet {
            x: self.origin.0,
            y: self.origin.1,
            width: self.width,
            height: self.height,
            pixels: self.pixels@,
        }
    }
}

impl Surface {
    /// A cleared surface for a rectangle. A side of none counts as one.
    pub fn new(bounds: PixelRect) -> (made: Surface)
        requires
            bounds.width * bounds.height <= u32::MAX,
        ensures
            made@.wf(),
            made@.x == bounds.x,
            made@.y == bounds.y,
            made@.width == (if bounds.width < 1 {
                1
            } else {
                bounds.width
            }),
            made@.height == (if bounds.height < 1 {
                1
            } else {
                bounds.height
            }),
            made@.pixels == Seq::new(made@.pixels.len(), |i: int| TRANSPARENT),
    {
        let width: u32 = if bounds.width < 1 {
            1
        } else {
            bounds.width
        };
        let height: u32 = if bounds.height < 1 {
            1
        } else {
            bounds.height
        };
        assert(0 <= width * height <= u32::MAX) by (nonlinear_arith)
            requires
                bounds.width * bounds.height <= u32::MAX,
                width == bounds.width || (bounds.width == 0 && width == 1),
                height == bounds.height || (bounds.height == 0 && height == 1),
                0 <= bounds.width <= u32::MAX,
                0 <= bounds.height <= u32::MAX,
        ;
        let count: u32 = width * height;
        let mut pixels: Vec<Rgba> = Vec::new();
        let mut filled: u32 = 0;
        while filled < count
            invariant
                filled <= count,
                pixels@.len() == filled,
                forall|i: int| 0 <= i < filled ==> #[trigger] pixels@[i] == TRANSPARENT,
            decreases count - filled,
        {
            pixels.push(TRANSPARENT);
            filled = filled + 1;
        }
        let made = Surface { pixels, origin: (bounds.x, bounds.y), width, height };
        assert(made@.pixels =~= Seq::new(made@.pixels.len(), |i: int| TRANSPARENT));
        made
    }

    pub fn bounds(&self) -> (bounds: PixelRect)
        ensures
            bounds == (PixelRect { x: self@.x, y: self@.y, width: self@.width, height: self@.height }),
    {
        PixelRect { x: self.origin.0, y: self.origin.1, width: self.width, height: self.height }
    }

    /// Move this surface to another place in the target, keeping its storage.
    pub fn rebase(&mut self, origin: (u32, u32))
        ensures
            final(self)@ == (Sheet { x: origin.0, y: origin.1, ..old(self)@ }),
    {
        self.origin = origin;
    }

    pub fn clear(&mut self)
        ensures
            final(self)@ == (Sheet {
                pixels: Seq::new(old(self)@.pixels.len(), |i: int| TRANSPARENT),
                ..old(self)@
            }),
    {
        let mut next: usize = 0;
        while next < self.pixels.len()
            invariant
                next <= self.pixels@.len(),
                self.pixels@.len() == old(self).pixels@.len(),
                self.origin == old(self).origin,
                self.width == old(self).width,
                self.height == old(self).height,
                forall|i: int| 0 <= i < next ==> #[trigger] self.pixels@[i] == TRANSPARENT,
            decreases self.pixels@.len() - next,
        {
            self.pixels.set(next, TRANSPARENT);
            next = next + 1;
        }
        assert(self@.pixels =~= Seq::new(old(self)@.pixels.len(), |i: int| TRANSPARENT));
    }

    /// Where a pixel of the target is kept, or none off the surface.
    fn offset(&self, x: u32, y: u32) -> (index: Option<usize>)
        requires
            self@.wf(),
        ensures
            match index {
                Some(found) => self@.has(x as int, y as int) && found == self@.index(x as int, y as int)
                    && found < self@.pixels.len(),
                None => !self@.has(x as int, y as int),
            },
    {
        if x < self.origin.0 || y < self.origin.1 {
            return None;
        }
        let (local_x, local_y): (u32, u32) = (x - self.origin.0, y - self.origin.1);
        if local_x >= self.width || local_y >= self.height {
            return None;
        }
        proof {
            cell_is_stored(local_x as int, local_y as int, self.width as int, self.height as int);
        }
        let count: usize = self.pixels.len();
        Some(local_y as usize * self.width as usize + local_x as usize)
    }

    /// One pixel, in the target's coordinates.
    pub fn get(&self, x: u32, y: u32) -> (value: Rgba)
        requires
            self@.wf(),
        ensures
            value == self@.at(x as int, y as int),
    {
        match self.offset(x, y) {
            Some(index) => self.pixels[index],
            None => TRANSPARENT,
        }
    }

    pub fn set(&mut self, x: u32, y: u32, value: Rgba)
        requires
            old(self)@.wf(),
        ensures
            final(self)@ == old(self)@.with(x as int, y as int, value),
            final(self)@.wf(),
            final(self)@.same_place(old(self)@),
    {
        if let Some(index) = self.offset(x, y) {
            self.pixels.set(index, value);
        }
    }

    /// A run of pixels from one on, as they are stored; nothing off the surface and past its end.
    pub fn read_span(&self, x: u32, y: u32, length: usize) -> (run: Vec<Rgba>)
        requires
            self@.wf(),
        ensures
            run@ == Seq::new(
                length as nat,
                |i: int|
                    if self@.has(x as int, y as int) && self@.index(x as int, y as int) + i
                        < self@.pixels.len() {
                        self@.pixels[self@.index(x as int, y as int) + i]
                    } else {
                        TRANSPARENT
                    },
            ),
    {
        let start = self.offset(x, y);
        let mut run: Vec<Rgba> = Vec::new();
        let mut next: usize = 0;
        while next < length
            invariant
                next <= length,
                run@.len() == next,
                self@.wf(),
                match start {
                    Some(found) => self@.has(x as int, y as int) && found == self@.index(
                        x as int,
                        y as int,
                    ) && found < self@.pixels.len(),
                    None => !self@.has(x as int, y as int),
                },
                forall|i: int|
                    0 <= i < next ==> #[trigger] run@[i] == (if self@.has(x as int, y as int)
                        && self@.index(x as int, y as int) + i < self@.pixels.len() {
                        self@.pixels[self@.index(x as int, y as int) + i]
                    } else {
                        TRANSPARENT
                    }),
            decreases length - next,
        {
            let value = match start {
                Some(index) => {
                    let room: usize = self.pixels.len() - index;
                    if next < room {
                        self.pixels[index + next]
                    } else {
                        TRANSPARENT
                    }
                },
                None => TRANSPARENT,
            };
            run.push(value);
            next = next + 1;
        }
        assert(run@ =~= Seq::new(
            length as nat,
            |i: int|
                if self@.has(x as int, y as int) && self@.index(x as int, y as int) + i
                    < self@.pixels.len() {
                    self@.pixels[self@.index(x as int, y as int) + i]
                } else {
                    TRANSPARENT
                },
        ));
        run
    }

    /// Store a run of pixels from one on; what falls past the end is not kept.
    pub fn write_span(&mut self, x: u32, y: u32, values: &[Rgba])
        requires
            old(self)@.wf(),
        ensures
            final(self)@.same_place(old(self)@),
            final(self)@ == old(self)@.with_run(x as int, y as int, values@),
            final(self)@.pixels == Seq::new(
                old(self)@.pixels.len(),
                |i: int|
                    {
                        let start = old(self)@.index(x as int, y as int);
                        if old(self)@.has(x as int, y as int) && start <= i < start + values@.len() {
                            values@[i - start]
                        } else {
                            old(self)@.pixels[i]
                        }
                    },
            ),
    {
        let ghost before = self@;
        if let Some(start) = self.offset(x, y) {
            let count: usize = self.pixels.len();
            let mut next: usize = 0;
            while next < values.len() && next < count - start
                invariant
                    next <= values@.len(),
                    next <= count - start,
                    start < count,
                    count == before.pixels.len(),
                    before == old(self)@,
                    self@.same_place(before),
                    self@.pixels.len() == before.pixels.len(),
                    forall|i: int|
                        0 <= i < count ==> #[trigger] self@.pixels[i] == (if start <= i < start + next {
                            values@[i - start]
                        } else {
                            before.pixels[i]
                        }),
                decreases values@.len() - next,
            {
                self.pixels.set(start + next, values[next]);
                next = next + 1;
            }
        }
        assert(self@.pixels =~= Seq::new(
            before.pixels.len(),
            |i: int|
                {
                    let start = before.index(x as int, y as int);
                    if before.has(x as int, y as int) && start <= i < start + values@.len() {
                        values@[i - start]
                    } else {
                        before.pixels[i]
                    }
                },
        ));
    }

    /// Store the decoded rows of an area, as far as each fits.
    pub fn load(&mut self, bounds: PixelRect, rows: &[Vec<Rgba>])
        requires
            old(self)@.wf(),
            rows@.len() == row_count(bounds),
        ensures
            final(self)@ == old(self)@.with_rows(bounds, runs(rows@), row_count(bounds), false),
            final(self)@.wf(),
            final(self)@.same_place(old(self)@),
    {
        let mut next: u32 = 0;
        let count: u32 = rows_of(bounds);
        while next < count
            invariant
                next <= count,
                count == row_count(bounds),
                rows@.len() == count,
                self@.wf(),
                self@.same_place(old(self)@),
                self@ == old(self)@.with_rows(bounds, runs(rows@), next as nat, false),
            decreases count - next,
        {
            self.write_span(bounds.x, bounds.y + next, rows[next as usize].as_slice());
            next = next + 1;
        }
    }

    /// The rows of an area, to be encoded, each with its coordinate.
    pub fn store(&self, bounds: PixelRect) -> (rows: Vec<(u32, Vec<Rgba>)>)
        requires
            self@.wf(),
        ensures
            numbered(rows@) == self@.rows(bounds, row_count(bounds), false),
    {
        let mut rows: Vec<(u32, Vec<Rgba>)> = Vec::new();
        let mut next: u32 = 0;
        let count: u32 = rows_of(bounds);
        assert(numbered(rows@) =~= Seq::<(u32, Seq<Rgba>)>::empty());
        while next < count
            invariant
                next <= count,
                count == row_count(bounds),
                self@.wf(),
                numbered(rows@) == self@.rows(bounds, next as nat, false),
            decreases count - next,
        {
            let y: u32 = bounds.y + next;
            let row = self.read_span(bounds.x, y, bounds.width as usize);
            assert(row@ =~= self@.run(bounds.x as int, y as int, bounds.width as nat));
            let ghost before = numbered(rows@);
            rows.push((y, row));
            assert(numbered(rows@) =~= before.push((y, row@)));
            next = next + 1;
        }
        rows
    }
}

/// The target's working copy of one tile.
#[derive(Debug)]
pub struct Tile {
    pub surface: Surface,
}

impl View for Tile {
    type V = Sheet;

    open spec fn view(&self) -> Sheet {
        self.surface@
    }
}

impl Tile {
    /// A cleared square tile.
    pub fn new(size: u32) -> (made: Tile)
        requires
            1 <= size,
            size * size <= u32::MAX,
        ensures
            made@.wf(),
            made@.width == size,
            made@.height == size,
            made@.x == 0,
            made@.y == 0,
            made@.pixels == Seq::new(made@.pixels.len(), |i: int| TRANSPARENT),
    {
        Tile { surface: Surface::new(PixelRect { x: 0, y: 0, width: size, height: size }) }
    }

    pub fn rebase(&mut self, origin: (u32, u32))
        ensures
            final(self)@ == (Sheet { x: origin.0, y: origin.1, ..old(self)@ }),
    {
        self.surface.rebase(origin);
    }

    pub fn clear(&mut self)
        ensures
            final(self)@ == (Sheet {
                pixels: Seq::new(old(self)@.pixels.len(), |i: int| TRANSPARENT),
                ..old(self)@
            }),
    {
        self.surface.clear();
    }

    pub fn get(&self, x: u32, y: u32) -> (value: Rgba)
        requires
            self@.wf(),
        ensures
            value == self@.at(x as int, y as int),
    {
        self.surface.get(x, y)
    }

    pub fn set(&mut self, x: u32, y: u32, value: Rgba)
        requires
            old(self)@.wf(),
        ensures
            final(self)@ == old(self)@.with(x as int, y as int, value),
            final(self)@.wf(),
            final(self)@.same_place(old(self)@),
    {
        self.surface.set(x, y, value);
    }

    /// A run of pixels from one on; nothing at all where the run is not stored whole.
    pub fn read_span(&self, x: u32, y: u32, length: usize) -> (run: Vec<Rgba>)
        requires
            self@.wf(),
        ensures
            run@ == (if self@.holds_run(x as int, y as int, length as int) {
                self@.pixels.subrange(
                    self@.index(x as int, y as int),
                    self@.index(x as int, y as int) + length,
                )
            } else {
                Seq::new(length as nat, |i: int| TRANSPARENT)
            }),
    {
        let whole = match self.surface.offset(x, y) {
            Some(start) => {
                let room: usize = self.surface.pixels.len() - start;
                length <= room
            },
            None => false,
        };
        if whole {
            let run = self.surface.read_span(x, y, length);
            assert(run@ =~= self@.pixels.subrange(
                self@.index(x as int, y as int),
                self@.index(x as int, y as int) + length,
            ));
            return run;
        }
        let mut run: Vec<Rgba> = Vec::new();
        while run.len() < length
            invariant
                run@.len() <= length,
                forall|i: int| 0 <= i < run@.len() ==> #[trigger] run@[i] == TRANSPARENT,
            decreases length - run@.len(),
        {
            run.push(TRANSPARENT);
        }
        assert(run@ =~= Seq::new(length as nat, |i: int| TRANSPARENT));
        run
    }

    /// Store a run of pixels from one on; none of it where it does not fit.
    pub fn write_span(&mut self, x: u32, y: u32, values: &[Rgba])
        requires
            old(self)@.wf(),
        ensures
            final(self)@.same_place(old(self)@),
            final(self)@ == (if old(self)@.holds_run(x as int, y as int, values@.len() as int) {
                old(self)@.with_run(x as int, y as int, values@)
            } else {
                old(self)@
            }),
            final(self)@.pixels == (if old(self)@.holds_run(x as int, y as int, values@.len() as int) {
                let start = old(self)@.index(x as int, y as int);
                Seq::new(
                    old(self)@.pixels.len(),
                    |i: int|
                        if start <= i < start + values@.len() {
                            values@[i - start]
                        } else {
                            old(self)@.pixels[i]
                        },
                )
            } else {
                old(self)@.pixels
            }),
    {
        let ghost before = self@;
        if let Some(start) = self.surface.offset(x, y) {
            let room: usize = self.surface.pixels.len() - start;
            if values.len() <= room {
                self.surface.write_span(x, y, values);
                assert(self@.pixels =~= Seq::new(
                    before.pixels.len(),
                    |i: int|
                        if start <= i < start + values@.len() {
                            values@[i - start]
                        } else {
                            before.pixels[i]
                        },
                ));
            }
        }
    }

    /// Store the decoded rows of an area, each where it fits whole.
    pub fn load(&mut self, bounds: PixelRect, rows: &[Vec<Rgba>])
        requires
            old(self)@.wf(),
            rows@.len() == row_count(bounds),
        ensures
            final(self)@ == old(self)@.with_rows(bounds, runs(rows@), row_count(bounds), true),
            final(self)@.wf(),
            final(self)@.same_place(old(self)@),
    {
        let mut next: u32 = 0;
        let count: u32 = rows_of(bounds);
        while next < count
            invariant
                next <= count,
                count == row_count(bounds),
                rows@.len() == count,
                self@.wf(),
                self@.same_place(old(self)@),
                self@ == old(self)@.with_rows(bounds, runs(rows@), next as nat, true),
            decreases count - next,
        {
            self.write_span(bounds.x, bounds.y + next, rows[next as usize].as_slice());
            next = next + 1;
        }
    }

    /// The rows of an area that are stored whole, to be encoded, each with its coordinate.
    pub fn store(&self, bounds: PixelRect) -> (rows: Vec<(u32, Vec<Rgba>)>)
        requires
            self@.wf(),
        ensures
            numbered(rows@) == self@.rows(bounds, row_count(bounds), true),
    {
        let mut rows: Vec<(u32, Vec<Rgba>)> = Vec::new();
        let mut next: u32 = 0;
        let count: u32 = rows_of(bounds);
        let width: usize = bounds.width as usize;
        assert(numbered(rows@) =~= Seq::<(u32, Seq<Rgba>)>::empty());
        while next < count
            invariant
                next <= count,
                count == row_count(bounds),
                width == bounds.width,
                self@.wf(),
                numbered(rows@) == self@.rows(bounds, next as nat, true),
            decreases count - next,
        {
            let y: u32 = bounds.y + next;
            let whole = match self.surface.offset(bounds.x, y) {
                Some(start) => {
                    let room: usize = self.surface.pixels.len() - start;
                    width <= room
                },
                None => false,
            };
            if whole {
                let row = self.surface.read_span(bounds.x, y, width);
                assert(row@ =~= self@.run(bounds.x as int, y as int, bounds.width as nat));
                let ghost before = numbered(rows@);
                rows.push((y, row));
                assert(numbered(rows@) =~= before.push((y, row@)));
            }
            next = next + 1;
        }
        rows
    }
}

/// A run inside a row of a sheet changes its own pixels and no others.
proof fn a_run_inside_a_row(sheet: Sheet, x: int, y: int, values: Seq<Rgba>, u: int, v: int)
    requires
        sheet.wf(),
        sheet.has(x, y),
        x + values.len() <= sheet.x + sheet.width,
    ensures
        sheet.holds_run(x, y, values.len() as int),
        sheet.with_run(x, y, values).wf(),
        sheet.with_run(x, y, values).at(u, v) == (if v == y && x <= u < x + values.len() {
            values[u - x]
        } else {
            sheet.at(u, v)
        }),
{
    let (across, down) = (sheet.width as int, sheet.height as int);
    cell_is_stored(x - sheet.x, y - sheet.y, across, down);
    if values.len() > 0 {
        cell_is_stored(x - sheet.x + values.len() - 1, y - sheet.y, across, down);
    }
    if sheet.has(u, v) {
        cell_is_stored(u - sheet.x, v - sheet.y, across, down);
        let offset = sheet.index(u, v) - sheet.index(x, y);
        if 0 <= offset < values.len() {
            cells_are_apart(u - sheet.x, v - sheet.y, x + offset - sheet.x, y - sheet.y, across);
        }
    }
}

/// What is loaded into an area of a sheet is there, and everywhere else the sheet is as it was, whether a row
/// has to fit whole or not.
pub proof fn a_loaded_area_is_its_rows(
    sheet: Sheet,
    area: PixelRect,
    rows: Seq<Seq<Rgba>>,
    count: nat,
    whole: bool,
    u: int,
    v: int,
)
    requires
        sheet.wf(),
        sheet.x <= area.x,
        area.x + area.width <= sheet.x + sheet.width,
        area.width > 0,
        sheet.y <= area.y,
        area.y + area.height <= sheet.y + sheet.height,
        count <= area.height,
        rows.len() == area.height,
        forall|i: int| 0 <= i < rows.len() ==> (#[trigger] rows[i]).len() == area.width,
    ensures
        sheet.with_rows(area, rows, count, whole).wf(),
        sheet.with_rows(area, rows, count, whole).same_place(sheet),
        sheet.with_rows(area, rows, count, whole).at(u, v) == (if area.x <= u < area.x + area.width && area.y <= v
            < area.y + count {
            rows[v - area.y][u - area.x]
        } else {
            sheet.at(u, v)
        }),
    decreases count,
{
    if count > 0 {
        a_loaded_area_is_its_rows(sheet, area, rows, (count - 1) as nat, whole, u, v);
        let before = sheet.with_rows(area, rows, (count - 1) as nat, whole);
        a_run_inside_a_row(before, area.x as int, area.y + count - 1, rows[count - 1], u, v);
    }
}

/// A sheet that is loaded and not drawn in stores back exactly what was loaded.
pub proof fn what_is_loaded_is_stored(sheet: Sheet, area: PixelRect, rows: Seq<Seq<Rgba>>, whole: bool)
    requires
        sheet.wf(),
        sheet.x <= area.x,
        area.x + area.width <= sheet.x + sheet.width,
        area.width > 0,
        sheet.y <= area.y,
        area.y + area.height <= sheet.y + sheet.height,
        area.y + area.height <= u32::MAX,
        rows.len() == area.height,
        forall|i: int| 0 <= i < rows.len() ==> (#[trigger] rows[i]).len() == area.width,
    ensures
        sheet.with_rows(area, rows, row_count(area), whole).rows(area, row_count(area), whole) == Seq::new(
            rows.len(),
            |i: int| ((area.y + i) as u32, rows[i]),
        ),
{
    let expected = Seq::new(rows.len(), |i: int| ((area.y + i) as u32, rows[i]));
    the_rows_of_a_loaded_area(sheet, area, rows, whole, row_count(area));
    assert(expected.take(rows.len() as int) =~= expected);
}

proof fn the_rows_of_a_loaded_area(
    sheet: Sheet,
    area: PixelRect,
    rows: Seq<Seq<Rgba>>,
    whole: bool,
    count: nat,
)
    requires
        sheet.wf(),
        sheet.x <= area.x,
        area.x + area.width <= sheet.x + sheet.width,
        area.width > 0,
        sheet.y <= area.y,
        area.y + area.height <= sheet.y + sheet.height,
        area.y + area.height <= u32::MAX,
        rows.len() == area.height,
        forall|i: int| 0 <= i < rows.len() ==> (#[trigger] rows[i]).len() == area.width,
        count <= area.height,
    ensures
        sheet.with_rows(area, rows, row_count(area), whole).rows(area, count, whole) == Seq::new(
            rows.len(),
            |i: int| ((area.y + i) as u32, rows[i]),
        ).take(count as int),
    decreases count,
{
    let loaded = sheet.with_rows(area, rows, row_count(area), whole);
    let expected = Seq::new(rows.len(), |i: int| ((area.y + i) as u32, rows[i]));
    a_loaded_area_is_its_rows(sheet, area, rows, row_count(area), whole, 0, 0);
    if count == 0 {
        assert(expected.take(0) =~= Seq::empty());
    } else {
        the_rows_of_a_loaded_area(sheet, area, rows, whole, (count - 1) as nat);
        let (x, y) = (area.x as int, area.y + count - 1);
        let row = loaded.run(x, y, area.width as nat);
        let (across, down) = (loaded.width as int, loaded.height as int);
        assert forall|i: int| 0 <= i < area.width implies #[trigger] row[i] == rows[count - 1][i] by {
            a_loaded_area_is_its_rows(sheet, area, rows, row_count(area), whole, x + i, y);
            cell_is_stored(x + i - loaded.x, y - loaded.y, across, down);
        }
        assert(row =~= rows[count - 1]);
        cell_is_stored(x + area.width - 1 - loaded.x, y - loaded.y, across, down);
        assert(expected.take(count as int) =~= expected.take(count - 1).push((y as u32, rows[count - 1])));
    }
}

/// What was written as a run is read back as it.
pub proof fn a_written_run_is_read_back(sheet: Sheet, start: int, values: Seq<Rgba>)
    requires
        0 <= start,
        start + values.len() <= sheet.pixels.len(),
    ensures
        Seq::new(
            sheet.pixels.len(),
            |i: int|
                if start <= i < start + values.len() {
                    values[i - start]
                } else {
                    sheet.pixels[i]
                },
        ).subrange(start, start + values.len()) == values,
{
    assert(Seq::new(
        sheet.pixels.len(),
        |i: int|
            if start <= i < start + values.len() {
                values[i - start]
            } else {
                sheet.pixels[i]
            },
    ).subrange(start, start + values.len()) =~= values);
}


/// A run of pixels goes to the right along its row: each is the pixel as far from the first as it is in the run.
pub proof fn a_run_goes_along_its_row(sheet: Sheet, x: int, y: int, length: nat, i: int)
    requires
        sheet.wf(),
        sheet.has(x, y),
        sheet.has(x + i, y),
        0 <= i < length,
    ensures
        sheet.run(x, y, length).len() == length,
        sheet.run(x, y, length)[i] == sheet.at(x + i, y),
{
    cell_is_stored(x - sheet.x, y - sheet.y, sheet.width as int, sheet.height as int);
    cell_is_stored(x + i - sheet.x, y - sheet.y, sheet.width as int, sheet.height as int);
}

/// Storing a run that stays in its row stores each of its pixels, to the right one by one, and no other.
pub proof fn a_stored_run_lies_along_its_row(sheet: Sheet, x: int, y: int, values: Seq<Rgba>, u: int, v: int)
    requires
        sheet.wf(),
        sheet.has(x, y),
        sheet.has(u, v),
        x + values.len() <= sheet.x + sheet.width,
    ensures
        sheet.with_run(x, y, values).at(u, v) == (if v == y && x <= u < x + values.len() {
            values[u - x]
        } else {
            sheet.at(u, v)
        }),
{
    let (across, down) = (sheet.width as int, sheet.height as int);
    cell_is_stored(x - sheet.x, y - sheet.y, across, down);
    cell_is_stored(u - sheet.x, v - sheet.y, across, down);
    let (start, at) = (sheet.index(x, y), sheet.index(u, v));
    if start <= at < start + values.len() {
        let i = at - start;
        if v != y || u != x + i {
            cells_are_apart(u - sheet.x, v - sheet.y, x + i - sheet.x, y - sheet.y, across);
        }
    }
}

} // verus!
