//! Layer surfaces handed out of a reservation and taken back.
use super::geom::{capped_sum, floored_difference, saturating_difference, saturating_sum, PixelRect};
use super::target::{Sheet, Surface, TRANSPARENT};
use vstd::prelude::*;

verus! {

/// A side of a surface: one where it is none.
pub open spec fn side(length: u32) -> u32 {
    if length < 1 {
        1
    } else {
        length
    }
}

/// What a surface of an extent holds before anything is drawn on it.
pub open spec fn fresh(extent: (u32, u32)) -> Sheet {
    Sheet {
        x: 0,
        y: 0,
        width: side(extent.0),
        height: side(extent.1),
        pixels: Seq::new((side(extent.0) * side(extent.1)) as nat, |i: int| TRANSPARENT),
    }
}

/// Surfaces of one size.
#[derive(Debug)]
pub struct Pool {
    pub free: Vec<Surface>,
    pub extent: (u32, u32),
}

impl Pool {
    /// Whether a surface is one of this pool's.
    pub open spec fn fits(self, surface: Surface) -> bool {
        surface@.wf() && surface@.width == side(self.extent.0) && surface@.height == side(self.extent.1)
    }

    /// Every surface of the pool is of its one size.
    pub open spec fn wf(self) -> bool {
        forall|i: int| 0 <= i < self.free@.len() ==> self.fits(#[trigger] self.free@[i])
    }

    /// Whether this is a pool after a reservation: of the extent, what it held of that extent kept, and fresh surfaces
    /// behind it up to the count.
    pub open spec fn refilled(self, before: Pool, count: nat, extent: (u32, u32)) -> bool {
        let kept = if before.extent == extent {
            before.free@.len()
        } else {
            0
        };
        &&& self.extent == extent
        &&& self.free@.len() == if kept < count {
            count
        } else {
            kept
        }
        &&& self.free@.take(kept as int) == before.free@.take(kept as int)
        &&& forall|i: int| kept <= i < self.free@.len() ==> (#[trigger] self.free@[i])@ == fresh(extent)
    }

    pub fn new() -> (made: Pool)
        ensures
            made.wf(),
            made.free@.len() == 0,
            made.extent == (0u32, 0u32),
    {
        Pool { free: Vec::new(), extent: (0, 0) }
    }

    /// Reserve `count` surfaces of `extent`. Surfaces of another size are given up.
    pub fn reserve(&mut self, count: usize, extent: (u32, u32))
        requires
            old(self).wf(),
            side(extent.0) * side(extent.1) <= u32::MAX,
        ensures
            final(self).wf(),
            final(self).refilled(*old(self), count as nat, extent),
    {
        if self.extent.0 != extent.0 || self.extent.1 != extent.1 {
            self.free.clear();
            self.extent = extent;
        }
        let ghost (kept, before) = (self.free@.len(), self.free@);
        let width: u32 = if extent.0 < 1 {
            1
        } else {
            extent.0
        };
        let height: u32 = if extent.1 < 1 {
            1
        } else {
            extent.1
        };
        while self.free.len() < count
            invariant
                self.wf(),
                self.extent == extent,
                width == side(extent.0),
                height == side(extent.1),
                width * height <= u32::MAX,
                kept == before.len(),
                kept <= self.free@.len(),
                self.free@.take(kept as int) == before,
                forall|i: int| kept <= i < self.free@.len() ==> (#[trigger] self.free@[i])@ == fresh(extent),
                self.free@.len() == kept || self.free@.len() <= count,
            decreases count - self.free@.len(),
        {
            let surface = Surface::new(PixelRect { x: 0, y: 0, width, height });
            assert(surface@.pixels =~= fresh(extent).pixels);
            self.free.push(surface);
            assert(self.free@.take(kept as int) =~= before);
        }
        assert(before =~= old(self).free@.take(kept as int));
    }

    /// A cleared surface aimed at a rectangle, or none where the reservation is used up.
    pub fn take(&mut self, bounds: PixelRect) -> (surface: Option<Surface>)
        requires
            old(self).wf(),
        ensures
            final(self).wf(),
            final(self).extent == old(self).extent,
            match surface {
                Some(found) => {
                    &&& old(self).free@.len() > 0
                    &&& final(self).free@ == old(self).free@.drop_last()
                    &&& old(self).fits(found)
                    &&& found@ == (Sheet {
                        x: bounds.x,
                        y: bounds.y,
                        width: side(old(self).extent.0),
                        height: side(old(self).extent.1),
                        pixels: Seq::new(found@.pixels.len(), |i: int| TRANSPARENT),
                    })
                },
                None => old(self).free@.len() == 0 && final(self).free@ == old(self).free@,
            },
    {
        match self.free.pop() {
            None => None,
            Some(taken) => {
                let mut surface = taken;
                assert(old(self).fits(old(self).free@[old(self).free@.len() - 1]));
                surface.rebase((bounds.x, bounds.y));
                surface.clear();
                assert(self.free@ =~= old(self).free@.drop_last());
                Some(surface)
            },
        }
    }

    pub fn give(&mut self, surface: Surface)
        requires
            old(self).wf(),
            old(self).fits(surface),
        ensures
            final(self).wf(),
            final(self).extent == old(self).extent,
            final(self).free@ == old(self).free@.push(surface),
    {
        self.free.push(surface);
    }

    pub fn available(&self) -> (count: usize)
        ensures
            count == self.free@.len(),
    {
        self.free.len()
    }
}

/// A rectangle grown by so many pixels on every side.
pub open spec fn grown(tile: PixelRect, expansion: u32) -> PixelRect {
    let twice = if 2 * expansion > u32::MAX {
        u32::MAX
    } else {
        (2 * expansion) as u32
    };
    PixelRect {
        x: floored_difference(tile.x, expansion),
        y: floored_difference(tile.y, expansion),
        width: capped_sum(tile.width, twice),
        height: capped_sum(tile.height, twice),
    }
}

/// The pixels a layer occupies within a tile: all of the tile, grown by what its filter reaches, or the part
/// of that its own bounds cover.
pub fn layer_bounds(bounds: Option<PixelRect>, tile: PixelRect, expansion: u32) -> (pixels: PixelRect)
    ensures
        pixels == (match bounds {
            None => grown(tile, expansion),
            Some(device) => grown(tile, expansion).meet(device),
        }),
{
    let twice: u32 = if expansion > 0x7fff_ffff {
        0xffff_ffff
    } else {
        expansion * 2
    };
    let expanded = PixelRect {
        x: saturating_difference(tile.x, expansion),
        y: saturating_difference(tile.y, expansion),
        width: saturating_sum(tile.width, twice),
        height: saturating_sum(tile.height, twice),
    };
    match bounds {
        None => expanded,
        Some(device) => expanded.intersection(&device),
    }
}

/// A grown rectangle holds every pixel of the one it grew from, up to the largest coordinate.
pub proof fn growing_keeps_the_tile(tile: PixelRect, expansion: u32, x: int, y: int)
    requires
        tile.has(x, y),
        tile.width + 2 * expansion <= u32::MAX,
        tile.height + 2 * expansion <= u32::MAX,
    ensures
        grown(tile, expansion).has(x, y),
{
}

/// A grown rectangle reaches as many pixels further on every side, as far as there are pixels.
pub proof fn growing_is_by_pixels(tile: PixelRect, expansion: u32, x: int, y: int)
    requires
        expansion <= tile.x,
        expansion <= tile.y,
        tile.width + 2 * expansion <= u32::MAX,
        tile.height + 2 * expansion <= u32::MAX,
    ensures
        grown(tile, expansion).has(x, y) <==> tile.x - expansion <= x < tile.x + tile.width + expansion && tile.y
            - expansion <= y < tile.y + tile.height + expansion,
        grown(tile, 0) == tile,
{
}

/// A rectangle at the edge of the target grows to the edge and no further, and keeps its full width.
pub proof fn growing_stops_at_the_edge(tile: PixelRect, expansion: u32)
    requires
        expansion > tile.x,
        tile.width + 2 * expansion <= u32::MAX,
    ensures
        grown(tile, expansion).x == 0,
        grown(tile, expansion).width == tile.width + 2 * expansion,
{
}

/// A layer is as large as the tile grown by its filter's reach, within its own bounds where it has any.
pub proof fn a_layer_is_within_its_bounds(
    bounds: Option<PixelRect>,
    tile: PixelRect,
    expansion: u32,
    pixels: PixelRect,
    x: int,
    y: int,
)
    requires
        call_ensures(layer_bounds, (bounds, tile, expansion), pixels),
    ensures
        pixels.has(x, y) <==> grown(tile, expansion).has(x, y) && (bounds matches Some(device) ==> device.has(x, y)),
{
    if let Some(device) = bounds {
        super::geom::meeting_is_by_pixels(grown(tile, expansion), device, x, y);
    }
}

} // verus!
