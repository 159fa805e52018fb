//! Rectangles of whole pixels.
use vstd::prelude::*;

verus! {

/// An extent in pixels.
#[derive(Clone, Copy, PartialEq, Eq, Structural, Debug)]
pub struct Extent2D {
    pub width: u32,
    pub height: u32,
}

/// A rectangle of pixels.
#[derive(Clone, Copy, PartialEq, Eq, Structural, Debug)]
pub struct PixelRect {
    pub x: u32,
    pub y: u32,
    pub width: u32,
    pub height: u32,
}

impl PixelRect {
    /// Whether a pixel is in the rectangle.
    pub open spec fn has(self, x: int, y: int) -> bool {
        self.x <= x < self.x + self.width && self.y <= y < self.y + self.height
    }

    /// Whether the rectangle holds no pixel.
    pub open spec fn empty(self) -> bool {
        self.width == 0 || self.height == 0
    }

    pub fn new(x: u32, y: u32, width: u32, height: u32) -> (made: PixelRect)
        ensures
            made == (PixelRect { x, y, width, height }),
    {
        PixelRect { x, y, width, height }
    }

    /// No pixel.
    pub fn nowhere() -> (made: PixelRect)
        ensures
            made == (PixelRect { x: 0, y: 0, width: 0, height: 0 }),
    {
        PixelRect { x: 0, y: 0, width: 0, height: 0 }
    }

    pub fn is_empty(&self) -> (answer: bool)
        ensures
            answer == self.empty(),
            answer <==> forall|x: int, y: int| !(#[trigger] self.has(x, y)),
    {
        proof {
            if !self.empty() {
                assert(self.has(self.x as int, self.y as int));
            }
        }
        self.width == 0 || self.height == 0
    }

    /// The first column past the rectangle, where that is a machine number.
    pub fn right(&self) -> (edge: Option<u32>)
        ensures
            edge == if self.x + self.width <= u32::MAX {
                Some((self.x + self.width) as u32)
            } else {
                None::<u32>
            },
    {
        self.x.checked_add(self.width)
    }

    /// The first row past the rectangle, where that is a machine number.
    pub fn bottom(&self) -> (edge: Option<u32>)
        ensures
            edge == if self.y + self.height <= u32::MAX {
                Some((self.y + self.height) as u32)
            } else {
                None::<u32>
            },
    {
        self.y.checked_add(self.height)
    }

    /// The pixels of both rectangles; nowhere where there is none.
    pub open spec fn meet(self, other: PixelRect) -> PixelRect {
        let left = if self.x < other.x {
            other.x
        } else {
            self.x
        };
        let top = if self.y < other.y {
            other.y
        } else {
            self.y
        };
        let right = if self.x + self.width < other.x + other.width {
            self.x + self.width
        } else {
            other.x + other.width
        };
        let bottom = if self.y + self.height < other.y + other.height {
            self.y + self.height
        } else {
            other.y + other.height
        };
        if right <= left || bottom <= top {
            PixelRect { x: 0, y: 0, width: 0, height: 0 }
        } else {
            PixelRect { x: left, y: top, width: (right - left) as u32, height: (bottom - top) as u32 }
        }
    }

    /// The pixels of both rectangles.
    pub fn intersection(&self, other: &PixelRect) -> (both: PixelRect)
        ensures
            both == self.meet(*other),
            forall|x: int, y: int| #[trigger] both.has(x, y) <==> self.has(x, y) && other.has(x, y),
    {
        let left: u32 = if self.x < other.x {
            other.x
        } else {
            self.x
        };
        let top: u32 = if self.y < other.y {
            other.y
        } else {
            self.y
        };
        let (a, b): (u64, u64) = (
            self.x as u64 + self.width as u64,
            other.x as u64 + other.width as u64,
        );
        let right: u64 = if a < b {
            a
        } else {
            b
        };
        let (c, d): (u64, u64) = (
            self.y as u64 + self.height as u64,
            other.y as u64 + other.height as u64,
        );
        let bottom: u64 = if c < d {
            c
        } else {
            d
        };
        if right <= left as u64 || bottom <= top as u64 {
            PixelRect { x: 0, y: 0, width: 0, height: 0 }
        } else {
            PixelRect {
                x: left,
                y: top,
                width: (right - left as u64) as u32,
                height: (bottom - top as u64) as u32,
            }
        }
    }
}

/// A pixel is in the intersection of two rectangles exactly where it is in both.
pub proof fn meeting_is_by_pixels(a: PixelRect, b: PixelRect, x: int, y: int)
    ensures
        a.meet(b).has(x, y) <==> a.has(x, y) && b.has(x, y),
{
}

/// `left + right`, or the largest number where that is more than one.
pub open spec fn capped_sum(left: u32, right: u32) -> u32 {
    if left + right > u32::MAX {
        u32::MAX
    } else {
        (left + right) as u32
    }
}

/// `left + right`, saturating.
pub fn saturating_sum(left: u32, right: u32) -> (sum: u32)
    ensures
        sum == capped_sum(left, right),
{
    if left > 0xffff_ffff - right {
        0xffff_ffff
    } else {
        left + right
    }
}

/// `left - right`, or zero where that is less than it.
pub open spec fn floored_difference(left: u32, right: u32) -> u32 {
    if left < right {
        0
    } else {
        (left - right) as u32
    }
}

/// `left - right`, saturating.
pub fn saturating_difference(left: u32, right: u32) -> (difference: u32)
    ensures
        difference == floored_difference(left, right),
{
    if left < right {
        0
    } else {
        left - right
    }
}

/// A float rectangle rounded outward: its edges as whole numbers, and its width and height between them.
#[derive(Clone, Copy, PartialEq, Eq, Structural, Debug)]
pub struct Outward {
    pub left: i64,
    pub top: i64,
    pub right: i64,
    pub bottom: i64,
    pub width: i64,
    pub height: i64,
}

/// A whole number as a pixel coordinate: no less than none, and no more than the largest.
pub open spec fn pixel_number(value: i64) -> u32 {
    if value < 0 {
        0
    } else if value > u32::MAX {
        u32::MAX
    } else {
        value as u32
    }
}

fn to_pixel(value: i64) -> (number: u32)
    ensures
        number == pixel_number(value),
{
    if value < 0 {
        0
    } else if value > 0xffff_ffff {
        0xffff_ffff
    } else {
        value as u32
    }
}

/// The device pixels a rectangle can touch: nowhere for one that is not finite or has no pixel.
pub fn cover(rounded: Option<Outward>) -> (pixels: PixelRect)
    ensures
        pixels == match rounded {
            None => PixelRect { x: 0, y: 0, width: 0, height: 0 },
            Some(edges) => if edges.right <= edges.left || edges.bottom <= edges.top {
                PixelRect { x: 0, y: 0, width: 0, height: 0 }
            } else {
                PixelRect {
                    x: pixel_number(edges.left),
                    y: pixel_number(edges.top),
                    width: pixel_number(edges.width),
                    height: pixel_number(edges.height),
                }
            },
        },
{
    match rounded {
        None => PixelRect::nowhere(),
        Some(edges) => {
            if edges.right <= edges.left || edges.bottom <= edges.top {
                return PixelRect::nowhere();
            }
            PixelRect {
                x: to_pixel(edges.left),
                y: to_pixel(edges.top),
                width: to_pixel(edges.width),
                height: to_pixel(edges.height),
            }
        },
    }
}


/// A rectangle rounded outward covers every pixel between its edges, short of the largest coordinate, and no other
/// where its edges are pixel coordinates.
pub proof fn a_rectangle_covers_what_is_between_its_edges(edges: Outward, pixels: PixelRect, x: u32, y: u32)
    requires
        call_ensures(cover, (Some(edges),), pixels),
        edges.width == edges.right - edges.left,
        edges.height == edges.bottom - edges.top,
        x < u32::MAX,
        y < u32::MAX,
    ensures
        edges.left <= x < edges.right && edges.top <= y < edges.bottom ==> pixels.has(x as int, y as int),
        0 <= edges.left && 0 <= edges.top && edges.right <= u32::MAX && edges.bottom <= u32::MAX && pixels.has(
            x as int,
            y as int,
        ) ==> edges.left <= x < edges.right && edges.top <= y < edges.bottom,
{
}

/// A rectangle ends at the first column and the first row that are not in it.
pub proof fn a_rectangle_ends_past_its_last_pixel(area: PixelRect, right: u32, bottom: u32)
    requires
        !area.empty(),
        call_ensures(PixelRect::right, (&area,), Some(right)),
        call_ensures(PixelRect::bottom, (&area,), Some(bottom)),
    ensures
        area.has(right - 1, bottom - 1),
        forall|x: int, y: int| #[trigger] area.has(x, y) ==> x < right && y < bottom,
{
}

/// A saturating sum is the largest pixel number that is not past the sum, and a saturating difference the smallest
/// that is not before the difference.
pub proof fn saturating_is_by_number(left: u32, right: u32, other: u32)
    ensures
        capped_sum(left, right) <= left + right,
        other <= left + right ==> other <= capped_sum(left, right),
        floored_difference(left, right) >= left - right,
        other >= left - right ==> other >= floored_difference(left, right),
{
}

} // verus!
