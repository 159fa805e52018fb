//! A software graphics stack without floating point: a 2D renderer that replays drawing commands tile by tile, a
//! 3D renderer that assembles, rasterises and shades primitives, and a codec for icon containers. Numbers are the
//! bits of binary32 values. What only arithmetic on them can give is asked of the caller, and everything decided
//! from the answers is decided here.
pub mod bits;
pub mod grid;
pub mod icns;
pub mod soft2d;
pub mod soft3d;
