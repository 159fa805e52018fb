//! The 2D renderer: a command list is checked and binned into tiles, and a tile is replayed through clips, layers,
//! filters, glyphs, paints and the area rasteriser.
pub mod area;
pub mod backend;
pub mod clip;
pub mod cover;
pub mod error;
pub mod filter;
pub mod geom;
pub mod glyph;
pub mod layer;
pub mod paint;
pub mod prepared;
pub mod raster;
pub mod reach;
pub mod replay;
pub mod span;
pub mod stroke;
pub mod target;
pub mod tile;
