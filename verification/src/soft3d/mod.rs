//! The 3D renderer: primitives are assembled, clipped, binned and covered on a subpixel grid, shaders are
//! interpreted, textures are addressed and fragments are tested, blended and resolved.
pub mod arithmetic;
pub mod attach;
pub mod clip;
pub mod error;
pub mod execute;
pub mod fixed;
pub mod frame;
pub mod geometry;
pub mod interpreter;
pub mod mips;
pub mod pass;
pub mod raster;
pub mod shade;
pub mod shader;
pub mod state;
pub mod texture;
pub mod value;
