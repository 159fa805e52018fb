# softgraphics

A software renderer for 2D and 3D drawing, and a codec for icon containers, with the logic proved in Verus.

- `src/` is the library. `soft2d` prepares a list of drawing commands, bins it into tiles, rasterises outlines,
  keeps clips, layers, filters and glyphs, and replays a tile. `soft3d` assembles and clips primitives, rasterises
  them on a subpixel grid, interprets shaders, samples textures and writes fragments. `icns` reads and writes icon
  containers. `bits` is binary32 by its bits and `grid` is row-major indexing.
- `tests/` runs the library, whole frames and single parts.
- `app/` is the renderers as an application calls them.

The library holds no floating point. A number is the bit pattern of a binary32 value, and where a step needs one
computed it says which, stops, and is called again with the answer. What is compared, ordered, clamped, rounded to
a whole number or chosen between is done on the bits, in the library.
