//! Turns RGBA pixels into rows of coloured glyphs: the image is cut into
//! square blocks, every block is reduced to the nearest colour of a fixed
//! palette, and each block is drawn as one glyph.

pub mod glyph;
pub mod grid;
pub mod mosaic;
pub mod palette;
pub mod pixelate;
pub mod tiling;
