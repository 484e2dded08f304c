//! Rasterization of segments and triangles into a pixel buffer.
pub mod line;
pub mod triangle;

pub use line::draw_line;
pub use triangle::draw_triangle;
