//! A software rasterizer: pixel buffers and their run-length encoded file
//! format, segment and triangle rasterization, and indexed triangle meshes.
pub mod math;
pub mod mesh;
pub mod obj;
pub mod renderer;
pub mod tgaimage;
