//! The discrete core of a software rasterizer for procedurally textured
//! planets: selector decoding, triangle assembly, triangle coverage on the
//! pixel grid, and a depth-tested framebuffer.

pub mod depth;
pub mod framebuffer;
pub mod mesh;
pub mod raster;
pub mod selector;
