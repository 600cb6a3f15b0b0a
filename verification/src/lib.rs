//! A small 2D rasterizer: polygons (optionally with a hole) are filled and
//! outlined into an in-memory pixel surface, which can then be serialized as
//! an uncompressed bitmap image.

pub mod bmp;
pub mod colors;
pub mod framebuffer;
pub mod line;
pub mod vertex;
