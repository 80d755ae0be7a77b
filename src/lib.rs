//! A small software rasterizer: pattern fills, hard-edged, outlined and
//! anti-aliased circles over a packed RGB pixel buffer, and a binary
//! image encoding of the result.
pub mod color;
pub mod grid;
pub mod pattern;
pub mod solid;
pub mod antialias;
pub mod hollow;
pub mod ppm;
pub mod walk;
