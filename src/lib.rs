//! Core of a raster pixel-art editor: the pixel buffer, the painting tools,
//! the screen-to-grid transform and the artwork codecs.

pub mod buffer;
pub mod tools;
pub mod fill;
pub mod codec;
pub mod transform;
pub mod png;
