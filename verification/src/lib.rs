//! LCD sub-pixel pixel formats for RGBA32 rendering buffers, with their
//! coverage-distribution and sRGB transfer tables.

pub mod color;
pub mod rendering_buffer;
pub mod distribution;
pub mod stripes;
pub mod lcd;
pub mod srgb;
pub mod lcd_linear;
pub mod tone_cache;
pub mod agreement;
pub mod linear_laws;
