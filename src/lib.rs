//! Exact integer core of a small interactive ray tracer: the 4x4 ordered
//! dithering matrix, the re-expansion of low-bit-depth quantization levels to
//! 8-bit channels, the layout of RGB pixels in a strided frame buffer (whole
//! frame at once, or one scanline at a time for parallel workers), and the
//! pause / quit decisions of the frame loop.

pub mod dither;
pub mod driver;
pub mod framebuffer;
pub mod quantize;
