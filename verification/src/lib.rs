//! In-memory raster compositing: copying rectangular pixel blocks
//! ("bitmaps") onto a larger pixel buffer (a "framebuffer") at arbitrary,
//! possibly off-buffer, signed positions, with optional transparency
//! masking, plus a few bounds-checked drawing primitives.
//!
//! Every placement is clipped against the framebuffer: only the visible
//! sub-rectangle is written, and a bitmap entirely outside the buffer is a
//! no-op. The non-blit primitives (`clear_area`, `draw_pixel`,
//! `draw_fatpixel`) instead report an error on an out-of-bounds request.

pub mod bitmap;
pub mod error;
pub mod framebuffer;
pub mod laws;
pub mod pixel;
pub mod raster;

pub use bitmap::Bitmap;
pub use error::BlitError;
pub use framebuffer::Framebuffer;
pub use pixel::PixelFormat;
