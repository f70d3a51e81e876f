//! Packed 32-bit pixel layouts and the channel packing that turns flat
//! 3-byte RGB data into framebuffer pixels.

use vstd::prelude::*;

verus! {

/// Channel layout of a packed 32-bit pixel.
#[derive(Debug, Clone, Copy)]
pub enum PixelFormat {
    /// `0RGB`: red in bits 16-23, green in 8-15, blue in 0-7, top byte
    /// zero.
    Zrgb,
    /// `RGBA` with the alpha stripped: the `0RGB` layout shifted left by
    /// 8 bits, bottom byte zero.
    Rgba,
}

/// The 32-bit pixel that packs the channels `(r, g, b)` in format `f`.
pub open spec fn packed_pixel(f: PixelFormat, r: u8, g: u8, b: u8) -> u32 {
    match f {
        PixelFormat::Zrgb => ((r as u32) << 16) | ((g as u32) << 8) | (b as u32),
        PixelFormat::Rgba => (((r as u32) << 16) | ((g as u32) << 8) | (b as u32)) << 8,
    }
}

/// Packs one RGB triple into a 32-bit pixel of format `f`.
pub fn pack_rgb(f: PixelFormat, r: u8, g: u8, b: u8) -> (p: u32)
    ensures
        p == packed_pixel(f, r, g, b),
{
    let base: u32 = ((r as u32) << 16) | ((g as u32) << 8) | (b as u32);
    match f {
        PixelFormat::Zrgb => base,
        PixelFormat::Rgba => base << 8,
    }
}

/// Converts a flat buffer of 3-byte RGB pixels into packed 32-bit pixels
/// of format `f`, in order.
#[verifier::loop_isolation(false)]
pub fn pack_rgb_pixels(bytes: &Vec<u8>, f: PixelFormat) -> (out: Vec<u32>)
    requires
        bytes@.len() % 3 == 0,
    ensures
        out@.len() == bytes@.len() / 3,
        forall|i: int|
            0 <= i < out@.len() ==> #[trigger] out@[i] == packed_pixel(
                f,
                bytes@[3 * i],
                bytes@[3 * i + 1],
                bytes@[3 * i + 2],
            ),
{
    let n = bytes.len() / 3;
    let mut out: Vec<u32> = Vec::new();
    let mut i: usize = 0;
    while i < n
        invariant
            i <= n,
            out@.len() == i,
            forall|j: int|
                0 <= j < i ==> #[trigger] out@[j] == packed_pixel(
                    f,
                    bytes@[3 * j],
                    bytes@[3 * j + 1],
                    bytes@[3 * j + 2],
                ),
        decreases n - i,
    {
        let p = pack_rgb(f, bytes[3 * i], bytes[3 * i + 1], bytes[3 * i + 2]);
        out.push(p);
        i = i + 1;
    }
    out
}

} // verus!
