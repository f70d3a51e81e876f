use blitter::pixel::pack_rgb_pixels;
use blitter::{Bitmap, BlitError, Framebuffer, PixelFormat};

fn filled_fb(width: usize, height: usize, color: u32) -> Framebuffer {
    Framebuffer { width, height, pixels: vec![color; width * height] }
}

#[test]
fn it_works() {
    assert_eq!(2 + 2, 4);
}

#[test]
fn blit_fully_inside_matches_naive_copy() {
    let src: Vec<u32> = (1..=6u32).collect();
    let bm = Bitmap { w: 3, h: 2, x: 1, y: 2, pixels: src.clone() };
    let mut fb = filled_fb(6, 5, 9);
    bm.blit(&mut fb);
    let mut expected = vec![9u32; 30];
    for sr in 0..2usize {
        for sc in 0..3usize {
            expected[(2 + sr) * 6 + (1 + sc)] = src[sr * 3 + sc];
        }
    }
    assert_eq!(fb.pixels, expected);
}

#[test]
fn blit_exactly_touching_edges_is_fully_visible() {
    let src: Vec<u32> = (1..=4u32).collect();
    let bm = Bitmap { w: 2, h: 2, x: 6, y: 3, pixels: src };
    let mut fb = filled_fb(8, 5, 0);
    bm.blit(&mut fb);
    assert_eq!(fb.pixels[3 * 8 + 6], 1);
    assert_eq!(fb.pixels[3 * 8 + 7], 2);
    assert_eq!(fb.pixels[4 * 8 + 6], 3);
    assert_eq!(fb.pixels[4 * 8 + 7], 4);
    assert_eq!(fb.pixels.iter().filter(|&&p| p != 0).count(), 4);
}

#[test]
fn blit_negative_position_writes_offset_source_pixels() {
    let src: Vec<u32> = (1..=12u32).collect();
    let bm = Bitmap { w: 4, h: 3, x: -2, y: -1, pixels: src };
    let mut fb = filled_fb(5, 4, 0);
    bm.blit(&mut fb);
    // Visible: source columns 2..4 of source rows 1..3 land at (0..2, 0..2).
    let mut expected = vec![0u32; 20];
    expected[0] = 7;
    expected[1] = 8;
    expected[5] = 11;
    expected[6] = 12;
    assert_eq!(fb.pixels, expected);
}

#[test]
fn blit_entirely_outside_leaves_framebuffer_unchanged() {
    let src = vec![1u32; 100];
    let mut fb = filled_fb(20, 10, 3);
    let before = fb.pixels.clone();

    let left = Bitmap { w: 10, h: 10, x: -50, y: 0, pixels: src.clone() };
    left.blit(&mut fb);
    assert_eq!(fb.pixels, before);

    let below = Bitmap { w: 10, h: 10, x: 0, y: 10, pixels: src.clone() };
    below.blit(&mut fb);
    assert_eq!(fb.pixels, before);

    let above = Bitmap { w: 10, h: 10, x: 0, y: -10, pixels: src.clone() };
    above.blit(&mut fb);
    assert_eq!(fb.pixels, before);

    let right = Bitmap { w: 10, h: 10, x: 20, y: 0, pixels: src };
    right.blit(&mut fb);
    assert_eq!(fb.pixels, before);
}

#[test]
fn blit_corner_clip_scenario() {
    // 10x10 framebuffer cleared to 0, 4x4 all-white bitmap at (-2, -2):
    // only the bottom-right 2x2 of the bitmap is visible, at rows 0-1,
    // cols 0-1.
    let mut fb = filled_fb(10, 10, 7);
    fb.clear(0x00000000);
    let bm = Bitmap { w: 4, h: 4, x: -2, y: -2, pixels: vec![0xFFFFFFFF; 16] };
    bm.blit(&mut fb);
    for row in 0..10usize {
        for col in 0..10usize {
            let expected = if row < 2 && col < 2 { 0xFFFFFFFF } else { 0x00000000 };
            assert_eq!(fb.pixels[row * 10 + col], expected);
        }
    }
}

#[test]
fn blit_bottom_right_corner_scenario() {
    // 8x8 framebuffer cleared to 0, 2x2 bitmap at (7, 7): only the 1x1
    // visible region remains, pixel (7,7) = first source pixel.
    let mut fb = filled_fb(8, 8, 5);
    fb.clear(0);
    let bm = Bitmap { w: 2, h: 2, x: 7, y: 7, pixels: vec![0xAA, 0xBB, 0xCC, 0xDD] };
    bm.blit(&mut fb);
    for row in 0..8usize {
        for col in 0..8usize {
            let expected = if row == 7 && col == 7 { 0xAA } else { 0 };
            assert_eq!(fb.pixels[row * 8 + col], expected);
        }
    }
}

#[test]
fn clear_then_blit_yields_background_plus_footprint() {
    let mut fb = filled_fb(6, 6, 0xDEAD);
    fb.clear(0x11);
    let src: Vec<u32> = (100..104u32).collect();
    let bm = Bitmap { w: 2, h: 2, x: 3, y: 1, pixels: src.clone() };
    bm.blit(&mut fb);
    for row in 0..6usize {
        for col in 0..6usize {
            let inside = (3..5).contains(&col) && (1..3).contains(&row);
            let expected = if inside { src[(row - 1) * 2 + (col - 3)] } else { 0x11 };
            assert_eq!(fb.pixels[row * 6 + col], expected);
        }
    }
}

#[test]
fn clear_is_idempotent() {
    let mut fb1 = filled_fb(7, 3, 0xABCD);
    fb1.clear(0x42);
    let once = fb1.pixels.clone();
    fb1.clear(0x42);
    assert_eq!(fb1.pixels, once);
}

#[test]
fn cmask_skips_exactly_the_mask_color() {
    let mask_color = 0xF0F0F0F0u32;
    let src = vec![1, mask_color, 3, mask_color];
    let bm = Bitmap { w: 2, h: 2, x: 1, y: 1, pixels: src };
    let mut fb = filled_fb(4, 4, 8);
    let r = bm.blit_cmask(&mut fb, mask_color);
    assert!(r.is_ok());
    assert_eq!(fb.pixels[1 * 4 + 1], 1);
    assert_eq!(fb.pixels[1 * 4 + 2], 8); // masked out, background kept
    assert_eq!(fb.pixels[2 * 4 + 1], 3);
    assert_eq!(fb.pixels[2 * 4 + 2], 8); // masked out, background kept
    assert!(fb.pixels.iter().all(|&p| p != mask_color));
}

#[test]
fn cmask_clips_like_plain_blit() {
    let src = vec![1u32, 2, 3, 4];
    let bm = Bitmap { w: 2, h: 2, x: -1, y: 0, pixels: src };
    let mut fb = filled_fb(3, 3, 0);
    let r = bm.blit_cmask(&mut fb, 3);
    assert!(r.is_ok());
    // Only source column 1 is visible: pixels 2 (row 0) and 4 (row 1).
    assert_eq!(fb.pixels, vec![2, 0, 0, 4, 0, 0, 0, 0, 0]);
}

#[test]
fn lmask_copies_exactly_the_true_entries() {
    let src = vec![10u32, 20, 30, 40];
    let bm = Bitmap { w: 2, h: 2, x: 0, y: 0, pixels: src };
    let mask = vec![true, false, false, true];
    let mut fb = filled_fb(2, 2, 9);
    let r = bm.blit_lmask(&mut fb, &mask);
    assert!(r.is_ok());
    assert_eq!(fb.pixels, vec![10, 9, 9, 40]);
}

#[test]
fn lmask_keeps_source_and_mask_in_lockstep_when_clipped() {
    let src = vec![10u32, 20, 30, 40];
    let bm = Bitmap { w: 2, h: 2, x: -1, y: 0, pixels: src };
    // Mask entry of each source pixel stays aligned with that pixel even
    // though the left column is clipped away.
    let mask = vec![true, true, true, false];
    let mut fb = filled_fb(2, 2, 0);
    let r = bm.blit_lmask(&mut fb, &mask);
    assert!(r.is_ok());
    // Visible source column 1: pixel 20 (mask true) and 40 (mask false).
    assert_eq!(fb.pixels, vec![20, 0, 0, 0]);
}

#[test]
fn blit_part_composites_a_sub_rectangle() {
    // 4x3 sheet; extract the middle 2x2 starting at source cell (1, 0).
    let src: Vec<u32> = (1..=12u32).collect();
    let bm = Bitmap { w: 4, h: 3, x: 1, y: 1, pixels: src };
    let mut fb = filled_fb(5, 4, 0);
    bm.blit_part(&mut fb, 1, 2, 2);
    let mut expected = vec![0u32; 20];
    expected[1 * 5 + 1] = 2;
    expected[1 * 5 + 2] = 3;
    expected[2 * 5 + 1] = 6;
    expected[2 * 5 + 2] = 7;
    assert_eq!(fb.pixels, expected);
}

#[test]
fn clear_area_fills_exactly_the_rectangle() {
    let mut fb = filled_fb(5, 4, 1);
    let r = fb.clear_area(2, 3, 1, 0, 6);
    assert!(r.is_ok());
    for row in 0..4usize {
        for col in 0..5usize {
            let inside = (1..3).contains(&col) && row < 3;
            assert_eq!(fb.pixels[row * 5 + col], if inside { 6 } else { 1 });
        }
    }
}

#[test]
fn clear_area_rejects_rectangles_past_the_edge() {
    let mut fb = filled_fb(5, 4, 1);
    let before = fb.pixels.clone();
    assert_eq!(fb.clear_area(5, 1, 1, 0, 6), Err(BlitError::BlittingBeyondBoundaries));
    assert_eq!(fb.clear_area(1, 4, 0, 1, 6), Err(BlitError::BlittingBeyondBoundaries));
    assert_eq!(fb.pixels, before);
}

#[test]
fn draw_pixel_in_and_out_of_bounds() {
    let mut fb = filled_fb(3, 2, 0);
    assert!(fb.draw_pixel(2, 1, 0x77).is_ok());
    assert_eq!(fb.pixels[1 * 3 + 2], 0x77);
    let before = fb.pixels.clone();
    assert_eq!(fb.draw_pixel(3, 0, 1), Err(BlitError::BlittingBeyondBoundaries));
    assert_eq!(fb.draw_pixel(0, 2, 1), Err(BlitError::BlittingBeyondBoundaries));
    assert_eq!(fb.pixels, before);
}

#[test]
fn draw_fatpixel_draws_a_square_or_rejects() {
    let mut fb = filled_fb(6, 6, 0);
    assert!(fb.draw_fatpixel(2, 3, 2, 0x5A).is_ok());
    for row in 0..6usize {
        for col in 0..6usize {
            let inside = (2..4).contains(&col) && (3..5).contains(&row);
            assert_eq!(fb.pixels[row * 6 + col], if inside { 0x5A } else { 0 });
        }
    }
    let before = fb.pixels.clone();
    assert_eq!(fb.draw_fatpixel(5, 0, 2, 1), Err(BlitError::BlittingBeyondBoundaries));
    assert_eq!(fb.pixels, before);
}

#[test]
fn pack_rgb_pixels_zrgb_and_rgba() {
    let bytes = vec![0x12u8, 0x34, 0x56, 0xFF, 0x00, 0x80];
    let zrgb = pack_rgb_pixels(&bytes, PixelFormat::Zrgb);
    assert_eq!(zrgb, vec![0x00123456, 0x00FF0080]);
    let rgba = pack_rgb_pixels(&bytes, PixelFormat::Rgba);
    assert_eq!(rgba, vec![0x12345600, 0xFF008000]);
}

#[test]
fn error_message_text() {
    let e = BlitError::BlittingBeyondBoundaries;
    assert_eq!(e.message(), "You are blitting outside the framebuffer !");
}
