use blitter::{Bitmap, Framebuffer};

fn bm_at(x: isize, y: isize) -> Bitmap {
    // 3x2 bitmap.
    Bitmap { w: 3, h: 2, x, y, pixels: vec![0; 6] }
}

fn fb_10x8() -> Framebuffer {
    Framebuffer { width: 10, height: 8, pixels: vec![0; 80] }
}

fn descriptor(x: isize, y: isize) -> (usize, usize, usize, usize, usize, usize) {
    let cr = bm_at(x, y).compute_clipping(&fb_10x8()).expect("expected a visible region");
    (cr.ux, cr.uy, cr.x_end, cr.y_end, cr.c, cr.src_pixel_skip)
}

#[test]
fn clipping_fully_inside() {
    assert_eq!(descriptor(2, 3), (2, 3, 3, 2, 0, 0));
}

#[test]
fn clipping_exactly_touching_edges_not_cropped() {
    assert_eq!(descriptor(7, 6), (7, 6, 3, 2, 0, 0));
    assert_eq!(descriptor(0, 0), (0, 0, 3, 2, 0, 0));
}

#[test]
fn clipping_off_top_only() {
    assert_eq!(descriptor(2, -1), (2, 0, 3, 1, 3, 0));
}

#[test]
fn clipping_off_top_left() {
    assert_eq!(descriptor(-1, -1), (0, 0, 2, 1, 4, 1));
}

#[test]
fn clipping_off_top_right() {
    assert_eq!(descriptor(8, -1), (8, 0, 2, 1, 3, 1));
}

#[test]
fn clipping_off_bottom_left() {
    assert_eq!(descriptor(-1, 7), (0, 7, 2, 1, 1, 1));
}

#[test]
fn clipping_off_bottom_right() {
    assert_eq!(descriptor(8, 7), (8, 7, 2, 1, 0, 1));
}

#[test]
fn clipping_off_bottom_only() {
    assert_eq!(descriptor(2, 7), (2, 7, 3, 1, 0, 0));
}

#[test]
fn clipping_off_left_only() {
    assert_eq!(descriptor(-1, 3), (0, 3, 2, 2, 1, 1));
}

#[test]
fn clipping_off_right_only() {
    assert_eq!(descriptor(8, 3), (8, 3, 2, 2, 0, 1));
}

#[test]
fn clipping_fully_outside_on_each_axis() {
    let fb = fb_10x8();
    assert!(bm_at(-3, 0).compute_clipping(&fb).is_none());
    assert!(bm_at(10, 0).compute_clipping(&fb).is_none());
    assert!(bm_at(0, -2).compute_clipping(&fb).is_none());
    assert!(bm_at(0, 8).compute_clipping(&fb).is_none());
    assert!(bm_at(-50, 3).compute_clipping(&fb).is_none());
}
