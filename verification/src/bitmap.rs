//! Bitmaps and the blit/clipping engine.
//!
//! A bitmap is a rectangular block of source pixels with a mutable signed
//! placement `(x, y)`; the placement may put it partially or fully outside
//! the framebuffer. Every compositing pass first intersects the placed
//! footprint `[x, x + w) x [y, y + h)` with the framebuffer rectangle
//! `[0, width) x [0, height)` and then writes only the visible
//! sub-rectangle, so a blit never fails: a bitmap entirely off-buffer is a
//! no-op. A bitmap that exactly touches an edge (`x + w == width`) is
//! fully visible, not clipped.
//!
//! The masked passes keep the source cursor and the mask test in lockstep:
//! the source pixel considered for a destination cell is always the one at
//! the same position of the source rectangle, whether or not its neighbours
//! were skipped.

use vstd::prelude::*;

use crate::error::BlitError;
use crate::framebuffer::Framebuffer;
use crate::raster::{
    in_rect, lemma_row_major_index_bounds, lemma_row_major_injective, mask_at, pixel_at,
};

verus! {

/// A rectangular block of `w * h` packed 32-bit source pixels, row-major,
/// placed at the signed framebuffer position `(x, y)`.
pub struct Bitmap {
    /// Bitmap width, in pixels.
    pub w: usize,
    /// Bitmap height, in pixels.
    pub h: usize,
    /// Bitmap horizontal position; may be negative.
    pub x: isize,
    /// Bitmap vertical position; may be negative.
    pub y: isize,
    /// 32 bits pixel data, row-major, `w * h` entries.
    pub pixels: Vec<u32>,
}

/// The clipped-copy descriptor: which sub-rectangle of the source is
/// visible, where it lands in the framebuffer, and how to walk the source
/// pixels.
pub struct ClippedCoords {
    /// Non-negative framebuffer column of the top-left visible pixel.
    pub ux: usize,
    /// Non-negative framebuffer row of the top-left visible pixel.
    pub uy: usize,
    /// Width of the visible portion, in pixels.
    pub x_end: usize,
    /// Height of the visible portion, in pixels.
    pub y_end: usize,
    /// Index into the source pixel array of the first visible pixel.
    pub c: usize,
    /// Source pixels to advance past at the end of each visible row to
    /// reach the start of the next one.
    pub src_pixel_skip: usize,
}

impl Bitmap {
    /// Well-formed: positive dimensions, and exactly `w * h` pixels in the
    /// backing storage.
    pub open spec fn wf(&self) -> bool {
        &&& 0 < self.w
        &&& 0 < self.h
        &&& self.pixels@.len() == self.w * self.h
    }

    /// Does the placed footprint of the bitmap cover the framebuffer cell
    /// `(col, row)`?
    pub open spec fn covers(&self, col: int, row: int) -> bool {
        in_rect(col, row, self.x as int, self.y as int, self.w as int, self.h as int)
    }

    /// The source pixel that lands on the covered framebuffer cell
    /// `(col, row)`.
    pub open spec fn source_at(&self, col: int, row: int) -> u32 {
        pixel_at(self.pixels@, self.w as int, col - self.x, row - self.y)
    }

    /// Leftmost framebuffer column of the visible portion.
    pub open spec fn visible_x0(&self) -> int {
        if self.x >= 0 {
            self.x as int
        } else {
            0
        }
    }

    /// Topmost framebuffer row of the visible portion.
    pub open spec fn visible_y0(&self) -> int {
        if self.y >= 0 {
            self.y as int
        } else {
            0
        }
    }

    /// One past the rightmost framebuffer column of the visible portion.
    pub open spec fn visible_x1(&self, fb_width: int) -> int {
        if self.x + self.w <= fb_width {
            self.x + self.w
        } else {
            fb_width
        }
    }

    /// One past the bottommost framebuffer row of the visible portion.
    pub open spec fn visible_y1(&self, fb_height: int) -> int {
        if self.y + self.h <= fb_height {
            self.y + self.h
        } else {
            fb_height
        }
    }

    /// Is any part of the placed bitmap visible in a framebuffer of the
    /// given dimensions?
    pub open spec fn has_visible(&self, fb_width: int, fb_height: int) -> bool {
        &&& self.visible_x0() < self.visible_x1(fb_width)
        &&& self.visible_y0() < self.visible_y1(fb_height)
    }
}

/// `fb1` is `fb0` with every framebuffer cell covered by the placed bitmap
/// overwritten by the corresponding source pixel, and every other pixel
/// unchanged.
pub open spec fn blit_post(bm: Bitmap, fb0: Framebuffer, fb1: Framebuffer) -> bool {
    &&& fb1.width == fb0.width
    &&& fb1.height == fb0.height
    &&& fb1.pixels@.len() == fb0.pixels@.len()
    &&& forall|col: int, row: int|
        0 <= col < fb0.width && 0 <= row < fb0.height ==> #[trigger] pixel_at(
            fb1.pixels@,
            fb0.width as int,
            col,
            row,
        ) == (if bm.covers(col, row) {
            bm.source_at(col, row)
        } else {
            pixel_at(fb0.pixels@, fb0.width as int, col, row)
        })
}

/// `fb1` is `fb0` with every covered cell whose source pixel differs from
/// the transparent color `mask` overwritten by that source pixel; cells
/// whose source pixel equals `mask`, and all uncovered cells, are
/// unchanged.
pub open spec fn cmask_post(bm: Bitmap, fb0: Framebuffer, fb1: Framebuffer, mask: u32) -> bool {
    &&& fb1.width == fb0.width
    &&& fb1.height == fb0.height
    &&& fb1.pixels@.len() == fb0.pixels@.len()
    &&& forall|col: int, row: int|
        0 <= col < fb0.width && 0 <= row < fb0.height ==> #[trigger] pixel_at(
            fb1.pixels@,
            fb0.width as int,
            col,
            row,
        ) == (if bm.covers(col, row) && bm.source_at(col, row) != mask {
            bm.source_at(col, row)
        } else {
            pixel_at(fb0.pixels@, fb0.width as int, col, row)
        })
}

/// `fb1` is `fb0` with every covered cell whose parallel mask entry is
/// `true` overwritten by the corresponding source pixel, and every other
/// cell unchanged. Mask entries correspond to source pixels one to one, in
/// row-major order.
pub open spec fn lmask_post(
    bm: Bitmap,
    fb0: Framebuffer,
    fb1: Framebuffer,
    mask: Seq<bool>,
) -> bool {
    &&& fb1.width == fb0.width
    &&& fb1.height == fb0.height
    &&& fb1.pixels@.len() == fb0.pixels@.len()
    &&& forall|col: int, row: int|
        0 <= col < fb0.width && 0 <= row < fb0.height ==> #[trigger] pixel_at(
            fb1.pixels@,
            fb0.width as int,
            col,
            row,
        ) == (if bm.covers(col, row) && mask_at(mask, bm.w as int, col - bm.x, row - bm.y) {
            bm.source_at(col, row)
        } else {
            pixel_at(fb0.pixels@, fb0.width as int, col, row)
        })
}

/// `fb1` is `fb0` with the `w` by `h` sub-rectangle of `bm`'s source
/// pixels that starts at flat source index `start_offset` composited at
/// `bm`'s position, clipped like a plain blit, and every other pixel
/// unchanged.
pub open spec fn blit_part_post(
    bm: Bitmap,
    fb0: Framebuffer,
    fb1: Framebuffer,
    start_offset: int,
    w: int,
    h: int,
) -> bool {
    &&& fb1.width == fb0.width
    &&& fb1.height == fb0.height
    &&& fb1.pixels@.len() == fb0.pixels@.len()
    &&& forall|col: int, row: int|
        0 <= col < fb0.width && 0 <= row < fb0.height ==> #[trigger] pixel_at(
            fb1.pixels@,
            fb0.width as int,
            col,
            row,
        ) == (if in_rect(col, row, bm.x as int, bm.y as int, w, h) {
            bm.pixels@[start_offset + (row - bm.y) * bm.w + (col - bm.x)]
        } else {
            pixel_at(fb0.pixels@, fb0.width as int, col, row)
        })
}

/// The framebuffer cells already visited by a compositing pass that has
/// finished `rows` full visible rows plus `cols` cells of the next one.
spec fn region_done(bm: Bitmap, rows: int, cols: int, col: int, row: int) -> bool {
    ||| row < bm.visible_y0() + rows
    ||| (row == bm.visible_y0() + rows && col < bm.visible_x0() + cols)
}

impl Bitmap {
    /// Intersects the placed footprint with the framebuffer rectangle.
    /// Returns `None` exactly when nothing is visible; otherwise the
    /// clipped-copy descriptor for the visible sub-rectangle.
    pub fn compute_clipping(&self, fb: &Framebuffer) -> (r: Option<ClippedCoords>)
        requires
            self.wf(),
            fb.wf(),
        ensures
            match r {
                None => !self.has_visible(fb.width as int, fb.height as int),
                Some(cr) => {
                    &&& self.has_visible(fb.width as int, fb.height as int)
                    &&& cr.ux == self.visible_x0()
                    &&& cr.uy == self.visible_y0()
                    &&& cr.x_end == self.visible_x1(fb.width as int) - self.visible_x0()
                    &&& cr.y_end == self.visible_y1(fb.height as int) - self.visible_y0()
                    &&& cr.c == (self.visible_y0() - self.y) * self.w + (self.visible_x0()
                        - self.x)
                    &&& cr.src_pixel_skip == self.w - cr.x_end
                },
            },
    {
        // Clamp the placement to non-negative framebuffer coordinates.
        let ux: usize = if self.x >= 0 {
            self.x as usize
        } else {
            0
        };
        let uy: usize = if self.y >= 0 {
            self.y as usize
        } else {
            0
        };
        if ux >= fb.width || uy >= fb.height {
            // Off the right or bottom edge entirely.
            return None;
        }
        // How many source columns and rows the clamp cropped away.
        let cropped_x: usize = if self.x < 0 {
            ((-1 - self.x) as usize) + 1
        } else {
            0
        };
        let cropped_y: usize = if self.y < 0 {
            ((-1 - self.y) as usize) + 1
        } else {
            0
        };
        if cropped_x >= self.w || cropped_y >= self.h {
            // Off the left or top edge entirely.
            return None;
        }
        let rem_w = self.w - cropped_x;
        let rem_h = self.h - cropped_y;
        let avail_w = fb.width - ux;
        let avail_h = fb.height - uy;
        let x_end = if rem_w < avail_w {
            rem_w
        } else {
            avail_w
        };
        let y_end = if rem_h < avail_h {
            rem_h
        } else {
            avail_h
        };
        let n = self.pixels.len();
        proof {
            lemma_row_major_index_bounds(
                self.w as int,
                self.h as int,
                cropped_x as int,
                cropped_y as int,
            );
            assert((cropped_y as int) * (self.w as int) + cropped_x < n);
        }
        let c = cropped_y * self.w + cropped_x;
        Some(
            ClippedCoords {
                ux,
                uy,
                x_end,
                y_end,
                c,
                src_pixel_skip: self.w - x_end,
            },
        )
    }

    /// Copies the bitmap to the framebuffer at its current position,
    /// clipped to the visible sub-rectangle.
    #[verifier::loop_isolation(false)]
    pub fn blit(&self, fb: &mut Framebuffer)
        requires
            self.wf(),
            old(fb).wf(),
        ensures
            final(fb).wf(),
            blit_post(*self, *old(fb), *final(fb)),
    {
        let cr = match self.compute_clipping(fb) {
            Some(cr) => cr,
            None => {
                return ;
            },
        };
        let ghost fbw = fb.width as int;
        let ghost fbh = fb.height as int;
        let n_src = self.pixels.len();
        let n_dst = fb.pixels.len();
        let mut cy: usize = 0;
        while cy < cr.y_end
            invariant
                cy <= cr.y_end,
                fb.width == old(fb).width,
                fb.height == old(fb).height,
                fb.pixels@.len() == n_dst,
                fb.pixels@.len() == old(fb).pixels@.len(),
                forall|col: int, row: int|
                    0 <= col < fbw && 0 <= row < fbh ==> #[trigger] pixel_at(
                        fb.pixels@,
                        fbw,
                        col,
                        row,
                    ) == (if self.covers(col, row) && region_done(*self, cy as int, 0, col, row) {
                        self.source_at(col, row)
                    } else {
                        pixel_at(old(fb).pixels@, fbw, col, row)
                    }),
            decreases cr.y_end - cy,
        {
            proof {
                assert(((cr.c + cy * self.w) as int) == ((self.visible_y0() - self.y) + cy)
                    * self.w + (self.visible_x0() - self.x)) by (nonlinear_arith)
                    requires
                        cr.c == (self.visible_y0() - self.y) * self.w + (self.visible_x0()
                            - self.x),
                ;
                lemma_row_major_index_bounds(
                    self.w as int,
                    self.h as int,
                    self.visible_x0() - self.x,
                    (self.visible_y0() - self.y) + cy,
                );
                assert(cr.c + cy * (self.w as int) < n_src);
            }
            let mut c: usize = cr.c + cy * self.w;
            let mut cx: usize = 0;
            while cx < cr.x_end
                invariant
                    cx <= cr.x_end,
                    cy < cr.y_end,
                    c == cr.c + cy * self.w + cx,
                    fb.width == old(fb).width,
                    fb.height == old(fb).height,
                    fb.pixels@.len() == n_dst,
                    fb.pixels@.len() == old(fb).pixels@.len(),
                    forall|col: int, row: int|
                        0 <= col < fbw && 0 <= row < fbh ==> #[trigger] pixel_at(
                            fb.pixels@,
                            fbw,
                            col,
                            row,
                        ) == (if self.covers(col, row) && region_done(
                            *self,
                            cy as int,
                            cx as int,
                            col,
                            row,
                        ) {
                            self.source_at(col, row)
                        } else {
                            pixel_at(old(fb).pixels@, fbw, col, row)
                        }),
                decreases cr.x_end - cx,
            {
                let ghost scol = self.visible_x0() - self.x + cx;
                let ghost srow = self.visible_y0() - self.y + cy;
                proof {
                    assert(c as int == srow * self.w + scol) by (nonlinear_arith)
                        requires
                            c == cr.c + cy * self.w + cx,
                            cr.c == (self.visible_y0() - self.y) * self.w + (self.visible_x0()
                                - self.x),
                            scol == self.visible_x0() - self.x + cx,
                            srow == self.visible_y0() - self.y + cy,
                    ;
                    lemma_row_major_index_bounds(self.w as int, self.h as int, scol, srow);
                    assert(c < n_src);
                    lemma_row_major_index_bounds(
                        fbw,
                        fbh,
                        (cr.ux + cx) as int,
                        (cr.uy + cy) as int,
                    );
                    assert(((cr.uy + cy) as int) * fbw + (cr.ux + cx) < n_dst);
                }
                let v = self.pixels[c];
                let idx = (cr.uy + cy) * fb.width + (cr.ux + cx);
                let ghost prev = fb.pixels@;
                fb.pixels.set(idx, v);
                proof {
                    assert forall|col: int, row: int|
                        0 <= col < fbw && 0 <= row < fbh implies #[trigger] pixel_at(
                        fb.pixels@,
                        fbw,
                        col,
                        row,
                    ) == (if self.covers(col, row) && region_done(
                        *self,
                        cy as int,
                        cx + 1 as int,
                        col,
                        row,
                    ) {
                        self.source_at(col, row)
                    } else {
                        pixel_at(old(fb).pixels@, fbw, col, row)
                    }) by {
                        lemma_row_major_index_bounds(fbw, fbh, col, row);
                        if row * fbw + col == idx {
                            lemma_row_major_injective(
                                fbw,
                                col,
                                row,
                                (cr.ux + cx) as int,
                                (cr.uy + cy) as int,
                            );
                            assert(self.source_at(col, row) == self.pixels@[srow * self.w + scol]);
                        } else {
                            assert(pixel_at(fb.pixels@, fbw, col, row) == pixel_at(
                                prev,
                                fbw,
                                col,
                                row,
                            ));
                        }
                    }
                }
                c = c + 1;
                cx = cx + 1;
            }
            cy = cy + 1;
        }
    }

    /// Copies a `w` by `h` portion of the bitmap, starting at flat source
    /// index `start_offset`, to the framebuffer at the bitmap's position,
    /// clipped like a plain blit. The portion is staged into a temporary
    /// buffer and composited as a full bitmap of its own.
    #[verifier::loop_isolation(false)]
    pub fn blit_part(&self, fb: &mut Framebuffer, start_offset: usize, w: usize, h: usize)
        requires
            self.wf(),
            old(fb).wf(),
            0 < w <= self.w,
            0 < h,
            start_offset + (h - 1) * self.w + w <= self.pixels@.len(),
        ensures
            final(fb).wf(),
            blit_part_post(*self, *old(fb), *final(fb), start_offset as int, w as int, h as int),
    {
        let n_src = self.pixels.len();
        // Stage the requested sub-rectangle into a temporary buffer.
        let mut t_pixels: Vec<u32> = Vec::new();
        let mut sy: usize = 0;
        while sy < h
            invariant
                sy <= h,
                t_pixels@.len() == sy * w,
                forall|j: int, i: int|
                    0 <= j < sy && 0 <= i < w ==> #[trigger] pixel_at(t_pixels@, w as int, i, j)
                        == self.pixels@[start_offset + j * self.w + i],
            decreases h - sy,
        {
            let ghost t_len0 = t_pixels@.len() as int;
            proof {
                assert((sy as int) * self.w + w <= ((h - 1) as int) * self.w + w)
                    by (nonlinear_arith)
                    requires
                        sy + 1 <= h,
                        0 <= self.w,
                ;
            }
            let row_base = start_offset + sy * self.w;
            let mut sx: usize = 0;
            while sx < w
                invariant
                    sx <= w,
                    sy < h,
                    row_base == start_offset + sy * self.w,
                    row_base + w <= n_src,
                    t_pixels@.len() == sy * w + sx,
                    forall|j: int, i: int|
                        0 <= j < sy && 0 <= i < w ==> #[trigger] pixel_at(t_pixels@, w as int, i, j)
                            == self.pixels@[start_offset + j * self.w + i],
                    forall|i: int|
                        0 <= i < sx ==> #[trigger] t_pixels@[(sy as int) * w + i]
                            == self.pixels@[start_offset + (sy as int) * self.w + i],
                decreases w - sx,
            {
                let v = self.pixels[row_base + sx];
                let ghost t_prev = t_pixels@;
                t_pixels.push(v);
                proof {
                    assert forall|j: int, i: int|
                        0 <= j < sy && 0 <= i < w implies #[trigger] pixel_at(
                        t_pixels@,
                        w as int,
                        i,
                        j,
                    ) == self.pixels@[start_offset + j * self.w + i] by {
                        lemma_row_major_index_bounds(w as int, sy as int, i, j);
                        assert((j * w + i) < sy * w) by (nonlinear_arith)
                            requires
                                0 <= i < w,
                                0 <= j < sy,
                        ;
                        assert(t_pixels@[j * w + i] == t_prev[j * w + i]);
                        assert(pixel_at(t_prev, w as int, i, j) == self.pixels@[start_offset + j
                            * self.w + i]);
                    }
                    assert forall|i: int| 0 <= i < sx + 1 implies #[trigger] t_pixels@[(sy as int)
                        * w + i] == self.pixels@[start_offset + (sy as int) * self.w + i] by {
                        if i < sx {
                            assert(t_prev[(sy as int) * w + i] == self.pixels@[start_offset + (
                            sy as int) * self.w + i]);
                        } else {
                            assert((sy as int) * w + i == t_prev.len());
                        }
                    }
                }
                sx = sx + 1;
            }
            proof {
                assert((sy + 1 as int) * w == sy as int * w + w) by (nonlinear_arith);
            }
            sy = sy + 1;
        }
        // Composite the staged portion as a full bitmap of its own.
        let t = Bitmap { x: self.x, y: self.y, w, h, pixels: t_pixels };
        proof {
            assert(t.wf()) by {
                assert(t.pixels@.len() == (h as int) * w);
                assert((h as int) * w == (w as int) * h) by (nonlinear_arith);
            }
        }
        t.blit(fb);
        proof {
            assert forall|col: int, row: int|
                0 <= col < old(fb).width && 0 <= row < old(fb).height implies #[trigger] pixel_at(
                fb.pixels@,
                old(fb).width as int,
                col,
                row,
            ) == (if in_rect(col, row, self.x as int, self.y as int, w as int, h as int) {
                self.pixels@[start_offset + (row - self.y) * self.w + (col - self.x)]
            } else {
                pixel_at(old(fb).pixels@, old(fb).width as int, col, row)
            }) by {
                if t.covers(col, row) {
                    lemma_row_major_index_bounds(w as int, h as int, col - self.x, row - self.y);
                    assert(t.source_at(col, row) == pixel_at(
                        t.pixels@,
                        w as int,
                        col - self.x,
                        row - self.y,
                    ));
                }
            }
        }
    }

    /// Copies the bitmap to the framebuffer, treating source pixels equal
    /// to `mask` as transparent. Clips like a plain blit and always
    /// succeeds.
    #[verifier::loop_isolation(false)]
    pub fn blit_cmask(&self, fb: &mut Framebuffer, mask: u32) -> (r: Result<(), BlitError>)
        requires
            self.wf(),
            old(fb).wf(),
        ensures
            final(fb).wf(),
            r is Ok,
            cmask_post(*self, *old(fb), *final(fb), mask),
    {
        let cr = match self.compute_clipping(fb) {
            Some(cr) => cr,
            None => {
                return Ok(());
            },
        };
        let ghost fbw = fb.width as int;
        let ghost fbh = fb.height as int;
        let n_src = self.pixels.len();
        let n_dst = fb.pixels.len();
        let mut cy: usize = 0;
        while cy < cr.y_end
            invariant
                cy <= cr.y_end,
                fb.width == old(fb).width,
                fb.height == old(fb).height,
                fb.pixels@.len() == n_dst,
                fb.pixels@.len() == old(fb).pixels@.len(),
                forall|col: int, row: int|
                    0 <= col < fbw && 0 <= row < fbh ==> #[trigger] pixel_at(
                        fb.pixels@,
                        fbw,
                        col,
                        row,
                    ) == (if self.covers(col, row) && region_done(*self, cy as int, 0, col, row)
                        && self.source_at(col, row) != mask {
                        self.source_at(col, row)
                    } else {
                        pixel_at(old(fb).pixels@, fbw, col, row)
                    }),
            decreases cr.y_end - cy,
        {
            proof {
                assert(((cr.c + cy * self.w) as int) == ((self.visible_y0() - self.y) + cy)
                    * self.w + (self.visible_x0() - self.x)) by (nonlinear_arith)
                    requires
                        cr.c == (self.visible_y0() - self.y) * self.w + (self.visible_x0()
                            - self.x),
                ;
                lemma_row_major_index_bounds(
                    self.w as int,
                    self.h as int,
                    self.visible_x0() - self.x,
                    (self.visible_y0() - self.y) + cy,
                );
                assert(cr.c + cy * (self.w as int) < n_src);
            }
            let mut c: usize = cr.c + cy * self.w;
            let mut cx: usize = 0;
            while cx < cr.x_end
                invariant
                    cx <= cr.x_end,
                    cy < cr.y_end,
                    c == cr.c + cy * self.w + cx,
                    fb.width == old(fb).width,
                    fb.height == old(fb).height,
                    fb.pixels@.len() == n_dst,
                    fb.pixels@.len() == old(fb).pixels@.len(),
                    forall|col: int, row: int|
                        0 <= col < fbw && 0 <= row < fbh ==> #[trigger] pixel_at(
                            fb.pixels@,
                            fbw,
                            col,
                            row,
                        ) == (if self.covers(col, row) && region_done(
                            *self,
                            cy as int,
                            cx as int,
                            col,
                            row,
                        ) && self.source_at(col, row) != mask {
                            self.source_at(col, row)
                        } else {
                            pixel_at(old(fb).pixels@, fbw, col, row)
                        }),
                decreases cr.x_end - cx,
            {
                let ghost scol = self.visible_x0() - self.x + cx;
                let ghost srow = self.visible_y0() - self.y + cy;
                proof {
                    assert(c as int == srow * self.w + scol) by (nonlinear_arith)
                        requires
                            c == cr.c + cy * self.w + cx,
                            cr.c == (self.visible_y0() - self.y) * self.w + (self.visible_x0()
                                - self.x),
                            scol == self.visible_x0() - self.x + cx,
                            srow == self.visible_y0() - self.y + cy,
                    ;
                    lemma_row_major_index_bounds(self.w as int, self.h as int, scol, srow);
                    assert(c < n_src);
                    lemma_row_major_index_bounds(
                        fbw,
                        fbh,
                        (cr.ux + cx) as int,
                        (cr.uy + cy) as int,
                    );
                    assert(((cr.uy + cy) as int) * fbw + (cr.ux + cx) < n_dst);
                }
                let v = self.pixels[c];
                let ghost prev = fb.pixels@;
                if v != mask {
                    let idx = (cr.uy + cy) * fb.width + (cr.ux + cx);
                    fb.pixels.set(idx, v);
                }
                proof {
                    assert forall|col: int, row: int|
                        0 <= col < fbw && 0 <= row < fbh implies #[trigger] pixel_at(
                        fb.pixels@,
                        fbw,
                        col,
                        row,
                    ) == (if self.covers(col, row) && region_done(
                        *self,
                        cy as int,
                        cx + 1 as int,
                        col,
                        row,
                    ) && self.source_at(col, row) != mask {
                        self.source_at(col, row)
                    } else {
                        pixel_at(old(fb).pixels@, fbw, col, row)
                    }) by {
                        lemma_row_major_index_bounds(fbw, fbh, col, row);
                        if row * fbw + col == ((cr.uy + cy) as int) * fbw + ((cr.ux + cx) as int) {
                            lemma_row_major_injective(
                                fbw,
                                col,
                                row,
                                (cr.ux + cx) as int,
                                (cr.uy + cy) as int,
                            );
                            assert(self.source_at(col, row) == self.pixels@[srow * self.w + scol]);
                            assert(pixel_at(prev, fbw, col, row) == pixel_at(
                                old(fb).pixels@,
                                fbw,
                                col,
                                row,
                            ));
                        } else {
                            assert(pixel_at(fb.pixels@, fbw, col, row) == pixel_at(
                                prev,
                                fbw,
                                col,
                                row,
                            ));
                        }
                    }
                }
                c = c + 1;
                cx = cx + 1;
            }
            cy = cy + 1;
        }
        Ok(())
    }

    /// Copies the bitmap to the framebuffer under a per-pixel boolean
    /// mask: a source pixel is copied only where its parallel mask entry
    /// is `true`. Clips like a plain blit and always succeeds.
    #[verifier::loop_isolation(false)]
    pub fn blit_lmask(&self, fb: &mut Framebuffer, mask: &Vec<bool>) -> (r: Result<
        (),
        BlitError,
    >)
        requires
            self.wf(),
            old(fb).wf(),
            mask@.len() == self.w * self.h,
        ensures
            final(fb).wf(),
            r is Ok,
            lmask_post(*self, *old(fb), *final(fb), mask@),
    {
        let cr = match self.compute_clipping(fb) {
            Some(cr) => cr,
            None => {
                return Ok(());
            },
        };
        let ghost fbw = fb.width as int;
        let ghost fbh = fb.height as int;
        let n_src = self.pixels.len();
        let n_dst = fb.pixels.len();
        let mut cy: usize = 0;
        while cy < cr.y_end
            invariant
                cy <= cr.y_end,
                fb.width == old(fb).width,
                fb.height == old(fb).height,
                fb.pixels@.len() == n_dst,
                fb.pixels@.len() == old(fb).pixels@.len(),
                forall|col: int, row: int|
                    0 <= col < fbw && 0 <= row < fbh ==> #[trigger] pixel_at(
                        fb.pixels@,
                        fbw,
                        col,
                        row,
                    ) == (if self.covers(col, row) && region_done(*self, cy as int, 0, col, row)
                        && mask_at(mask@, self.w as int, col - self.x, row - self.y) {
                        self.source_at(col, row)
                    } else {
                        pixel_at(old(fb).pixels@, fbw, col, row)
                    }),
            decreases cr.y_end - cy,
        {
            proof {
                assert(((cr.c + cy * self.w) as int) == ((self.visible_y0() - self.y) + cy)
                    * self.w + (self.visible_x0() - self.x)) by (nonlinear_arith)
                    requires
                        cr.c == (self.visible_y0() - self.y) * self.w + (self.visible_x0()
                            - self.x),
                ;
                lemma_row_major_index_bounds(
                    self.w as int,
                    self.h as int,
                    self.visible_x0() - self.x,
                    (self.visible_y0() - self.y) + cy,
                );
                assert(cr.c + cy * (self.w as int) < n_src);
            }
            let mut c: usize = cr.c + cy * self.w;
            let mut cx: usize = 0;
            while cx < cr.x_end
                invariant
                    cx <= cr.x_end,
                    cy < cr.y_end,
                    c == cr.c + cy * self.w + cx,
                    fb.width == old(fb).width,
                    fb.height == old(fb).height,
                    fb.pixels@.len() == n_dst,
                    fb.pixels@.len() == old(fb).pixels@.len(),
                    forall|col: int, row: int|
                        0 <= col < fbw && 0 <= row < fbh ==> #[trigger] pixel_at(
                            fb.pixels@,
                            fbw,
                            col,
                            row,
                        ) == (if self.covers(col, row) && region_done(
                            *self,
                            cy as int,
                            cx as int,
                            col,
                            row,
                        ) && mask_at(mask@, self.w as int, col - self.x, row - self.y) {
                            self.source_at(col, row)
                        } else {
                            pixel_at(old(fb).pixels@, fbw, col, row)
                        }),
                decreases cr.x_end - cx,
            {
                let ghost scol = self.visible_x0() - self.x + cx;
                let ghost srow = self.visible_y0() - self.y + cy;
                proof {
                    assert(c as int == srow * self.w + scol) by (nonlinear_arith)
                        requires
                            c == cr.c + cy * self.w + cx,
                            cr.c == (self.visible_y0() - self.y) * self.w + (self.visible_x0()
                                - self.x),
                            scol == self.visible_x0() - self.x + cx,
                            srow == self.visible_y0() - self.y + cy,
                    ;
                    lemma_row_major_index_bounds(self.w as int, self.h as int, scol, srow);
                    assert(c < n_src);
                    lemma_row_major_index_bounds(
                        fbw,
                        fbh,
                        (cr.ux + cx) as int,
                        (cr.uy + cy) as int,
                    );
                    assert(((cr.uy + cy) as int) * fbw + (cr.ux + cx) < n_dst);
                }
                let keep = mask[c];
                let ghost prev = fb.pixels@;
                if keep {
                    let v = self.pixels[c];
                    let idx = (cr.uy + cy) * fb.width + (cr.ux + cx);
                    fb.pixels.set(idx, v);
                }
                proof {
                    assert forall|col: int, row: int|
                        0 <= col < fbw && 0 <= row < fbh implies #[trigger] pixel_at(
                        fb.pixels@,
                        fbw,
                        col,
                        row,
                    ) == (if self.covers(col, row) && region_done(
                        *self,
                        cy as int,
                        cx + 1 as int,
                        col,
                        row,
                    ) && mask_at(mask@, self.w as int, col - self.x, row - self.y) {
                        self.source_at(col, row)
                    } else {
                        pixel_at(old(fb).pixels@, fbw, col, row)
                    }) by {
                        lemma_row_major_index_bounds(fbw, fbh, col, row);
                        if row * fbw + col == ((cr.uy + cy) as int) * fbw + ((cr.ux + cx) as int) {
                            lemma_row_major_injective(
                                fbw,
                                col,
                                row,
                                (cr.ux + cx) as int,
                                (cr.uy + cy) as int,
                            );
                            assert(self.source_at(col, row) == self.pixels@[srow * self.w + scol]);
                            assert(mask_at(mask@, self.w as int, col - self.x, row - self.y)
                                == mask@[srow * self.w + scol]);
                            assert(pixel_at(prev, fbw, col, row) == pixel_at(
                                old(fb).pixels@,
                                fbw,
                                col,
                                row,
                            ));
                        } else {
                            assert(pixel_at(fb.pixels@, fbw, col, row) == pixel_at(
                                prev,
                                fbw,
                                col,
                                row,
                            ));
                        }
                    }
                }
                c = c + 1;
                cx = cx + 1;
            }
            cy = cy + 1;
        }
        Ok(())
    }
}

} // verus!
