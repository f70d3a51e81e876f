//! The destination pixel buffer and its bounds-checked drawing primitives.
//!
//! Blits clip against the framebuffer (see `bitmap`); the fixed-rectangle
//! primitives here have no natural partial semantics, so they report
//! `BlitError::BlittingBeyondBoundaries` on an out-of-bounds request and
//! leave the buffer untouched.

use vstd::prelude::*;

use crate::error::BlitError;
use crate::raster::{in_rect, lemma_row_major_index_bounds, lemma_row_major_injective, pixel_at};

verus! {

/// A mutable view over `width * height` packed 32-bit pixels, row-major.
pub struct Framebuffer {
    /// Framebuffer width, in pixels.
    pub width: usize,
    /// Framebuffer height, in pixels.
    pub height: usize,
    /// 32 bits pixel data, row-major, `width * height` entries.
    pub pixels: Vec<u32>,
}

/// Every pixel of `fb1` holds `color`, and `fb1` has the same dimensions
/// and pixel count as `fb0`: what a full clear of `fb0` leaves behind.
pub open spec fn clear_post(fb0: Framebuffer, fb1: Framebuffer, color: u32) -> bool {
    &&& fb1.width == fb0.width
    &&& fb1.height == fb0.height
    &&& fb1.pixels@.len() == fb0.pixels@.len()
    &&& forall|i: int| 0 <= i < fb1.pixels@.len() ==> fb1.pixels@[i] == color
}

/// `fb1` is `fb0` with the `w` by `h` rectangle at `(x, y)` overwritten by
/// `color` and every other pixel unchanged.
pub open spec fn fill_rect_post(
    fb0: Framebuffer,
    fb1: Framebuffer,
    x: int,
    y: int,
    w: int,
    h: int,
    color: u32,
) -> bool {
    &&& fb1.width == fb0.width
    &&& fb1.height == fb0.height
    &&& fb1.pixels@.len() == fb0.pixels@.len()
    &&& forall|col: int, row: int|
        0 <= col < fb0.width && 0 <= row < fb0.height ==> #[trigger] pixel_at(
            fb1.pixels@,
            fb0.width as int,
            col,
            row,
        ) == (if in_rect(col, row, x, y, w, h) {
            color
        } else {
            pixel_at(fb0.pixels@, fb0.width as int, col, row)
        })
}

impl Framebuffer {
    /// Well-formed: positive dimensions, and exactly `width * height`
    /// pixels in the backing storage.
    pub open spec fn wf(&self) -> bool {
        &&& 0 < self.width
        &&& 0 < self.height
        &&& self.pixels@.len() == self.width * self.height
    }

    /// Complete clear of the framebuffer: every pixel becomes
    /// `clear_color`.
    #[verifier::loop_isolation(false)]
    pub fn clear(&mut self, clear_color: u32)
        requires
            old(self).wf(),
        ensures
            final(self).wf(),
            clear_post(*old(self), *final(self), clear_color),
    {
        let n = self.pixels.len();
        let mut i: usize = 0;
        while i < n
            invariant
                i <= n,
                self.width == old(self).width,
                self.height == old(self).height,
                self.pixels@.len() == n,
                forall|j: int| 0 <= j < i ==> self.pixels@[j] == clear_color,
            decreases n - i,
        {
            self.pixels.set(i, clear_color);
            i = i + 1;
        }
    }

    /// Partial clear: overwrites the `w` by `h` rectangle whose top-left
    /// corner is `(x, y)` with `clear_color`. Fails, leaving the buffer
    /// untouched, exactly when the rectangle extends past an edge.
    #[verifier::loop_isolation(false)]
    pub fn clear_area(
        &mut self,
        w: usize,
        h: usize,
        x: usize,
        y: usize,
        clear_color: u32,
    ) -> (r: Result<(), BlitError>)
        requires
            old(self).wf(),
        ensures
            final(self).wf(),
            final(self).width == old(self).width,
            final(self).height == old(self).height,
            match r {
                Ok(()) => {
                    &&& x + w <= old(self).width
                    &&& y + h <= old(self).height
                    &&& fill_rect_post(
                        *old(self),
                        *final(self),
                        x as int,
                        y as int,
                        w as int,
                        h as int,
                        clear_color,
                    )
                },
                Err(e) => {
                    &&& e == BlitError::BlittingBeyondBoundaries
                    &&& (x + w > old(self).width || y + h > old(self).height)
                    &&& *final(self) == *old(self)
                },
            },
    {
        if x > self.width || w > self.width - x || y > self.height || h > self.height - y {
            return Err(BlitError::BlittingBeyondBoundaries);
        }
        let n = self.pixels.len();
        let mut row: usize = 0;
        while row < h
            invariant
                row <= h,
                x + w <= self.width,
                y + h <= self.height,
                self.width == old(self).width,
                self.height == old(self).height,
                self.pixels@.len() == n,
                self.pixels@.len() == old(self).pixels@.len(),
                forall|col2: int, row2: int|
                    0 <= col2 < self.width && 0 <= row2 < self.height ==> #[trigger] pixel_at(
                        self.pixels@,
                        self.width as int,
                        col2,
                        row2,
                    ) == (if in_rect(col2, row2, x as int, y as int, w as int, row as int) {
                        clear_color
                    } else {
                        pixel_at(old(self).pixels@, self.width as int, col2, row2)
                    }),
            decreases h - row,
        {
            let mut col: usize = 0;
            while col < w
                invariant
                    col <= w,
                    row < h,
                    x + w <= self.width,
                    y + h <= self.height,
                    self.width == old(self).width,
                    self.height == old(self).height,
                    self.pixels@.len() == n,
                    self.pixels@.len() == old(self).pixels@.len(),
                    forall|col2: int, row2: int|
                        0 <= col2 < self.width && 0 <= row2 < self.height ==> #[trigger] pixel_at(
                            self.pixels@,
                            self.width as int,
                            col2,
                            row2,
                        ) == (if in_rect(col2, row2, x as int, y as int, w as int, row as int)
                            || (row2 == y + row && x <= col2 < x + col) {
                            clear_color
                        } else {
                            pixel_at(old(self).pixels@, self.width as int, col2, row2)
                        }),
                decreases w - col,
            {
                proof {
                    lemma_row_major_index_bounds(
                        self.width as int,
                        self.height as int,
                        (x + col) as int,
                        (y + row) as int,
                    );
                    assert(((y + row) as int) * (self.width as int) + (x + col) < n);
                }
                let idx = (y + row) * self.width + (x + col);
                let ghost prev = self.pixels@;
                self.pixels.set(idx, clear_color);
                proof {
                    assert forall|col2: int, row2: int|
                        0 <= col2 < self.width && 0 <= row2 < self.height implies #[trigger] pixel_at(
                        self.pixels@,
                        self.width as int,
                        col2,
                        row2,
                    ) == (if in_rect(col2, row2, x as int, y as int, w as int, row as int)
                        || (row2 == y + row && x <= col2 < x + col + 1) {
                        clear_color
                    } else {
                        pixel_at(old(self).pixels@, self.width as int, col2, row2)
                    }) by {
                        if row2 * self.width + col2 == idx {
                            lemma_row_major_injective(
                                self.width as int,
                                col2,
                                row2,
                                (x + col) as int,
                                (y + row) as int,
                            );
                        } else {
                            lemma_row_major_index_bounds(
                                self.width as int,
                                self.height as int,
                                col2,
                                row2,
                            );
                            assert(pixel_at(self.pixels@, self.width as int, col2, row2)
                                == pixel_at(prev, self.width as int, col2, row2));
                        }
                    }
                }
                col = col + 1;
            }
            row = row + 1;
        }
        Ok(())
    }

    /// Bounds-checked write of one pixel at `(x, y)`. Fails, leaving the
    /// buffer untouched, exactly when `(x, y)` lies outside the buffer.
    pub fn draw_pixel(&mut self, x: usize, y: usize, color: u32) -> (r: Result<(), BlitError>)
        requires
            old(self).wf(),
        ensures
            final(self).wf(),
            final(self).width == old(self).width,
            final(self).height == old(self).height,
            match r {
                Ok(()) => {
                    &&& x < old(self).width
                    &&& y < old(self).height
                    &&& final(self).pixels@ == old(self).pixels@.update(
                        y * old(self).width + x,
                        color,
                    )
                },
                Err(e) => {
                    &&& e == BlitError::BlittingBeyondBoundaries
                    &&& (x >= old(self).width || y >= old(self).height)
                    &&& *final(self) == *old(self)
                },
            },
    {
        if x >= self.width || y >= self.height {
            return Err(BlitError::BlittingBeyondBoundaries);
        }
        let n = self.pixels.len();
        proof {
            lemma_row_major_index_bounds(
                self.width as int,
                self.height as int,
                x as int,
                y as int,
            );
            assert((y as int) * (self.width as int) + x < n);
        }
        let idx = y * self.width + x;
        self.pixels.set(idx, color);
        Ok(())
    }

    /// Draws a solid `size` by `size` square ("fat pixel") whose top-left
    /// corner is `(x, y)`, by delegating to `clear_area`. Fails, leaving
    /// the buffer untouched, exactly when the square extends past an edge.
    pub fn draw_fatpixel(
        &mut self,
        x: usize,
        y: usize,
        size: usize,
        color: u32,
    ) -> (r: Result<(), BlitError>)
        requires
            old(self).wf(),
        ensures
            final(self).wf(),
            final(self).width == old(self).width,
            final(self).height == old(self).height,
            match r {
                Ok(()) => {
                    &&& x + size <= old(self).width
                    &&& y + size <= old(self).height
                    &&& fill_rect_post(
                        *old(self),
                        *final(self),
                        x as int,
                        y as int,
                        size as int,
                        size as int,
                        color,
                    )
                },
                Err(e) => {
                    &&& e == BlitError::BlittingBeyondBoundaries
                    &&& (x + size > old(self).width || y + size > old(self).height)
                    &&& *final(self) == *old(self)
                },
            },
    {
        if x > self.width || size > self.width - x || y > self.height || size > self.height - y {
            return Err(BlitError::BlittingBeyondBoundaries);
        }
        match self.clear_area(size, size, x, y, color) {
            Ok(()) => Ok(()),
            Err(e) => Err(e),
        }
    }
}

} // verus!
