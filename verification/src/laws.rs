//! The engine's laws: properties that relate the compositing passes to
//! one another, proved once and for all from the operations' contracts.

use vstd::prelude::*;

use crate::bitmap::{blit_post, cmask_post, lmask_post, Bitmap};
use crate::framebuffer::{clear_post, Framebuffer};
use crate::raster::{lemma_row_major_index_bounds, mask_at, pixel_at};

verus! {

/// For a placement fully inside the framebuffer, the clipped blit is
/// pixel-identical to a naive unclipped copy: every source pixel lands at
/// its destination cell unchanged, and every cell outside the footprint
/// keeps its old value.
pub proof fn lemma_blit_fully_inside(bm: Bitmap, fb0: Framebuffer, fb1: Framebuffer)
    requires
        blit_post(bm, fb0, fb1),
        0 <= bm.x,
        bm.x + bm.w <= fb0.width,
        0 <= bm.y,
        bm.y + bm.h <= fb0.height,
    ensures
        forall|sc: int, sr: int|
            0 <= sc < bm.w && 0 <= sr < bm.h ==> pixel_at(
                fb1.pixels@,
                fb0.width as int,
                bm.x + sc,
                bm.y + sr,
            ) == #[trigger] pixel_at(bm.pixels@, bm.w as int, sc, sr),
        forall|col: int, row: int|
            0 <= col < fb0.width && 0 <= row < fb0.height && !bm.covers(col, row)
                ==> #[trigger] pixel_at(fb1.pixels@, fb0.width as int, col, row) == pixel_at(
                fb0.pixels@,
                fb0.width as int,
                col,
                row,
            ),
{
    assert forall|sc: int, sr: int| 0 <= sc < bm.w && 0 <= sr < bm.h implies pixel_at(
        fb1.pixels@,
        fb0.width as int,
        bm.x + sc,
        bm.y + sr,
    ) == #[trigger] pixel_at(bm.pixels@, bm.w as int, sc, sr) by {
        assert(pixel_at(fb1.pixels@, fb0.width as int, bm.x + sc, bm.y + sr) == (
        if bm.covers(bm.x + sc, bm.y + sr) {
            bm.source_at(bm.x + sc, bm.y + sr)
        } else {
            pixel_at(fb0.pixels@, fb0.width as int, bm.x + sc, bm.y + sr)
        }));
    }
}

/// A blit writes only its footprint: any framebuffer cell whose value
/// changed is covered by the placed bitmap, and holds exactly the source
/// pixel that lands there.
pub proof fn lemma_blit_writes_only_footprint(bm: Bitmap, fb0: Framebuffer, fb1: Framebuffer)
    requires
        blit_post(bm, fb0, fb1),
    ensures
        forall|col: int, row: int|
            0 <= col < fb0.width && 0 <= row < fb0.height && #[trigger] pixel_at(
                fb1.pixels@,
                fb0.width as int,
                col,
                row,
            ) != pixel_at(fb0.pixels@, fb0.width as int, col, row) ==> bm.covers(col, row)
                && pixel_at(fb1.pixels@, fb0.width as int, col, row) == bm.source_at(col, row),
{
}

/// A bitmap entirely outside the framebuffer on any axis leaves the
/// framebuffer unchanged.
pub proof fn lemma_blit_fully_outside(bm: Bitmap, fb0: Framebuffer, fb1: Framebuffer)
    requires
        fb0.wf(),
        blit_post(bm, fb0, fb1),
        bm.x + bm.w <= 0 || bm.y + bm.h <= 0 || bm.x >= fb0.width || bm.y >= fb0.height,
    ensures
        fb1.pixels@ == fb0.pixels@,
        fb1.width == fb0.width,
        fb1.height == fb0.height,
{
    let fbw = fb0.width as int;
    let fbh = fb0.height as int;
    assert forall|i: int| 0 <= i < fb0.pixels@.len() implies fb1.pixels@[i] == fb0.pixels@[i] by {
        let row = i / fbw;
        let col = i % fbw;
        assert(row * fbw + col == i && 0 <= col < fbw && 0 <= row < fbh) by (nonlinear_arith)
            requires
                0 <= i < fbw * fbh,
                0 < fbw,
                0 < fbh,
                row == i / fbw,
                col == i % fbw,
        ;
        assert(pixel_at(fb1.pixels@, fbw, col, row) == (if bm.covers(col, row) {
            bm.source_at(col, row)
        } else {
            pixel_at(fb0.pixels@, fbw, col, row)
        }));
        assert(!bm.covers(col, row));
    }
    assert(fb1.pixels@ =~= fb0.pixels@);
}

/// Color-mask compositing never writes a pixel equal to the designated
/// transparent color: a cell whose value changed cannot hold the mask
/// color.
pub proof fn lemma_cmask_never_writes_mask_color(
    bm: Bitmap,
    fb0: Framebuffer,
    fb1: Framebuffer,
    mask: u32,
)
    requires
        cmask_post(bm, fb0, fb1, mask),
    ensures
        forall|col: int, row: int|
            0 <= col < fb0.width && 0 <= row < fb0.height && #[trigger] pixel_at(
                fb1.pixels@,
                fb0.width as int,
                col,
                row,
            ) != pixel_at(fb0.pixels@, fb0.width as int, col, row) ==> pixel_at(
                fb1.pixels@,
                fb0.width as int,
                col,
                row,
            ) != mask,
{
}

/// Boolean-mask compositing writes exactly the covered cells whose
/// parallel mask entry is `true`: those receive their source pixel, and a
/// cell whose value changed must be such a cell.
pub proof fn lemma_lmask_writes_exactly_masked(
    bm: Bitmap,
    fb0: Framebuffer,
    fb1: Framebuffer,
    m: Seq<bool>,
)
    requires
        lmask_post(bm, fb0, fb1, m),
    ensures
        forall|col: int, row: int|
            0 <= col < fb0.width && 0 <= row < fb0.height && bm.covers(col, row) && mask_at(
                m,
                bm.w as int,
                col - bm.x,
                row - bm.y,
            ) ==> #[trigger] pixel_at(fb1.pixels@, fb0.width as int, col, row) == bm.source_at(
                col,
                row,
            ),
        forall|col: int, row: int|
            0 <= col < fb0.width && 0 <= row < fb0.height && #[trigger] pixel_at(
                fb1.pixels@,
                fb0.width as int,
                col,
                row,
            ) != pixel_at(fb0.pixels@, fb0.width as int, col, row) ==> bm.covers(col, row)
                && mask_at(m, bm.w as int, col - bm.x, row - bm.y),
{
}

/// `clear` followed by a blit of a bitmap fully inside bounds yields the
/// background color everywhere except the bitmap's footprint, which holds
/// the source pixels exactly.
pub proof fn lemma_clear_then_blit(
    bm: Bitmap,
    fb0: Framebuffer,
    fb1: Framebuffer,
    fb2: Framebuffer,
    color: u32,
)
    requires
        fb0.wf(),
        clear_post(fb0, fb1, color),
        blit_post(bm, fb1, fb2),
        0 <= bm.x,
        bm.x + bm.w <= fb0.width,
        0 <= bm.y,
        bm.y + bm.h <= fb0.height,
    ensures
        forall|sc: int, sr: int|
            0 <= sc < bm.w && 0 <= sr < bm.h ==> pixel_at(
                fb2.pixels@,
                fb0.width as int,
                bm.x + sc,
                bm.y + sr,
            ) == #[trigger] pixel_at(bm.pixels@, bm.w as int, sc, sr),
        forall|col: int, row: int|
            0 <= col < fb0.width && 0 <= row < fb0.height && !bm.covers(col, row)
                ==> #[trigger] pixel_at(fb2.pixels@, fb0.width as int, col, row) == color,
{
    lemma_blit_fully_inside(bm, fb1, fb2);
    assert forall|col: int, row: int|
        0 <= col < fb0.width && 0 <= row < fb0.height && !bm.covers(col, row) implies #[trigger] pixel_at(
        fb2.pixels@,
        fb0.width as int,
        col,
        row,
    ) == color by {
        lemma_row_major_index_bounds(fb0.width as int, fb0.height as int, col, row);
        assert(pixel_at(fb2.pixels@, fb0.width as int, col, row) == pixel_at(
            fb1.pixels@,
            fb0.width as int,
            col,
            row,
        ));
        assert(fb1.pixels@[row * fb0.width + col] == color);
    }
}

/// Clearing twice with the same color yields the same buffer as clearing
/// once: the second clear changes nothing.
pub proof fn lemma_clear_idempotent(
    fb0: Framebuffer,
    fb1: Framebuffer,
    fb2: Framebuffer,
    color: u32,
)
    requires
        clear_post(fb0, fb1, color),
        clear_post(fb1, fb2, color),
    ensures
        fb2.width == fb1.width,
        fb2.height == fb1.height,
        fb2.pixels@ == fb1.pixels@,
{
    assert(fb2.pixels@ =~= fb1.pixels@);
}

} // verus!
