//! Pixel-accurate collision predicates over packed masks.
//!
//! Both predicates walk a region of interest (ROI) given in shared
//! coordinates, translate it into each mask's local coordinates, and test the
//! packed words directly: a whole run of bits is compared per step, clipped
//! at word boundaries and at the ROI's horizontal extent.

use crate::bits::{lemma_bit_position, lemma_chunk_overlap, low_mask, spec_low_mask, word_bit};
use crate::grid::{lemma_row_word_in_range, AlphaChannel, MaskModel};
use vstd::prelude::*;

verus! {

/// An axis-aligned region of interest in shared coordinates: top-left corner
/// `(x, y)`, extent `w` by `h` pixels. Callers compute it as the
/// intersection of two bounding boxes, so an empty extent is legitimate.
#[derive(Clone, Copy, Debug, PartialEq, Eq, Structural)]
pub struct Roi {
    pub x: i32,
    pub y: i32,
    pub w: u32,
    pub h: u32,
}

/// Both masks carry a solid pixel at offset `(dx, dy)` from their respective
/// local anchors `(lxa, lya)` and `(lxb, lyb)`.
pub open spec fn pair_hit(
    a: MaskModel,
    lxa: int,
    lya: int,
    b: MaskModel,
    lxb: int,
    lyb: int,
    dx: int,
    dy: int,
) -> bool {
    a.bit(lxa + dx, lya + dy) && b.bit(lxb + dx, lyb + dy)
}

/// Some pixel of the ROI is solid in both masks once the ROI is translated
/// into each mask's local coordinates.
pub open spec fn masks_overlap(
    a: MaskModel,
    x_a: int,
    y_a: int,
    b: MaskModel,
    x_b: int,
    y_b: int,
    roi: Roi,
) -> bool {
    exists|dx: int, dy: int|
        0 <= dx < roi.w && 0 <= dy < roi.h && #[trigger] pair_hit(
            a,
            roi.x - x_a,
            roi.y - y_a,
            b,
            roi.x - x_b,
            roi.y - y_b,
            dx,
            dy,
        )
}

/// The mask carries a solid pixel at offset `(dx, dy)` from its local
/// anchor `(lx, ly)`.
pub open spec fn box_hit(m: MaskModel, lx: int, ly: int, dx: int, dy: int) -> bool {
    m.bit(lx + dx, ly + dy)
}

/// Some pixel of the ROI is solid in the mask once the ROI is translated
/// into the mask's local coordinates.
pub open spec fn box_overlaps(m: MaskModel, x: int, y: int, roi: Roi) -> bool {
    exists|dx: int, dy: int|
        0 <= dx < roi.w && 0 <= dy < roi.h && #[trigger] box_hit(m, roi.x - x, roi.y - y, dx, dy)
}

/// The ROI, translated by the origin `(x, y)`, lies inside a `width` by
/// `height` extent — required of collision calls whenever the ROI is
/// non-empty.
pub open spec fn roi_in_extent(roi: Roi, x: int, y: int, width: int, height: int) -> bool {
    roi.w > 0 && roi.h > 0 ==> {
        &&& x <= roi.x
        &&& roi.x - x + roi.w <= width
        &&& y <= roi.y
        &&& roi.y - y + roi.h <= height
    }
}

impl AlphaChannel {
    /// Decide whether two masks, anchored at `(x_a, y_a)` and `(x_b, y_b)` in
    /// shared coordinates, both carry a solid pixel somewhere in `roi`. The
    /// caller must have clipped `roi` to both masks' bounding boxes; an empty
    /// ROI yields `false` without touching either mask.
    #[verifier::loop_isolation(false)]
    pub fn intersect(
        channel_a: &AlphaChannel,
        x_a: i32,
        y_a: i32,
        channel_b: &AlphaChannel,
        x_b: i32,
        y_b: i32,
        roi: Roi,
    ) -> (r: bool)
        requires
            channel_a@.wf(),
            channel_b@.wf(),
            roi_in_extent(roi, x_a as int, y_a as int, channel_a@.width as int, channel_a@.height as int),
            roi_in_extent(roi, x_b as int, y_b as int, channel_b@.width as int, channel_b@.height as int),
        ensures
            r == masks_overlap(channel_a@, x_a as int, y_a as int, channel_b@, x_b as int, y_b as int, roi),
    {
        if roi.w == 0 || roi.h == 0 {
            return false;
        }
        let w: usize = roi.w as usize;
        let h: usize = roi.h as usize;
        let lxa: usize = (roi.x as i64 - x_a as i64) as usize;
        let lya: usize = (roi.y as i64 - y_a as i64) as usize;
        let lxb: usize = (roi.x as i64 - x_b as i64) as usize;
        let lyb: usize = (roi.y as i64 - y_b as i64) as usize;
        let stride_a: usize = channel_a.stride();
        let stride_b: usize = channel_b.stride();
        let ghost am = channel_a@;
        let ghost bm = channel_b@;
        proof {
            assert(lxa == roi.x - x_a && lya == roi.y - y_a);
            assert(lxb == roi.x - x_b && lyb == roi.y - y_b);
            assert(lxa + w <= am.width && lya + h <= am.height);
            assert(lxb + w <= bm.width && lyb + h <= bm.height);
        }

        let mut dy: usize = 0;
        while dy < h
            invariant
                dy <= h,
                forall|di: int, dj: int|
                    0 <= di < w && 0 <= dj < dy ==> !#[trigger] pair_hit(
                        am,
                        lxa as int,
                        lya as int,
                        bm,
                        lxb as int,
                        lyb as int,
                        di,
                        dj,
                    ),
            decreases h - dy,
        {
            proof {
                lemma_row_word_in_range(am, lxa as int, (lya + dy) as int);
                lemma_row_word_in_range(bm, lxb as int, (lyb + dy) as int);
            }
            let row_a: usize = (lya + dy) * stride_a;
            let row_b: usize = (lyb + dy) * stride_b;
            let mut dx: usize = 0;
            while dx < w
                invariant
                    dx <= w,
                    forall|di: int|
                        0 <= di < dx ==> !#[trigger] pair_hit(
                            am,
                            lxa as int,
                            lya as int,
                            bm,
                            lxb as int,
                            lyb as int,
                            di,
                            dy as int,
                        ),
                decreases w - dx,
            {
                let ba: usize = lxa + dx;
                let bb: usize = lxb + dx;
                let sa: usize = ba % 64;
                let sb: usize = bb % 64;
                let smax: usize = if sa > sb {
                    sa
                } else {
                    sb
                };
                let avail: usize = 64 - smax;
                let rem: usize = w - dx;
                let n: usize = if avail < rem {
                    avail
                } else {
                    rem
                };
                proof {
                    lemma_row_word_in_range(am, ba as int, (lya + dy) as int);
                    lemma_row_word_in_range(bm, bb as int, (lyb + dy) as int);
                }
                let wa: u64 = channel_a.word_at(row_a + ba / 64);
                let wb: u64 = channel_b.word_at(row_b + bb / 64);
                let merged: u64 = (wa >> (sa as u64)) & (wb >> (sb as u64)) & low_mask(n as u64);
                proof {
                    lemma_chunk_overlap(wa, wb, sa as u64, sb as u64, n as u64);
                }
                if merged != 0 {
                    proof {
                        let i = choose|i: u64|
                            i < n as u64 && #[trigger] word_bit(wa, ((sa as u64) + i) as u64)
                                && word_bit(wb, ((sb as u64) + i) as u64);
                        lemma_bit_position(ba as int, i as int);
                        lemma_bit_position(bb as int, i as int);
                        assert(am.bit(lxa + dx + i, (lya + dy) as int));
                        assert(bm.bit(lxb + dx + i, (lyb + dy) as int));
                        assert(pair_hit(
                            am,
                            lxa as int,
                            lya as int,
                            bm,
                            lxb as int,
                            lyb as int,
                            dx + i,
                            dy as int,
                        ));
                        assert(masks_overlap(
                            am,
                            x_a as int,
                            y_a as int,
                            bm,
                            x_b as int,
                            y_b as int,
                            roi,
                        ));
                    }
                    return true;
                }
                proof {
                    assert forall|di: int|
                        dx <= di < dx + n implies !pair_hit(
                        am,
                        lxa as int,
                        lya as int,
                        bm,
                        lxb as int,
                        lyb as int,
                        di,
                        dy as int,
                    ) by {
                        let i = di - dx;
                        lemma_bit_position(ba as int, i);
                        lemma_bit_position(bb as int, i);
                        if pair_hit(
                            am,
                            lxa as int,
                            lya as int,
                            bm,
                            lxb as int,
                            lyb as int,
                            di,
                            dy as int,
                        ) {
                            let iw = i as u64;
                            assert(iw < n as u64 && word_bit(wa, ((sa as u64) + iw) as u64)
                                && word_bit(wb, ((sb as u64) + iw) as u64));
                            assert(false);
                        }
                    }
                }
                dx = dx + n;
            }
            dy = dy + 1;
        }
        false
    }

    /// Decide whether the mask, anchored at `(x, y)` in shared coordinates,
    /// carries a solid pixel anywhere in the box `roi`. The caller must have
    /// clipped `roi` to the mask's bounding box; an empty ROI yields `false`.
    #[verifier::loop_isolation(false)]
    pub fn intersect_box(channel: &AlphaChannel, x: i32, y: i32, roi: Roi) -> (r: bool)
        requires
            channel@.wf(),
            roi_in_extent(roi, x as int, y as int, channel@.width as int, channel@.height as int),
        ensures
            r == box_overlaps(channel@, x as int, y as int, roi),
    {
        if roi.w == 0 || roi.h == 0 {
            return false;
        }
        let w: usize = roi.w as usize;
        let h: usize = roi.h as usize;
        let lx: usize = (roi.x as i64 - x as i64) as usize;
        let ly: usize = (roi.y as i64 - y as i64) as usize;
        let stride: usize = channel.stride();
        let ghost m = channel@;
        proof {
            assert(lx == roi.x - x && ly == roi.y - y);
            assert(lx + w <= m.width && ly + h <= m.height);
        }

        let mut dy: usize = 0;
        while dy < h
            invariant
                dy <= h,
                forall|di: int, dj: int|
                    0 <= di < w && 0 <= dj < dy ==> !#[trigger] box_hit(m, lx as int, ly as int, di, dj),
            decreases h - dy,
        {
            proof {
                lemma_row_word_in_range(m, lx as int, (ly + dy) as int);
            }
            let row: usize = (ly + dy) * stride;
            let mut dx: usize = 0;
            while dx < w
                invariant
                    dx <= w,
                    forall|di: int|
                        0 <= di < dx ==> !#[trigger] box_hit(m, lx as int, ly as int, di, dy as int),
                decreases w - dx,
            {
                let bx: usize = lx + dx;
                let s: usize = bx % 64;
                let avail: usize = 64 - s;
                let rem: usize = w - dx;
                let n: usize = if avail < rem {
                    avail
                } else {
                    rem
                };
                proof {
                    lemma_row_word_in_range(m, bx as int, (ly + dy) as int);
                }
                let wm: u64 = channel.word_at(row + bx / 64);
                let mask: u64 = low_mask(n as u64);
                let block: u64 = (wm >> (s as u64)) & mask;
                proof {
                    lemma_chunk_overlap(wm, wm, s as u64, s as u64, n as u64);
                    assert((wm >> (s as u64)) & (wm >> (s as u64)) & spec_low_mask(n as u64) == (wm
                        >> (s as u64)) & spec_low_mask(n as u64)) by (bit_vector);
                }
                if block != 0 {
                    proof {
                        let i = choose|i: u64|
                            i < n as u64 && #[trigger] word_bit(wm, ((s as u64) + i) as u64)
                                && word_bit(wm, ((s as u64) + i) as u64);
                        lemma_bit_position(bx as int, i as int);
                        assert(m.bit(lx + dx + i, (ly + dy) as int));
                        assert(box_hit(m, lx as int, ly as int, dx + i, dy as int));
                        assert(box_overlaps(m, x as int, y as int, roi));
                    }
                    return true;
                }
                proof {
                    assert forall|di: int|
                        dx <= di < dx + n implies !#[trigger] box_hit(
                        m,
                        lx as int,
                        ly as int,
                        di,
                        dy as int,
                    ) by {
                        let i = di - dx;
                        lemma_bit_position(bx as int, i);
                        if m.bit(lx + di, ly + dy as int) {
                            let iw = i as u64;
                            assert(iw < n as u64 && word_bit(wm, ((s as u64) + iw) as u64));
                            assert(false);
                        }
                    }
                }
                dx = dx + n;
            }
            dy = dy + 1;
        }
        false
    }
}

/// One storage word of a row in which every pixel is solid: all ones, except
/// that the last word of the row keeps its padding clear.
pub open spec fn full_row_word(width: u32, j: int) -> u64 {
    if width % 64 != 0 && j == crate::grid::words_per_row(width) - 1 {
        spec_low_mask((width % 64) as u64)
    } else {
        0xffff_ffff_ffff_ffffu64
    }
}

/// The model of a mask of the given extent in which every pixel is solid.
pub open spec fn full_model(width: u32, height: u32) -> MaskModel {
    MaskModel {
        width,
        height,
        stride: crate::grid::words_per_row(width),
        words: Seq::new(
            (crate::grid::words_per_row(width) * height) as nat,
            |i: int| full_row_word(width, i % crate::grid::words_per_row(width)),
        ),
    }
}

/// The fully solid mask carries a bit exactly at its in-range pixels.
pub proof fn lemma_full_model_bit(width: u32, height: u32)
    ensures
        forall|x: int, y: int|
            #[trigger] full_model(width, height).bit(x, y) <==> 0 <= x < width && 0 <= y < height,
{
    let m = full_model(width, height);
    let stride = crate::grid::words_per_row(width);
    assert forall|x: int, y: int|
        #[trigger] m.bit(x, y) <==> 0 <= x < width && 0 <= y < height by {
        if 0 <= x < width && 0 <= y < height {
            crate::grid::lemma_word_index_bounds(width, height, x, y);
            let idx = y * stride + x / 64;
            vstd::arithmetic::div_mod::lemma_mod_multiples_vanish(y, x / 64, stride);
            vstd::arithmetic::div_mod::lemma_small_mod((x / 64) as nat, stride as nat);
            assert(m.words[idx] == full_row_word(width, x / 64));
            let s = (x % 64) as u64;
            assert(s < 64) by {
                vstd::arithmetic::div_mod::lemma_mod_bound(x, 64);
            };
            if width % 64 != 0 && x / 64 == stride - 1 {
                let c = (width % 64) as u64;
                assert(x % 64 < width % 64) by {
                    vstd::arithmetic::div_mod::lemma_fundamental_div_mod(x, 64);
                    vstd::arithmetic::div_mod::lemma_fundamental_div_mod(width as int, 64);
                    vstd::arithmetic::div_mod::lemma_div_plus_one(width - 1, 64);
                    vstd::arithmetic::div_mod::lemma_fundamental_div_mod_converse(
                        width - 1,
                        64,
                        width as int / 64,
                        width as int % 64 - 1,
                    );
                };
                assert(word_bit(spec_low_mask(c), s)) by (bit_vector)
                    requires
                        0 < c < 64,
                        s < c,
                ;
            } else {
                assert(word_bit(0xffff_ffff_ffff_ffffu64, s)) by (bit_vector)
                    requires
                        s < 64,
                ;
                if width % 64 != 0 {
                    assert(x / 64 < stride - 1 || x / 64 == stride - 1);
                }
            }
            assert(m.bit(x, y));
        }
    }
}

/// Collision symmetry: testing mask `a` against mask `b` over a shared ROI
/// decides the same as testing `b` against `a`.
pub proof fn lemma_overlap_symmetric(
    a: MaskModel,
    x_a: int,
    y_a: int,
    b: MaskModel,
    x_b: int,
    y_b: int,
    roi: Roi,
)
    ensures
        masks_overlap(a, x_a, y_a, b, x_b, y_b, roi) == masks_overlap(b, x_b, y_b, a, x_a, y_a, roi),
{
    if masks_overlap(a, x_a, y_a, b, x_b, y_b, roi) {
        let (dx, dy) = choose|dx: int, dy: int|
            0 <= dx < roi.w && 0 <= dy < roi.h && #[trigger] pair_hit(
                a,
                roi.x - x_a,
                roi.y - y_a,
                b,
                roi.x - x_b,
                roi.y - y_b,
                dx,
                dy,
            );
        assert(pair_hit(b, roi.x - x_b, roi.y - y_b, a, roi.x - x_a, roi.y - y_a, dx, dy));
    }
    if masks_overlap(b, x_b, y_b, a, x_a, y_a, roi) {
        let (dx, dy) = choose|dx: int, dy: int|
            0 <= dx < roi.w && 0 <= dy < roi.h && #[trigger] pair_hit(
                b,
                roi.x - x_b,
                roi.y - y_b,
                a,
                roi.x - x_a,
                roi.y - y_a,
                dx,
                dy,
            );
        assert(pair_hit(a, roi.x - x_a, roi.y - y_a, b, roi.x - x_b, roi.y - y_b, dx, dy));
    }
}

/// Box-collision consistency: testing a mask against a box is the same as
/// testing it against a fully solid mask whose frame covers exactly the ROI.
pub proof fn lemma_box_consistency(m: MaskModel, x: int, y: int, roi: Roi)
    ensures
        box_overlaps(m, x, y, roi) == masks_overlap(
            m,
            x,
            y,
            full_model(roi.w, roi.h),
            roi.x as int,
            roi.y as int,
            roi,
        ),
{
    let full = full_model(roi.w, roi.h);
    lemma_full_model_bit(roi.w, roi.h);
    if box_overlaps(m, x, y, roi) {
        let (dx, dy) = choose|dx: int, dy: int|
            0 <= dx < roi.w && 0 <= dy < roi.h && #[trigger] box_hit(
                m,
                roi.x - x,
                roi.y - y,
                dx,
                dy,
            );
        assert(full.bit(roi.x - roi.x + dx, roi.y - roi.y + dy));
        assert(pair_hit(m, roi.x - x, roi.y - y, full, roi.x - roi.x, roi.y - roi.y, dx, dy));
    }
    if masks_overlap(m, x, y, full, roi.x as int, roi.y as int, roi) {
        let (dx, dy) = choose|dx: int, dy: int|
            0 <= dx < roi.w && 0 <= dy < roi.h && #[trigger] pair_hit(
                m,
                roi.x - x,
                roi.y - y,
                full,
                roi.x - roi.x,
                roi.y - roi.y,
                dx,
                dy,
            );
        assert(box_hit(m, roi.x - x, roi.y - y, dx, dy));
    }
}

} // verus!
