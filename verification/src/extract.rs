//! Alpha extraction: turn a decoded pixel surface into a packed mask by
//! thresholding every pixel's alpha field.

use crate::bits::{lemma_bit_position, lemma_high_bits_clear, lemma_set_bit, word_bit};
use crate::grid::{
    grid_bit, lemma_stride_bounds, lemma_word_index_bounds, words_per_row, AlphaChannel,
};
use crate::surface::{
    alpha_max, classify, format_params, spec_classify, PixelFormat, PixelSurface, SurfaceModel,
};
use vstd::prelude::*;

verus! {

/// The threshold actually applied: fully opaque when none is given.
pub open spec fn effective_threshold(threshold: Option<u8>) -> u8 {
    match threshold {
        Some(t) => t,
        None => 255,
    }
}

/// Offsets into the pixel buffer: pixel `(x, y)` occupies bytes
/// `y * pitch + x * bpp` up to (exclusive) `y * pitch + x * bpp + bpp`, all
/// inside the first `pitch * height` bytes.
proof fn lemma_pixel_offset_bounds(width: int, height: int, pitch: int, bpp: int, x: int, y: int)
    requires
        0 <= x < width,
        0 <= y < height,
        0 < bpp,
        width * bpp <= pitch,
    ensures
        0 <= y * pitch,
        0 <= x * bpp,
        y * pitch + x * bpp + bpp <= pitch * height,
{
    vstd::arithmetic::mul::lemma_mul_nonnegative(y, pitch);
    vstd::arithmetic::mul::lemma_mul_nonnegative(x, bpp);
    vstd::arithmetic::mul::lemma_mul_inequality(x + 1, width, bpp);
    vstd::arithmetic::mul::lemma_mul_is_distributive_add_other_way(bpp, x, 1);
    vstd::arithmetic::mul::lemma_mul_inequality(y + 1, height, pitch);
    vstd::arithmetic::mul::lemma_mul_is_distributive_add_other_way(pitch, y, 1);
    vstd::arithmetic::mul::lemma_mul_is_commutative(height, pitch);
}

/// Words written so far keep their packed bits when the sequence grows at
/// the end: every bit of the first `rows` full rows, and the last word of
/// each of those rows, reads the same.
proof fn lemma_prefix_rows_stable(older: Seq<u64>, newer: Seq<u64>, width: u32, rows: int)
    requires
        0 <= rows <= 0xffff_ffff,
        rows * words_per_row(width) <= older.len(),
        older.len() <= newer.len(),
        forall|i: int| 0 <= i < older.len() ==> newer[i] == older[i],
    ensures
        forall|xi: int, yi: int|
            0 <= xi < width && 0 <= yi < rows ==> #[trigger] grid_bit(
                newer,
                words_per_row(width),
                xi,
                yi,
            ) == grid_bit(older, words_per_row(width), xi, yi),
        width > 0 ==> forall|yi: int|
            0 <= yi < rows ==> #[trigger] newer[yi * words_per_row(width) + words_per_row(width)
                - 1] == older[yi * words_per_row(width) + words_per_row(width) - 1],
{
    let stride = words_per_row(width);
    assert forall|xi: int, yi: int|
        0 <= xi < width && 0 <= yi < rows implies #[trigger] grid_bit(newer, stride, xi, yi)
        == grid_bit(older, stride, xi, yi) by {
        lemma_word_index_bounds(width, rows as u32, xi, yi);
        vstd::arithmetic::mul::lemma_mul_is_commutative(stride, rows);
    }
    if width > 0 {
        assert forall|yi: int|
            0 <= yi < rows implies #[trigger] newer[yi * stride + stride - 1] == older[yi * stride
            + stride - 1] by {
            lemma_stride_bounds(width);
            lemma_word_index_bounds(width, rows as u32, width - 1, yi);
            vstd::arithmetic::mul::lemma_mul_is_commutative(stride, rows);
            assert((width - 1) as int / 64 <= stride - 1);
            assert(stride - 1 < stride);
            vstd::arithmetic::div_mod::lemma_div_pos_is_pos(width - 1, 64);
            assert(yi * stride + stride - 1 < rows * stride) by {
                vstd::arithmetic::mul::lemma_mul_inequality(yi + 1, rows, stride);
                vstd::arithmetic::mul::lemma_mul_is_distributive_add_other_way(stride, yi, 1);
            };
        }
    }
}

impl AlphaChannel {
    /// Extract a mask from a decoded surface: bit `(x, y)` is set exactly
    /// when the pixel's alpha, rescaled to the byte range, reaches the
    /// threshold (255 — fully opaque — when none is given). Returns `None`
    /// exactly when the surface's pixel-format tag names no recognized
    /// layout.
    #[verifier::loop_isolation(false)]
    pub fn from_surface(surface: &PixelSurface, threshold: Option<u8>) -> (r: Option<AlphaChannel>)
        requires
            surface@.wf(),
        ensures
            match r {
                Some(g) => {
                    &&& spec_classify(surface@.format) is Some
                    &&& g@.wf()
                    &&& g@.width == surface@.width
                    &&& g@.height == surface@.height
                    &&& forall|x: int, y: int|
                        0 <= x < surface@.width && 0 <= y < surface@.height ==> #[trigger] g@.bit(
                            x,
                            y,
                        ) == surface@.opaque_at(
                            spec_classify(surface@.format)->Some_0,
                            effective_threshold(threshold),
                            x,
                            y,
                        )
                },
                None => spec_classify(surface@.format) is None,
            },
    {
        let f: PixelFormat = match classify(surface.format_tag()) {
            Some(f) => f,
            None => {
                return None;
            },
        };
        let t: u8 = match threshold {
            Some(v) => v,
            None => 255,
        };
        let (bpp, shift, amax) = format_params(f);
        let width: u32 = surface.width();
        let height: u32 = surface.height();
        let pitch: usize = surface.pitch();
        let pixels: &Vec<u8> = surface.pixel_bytes();
        let buffer_len: usize = pixels.len();
        let ghost sm = surface@;
        proof {
            assert(buffer_len == sm.bytes.len());
        }

        let words_row: u64 = ((width as u64) + 63) / 64;
        proof {
            assert(words_row <= 0x400_0000) by {
                vstd::arithmetic::div_mod::lemma_div_is_ordered(
                    width as u64 + 63,
                    0xffff_ffffu64 + 63,
                    64,
                );
            };
            assert(words_row == words_per_row(width));
        }
        let stride: usize = words_row as usize;

        let mut data: Vec<u64> = Vec::new();
        let mut y: usize = 0;
        while y < height as usize
            invariant
                y <= height,
                data@.len() == y * stride,
                forall|xi: int, yi: int|
                    0 <= xi < width && 0 <= yi < y ==> #[trigger] grid_bit(
                        data@,
                        stride as int,
                        xi,
                        yi,
                    ) == sm.opaque_at(f, t, xi, yi),
                width % 64 != 0 ==> forall|yi: int|
                    0 <= yi < y ==> (#[trigger] data@[yi * (stride as int) + stride - 1]) >> ((
                    width % 64) as u64) == 0,
            decreases height - y,
        {
            let mut j: usize = 0;
            while j < stride
                invariant
                    j <= stride,
                    data@.len() == y * stride + j,
                    forall|xi: int, yi: int|
                        0 <= xi < width && 0 <= yi < y ==> #[trigger] grid_bit(
                            data@,
                            stride as int,
                            xi,
                            yi,
                        ) == sm.opaque_at(f, t, xi, yi),
                    width % 64 != 0 ==> forall|yi: int|
                        0 <= yi < y ==> (#[trigger] data@[yi * (stride as int) + stride - 1]) >> ((
                        width % 64) as u64) == 0,
                    forall|xi: int|
                        0 <= xi < j * 64 && xi < width ==> #[trigger] grid_bit(
                            data@,
                            stride as int,
                            xi,
                            y as int,
                        ) == sm.opaque_at(f, t, xi, y as int),
                    width % 64 != 0 && j == stride ==> (data@[(y * stride + stride - 1) as int]) >> (
                    (width % 64) as u64) == 0,
                decreases stride - j,
            {
                proof {
                    lemma_stride_bounds(width);
                    vstd::arithmetic::mul::lemma_mul_inequality(j as int, stride - 1, 64);
                }
                let base: usize = j * 64;
                let remaining: usize = width as usize - base;
                let count: usize = if remaining < 64 {
                    remaining
                } else {
                    64
                };

                let mut wword: u64 = 0;
                proof {
                    assert(0u64 >> 0u64 == 0) by (bit_vector);
                }
                let mut k: usize = 0;
                while k < count
                    invariant
                        k <= count,
                        forall|ki: u64|
                            ki < k ==> #[trigger] word_bit(wword, ki) == sm.opaque_at(
                                f,
                                t,
                                base + ki,
                                y as int,
                            ),
                        k < 64 ==> wword >> (k as u64) == 0,
                    decreases count - k,
                {
                    let x: usize = base + k;
                    proof {
                        lemma_pixel_offset_bounds(
                            width as int,
                            height as int,
                            pitch as int,
                            bpp as int,
                            x as int,
                            y as int,
                        );
                    }
                    let off: usize = y * pitch + x * bpp;
                    let v: u32 = if bpp == 2 {
                        vstd::bytes::u16_from_le_bytes(
                            vstd::slice::slice_subrange(pixels.as_slice(), off, off + 2),
                        ) as u32
                    } else {
                        vstd::bytes::u32_from_le_bytes(
                            vstd::slice::slice_subrange(pixels.as_slice(), off, off + 4),
                        )
                    };
                    proof {
                        assert(v == sm.pixel_value(f, x as int, y as int));
                    }
                    let a: u32 = (v >> shift) & amax;
                    proof {
                        vstd::arithmetic::mul::lemma_mul_upper_bound(t as int, 255, amax as int, 255);
                    }
                    let opaque: bool = (a as u64) * 255 >= (t as u64) * (amax as u64);
                    proof {
                        assert(opaque == sm.opaque_at(f, t, x as int, y as int));
                    }
                    let ghost w0 = wword;
                    let kk: u64 = k as u64;
                    if opaque {
                        wword = wword | (1u64 << kk);
                    }
                    proof {
                        if opaque {
                            lemma_set_bit(w0, kk);
                        } else {
                            lemma_high_bits_clear(w0, kk);
                        }
                        if k + 1 < 64 {
                            if opaque {
                                assert((w0 | (1u64 << kk)) >> ((kk + 1) as u64) == 0)
                                    by (bit_vector)
                                    requires
                                        kk < 63,
                                        w0 >> kk == 0,
                                ;
                            } else {
                                assert(w0 >> ((kk + 1) as u64) == 0) by (bit_vector)
                                    requires
                                        kk < 63,
                                        w0 >> kk == 0,
                                ;
                            }
                        }
                    }
                    k = k + 1;
                }
                proof {
                    if count < 64 {
                        lemma_high_bits_clear(wword, count as u64);
                    }
                }
                let ghost before = data@;
                data.push(wword);
                proof {
                    lemma_prefix_rows_stable(before, data@, width, y as int);
                    assert forall|xi: int|
                        0 <= xi < (j + 1) * 64 && xi < width implies #[trigger] grid_bit(
                        data@,
                        stride as int,
                        xi,
                        y as int,
                    ) == sm.opaque_at(f, t, xi, y as int) by {
                        lemma_word_index_bounds(width, height, xi, y as int);
                        if xi < j * 64 {
                            assert(xi / 64 < j) by {
                                vstd::arithmetic::div_mod::lemma_div_is_ordered(
                                    xi,
                                    j * 64 - 1,
                                    64,
                                );
                                vstd::arithmetic::div_mod::lemma_fundamental_div_mod_converse(
                                    j * 64 - 1,
                                    64,
                                    j - 1,
                                    63,
                                );
                            };
                            assert(grid_bit(before, stride as int, xi, y as int) == sm.opaque_at(
                                f,
                                t,
                                xi,
                                y as int,
                            ));
                            assert(data@[y * stride + xi / 64] == before[y * stride + xi / 64]);
                        } else {
                            let i = xi - j * 64;
                            lemma_bit_position(j * 64, i);
                            vstd::arithmetic::div_mod::lemma_fundamental_div_mod_converse(
                                j * 64,
                                64,
                                j as int,
                                0,
                            );
                            assert(xi / 64 == j && xi % 64 == i);
                            assert(data@[y * stride + j] == wword);
                            assert(word_bit(wword, i as u64) == sm.opaque_at(f, t, xi, y as int));
                        }
                    }
                    if width % 64 != 0 && j + 1 == stride {
                        assert(count == width % 64);
                        assert((data@[(y * stride + stride - 1) as int]) >> ((width % 64) as u64)
                            == 0);
                    }
                }
                j = j + 1;
            }
            proof {
                vstd::arithmetic::mul::lemma_mul_is_distributive_add_other_way(stride as int, y as int, 1);
                assert forall|xi: int, yi: int|
                    0 <= xi < width && 0 <= yi < y + 1 implies #[trigger] grid_bit(
                    data@,
                    stride as int,
                    xi,
                    yi,
                ) == sm.opaque_at(f, t, xi, yi) by {
                    if yi == y as int {
                        lemma_stride_bounds(width);
                        assert(xi < stride * 64) by {
                            vstd::arithmetic::mul::lemma_mul_is_commutative(stride as int, 64);
                        };
                        assert(grid_bit(data@, stride as int, xi, y as int) == sm.opaque_at(
                            f,
                            t,
                            xi,
                            y as int,
                        ));
                    }
                }
            }
            y = y + 1;
        }
        proof {
            vstd::arithmetic::mul::lemma_mul_is_commutative(height as int, stride as int);
        }
        let grid = AlphaChannel::from_parts(data, stride, width, height);
        proof {
            assert(grid@.wf());
        }
        Some(grid)
    }
}

/// Raising the alpha threshold never marks more pixels solid: every pixel
/// that passes a high threshold also passes any lower one.
pub proof fn lemma_threshold_monotone(s: SurfaceModel, f: PixelFormat, t_lo: u8, t_hi: u8)
    requires
        t_lo <= t_hi,
    ensures
        forall|x: int, y: int| #[trigger] s.opaque_at(f, t_hi, x, y) ==> s.opaque_at(f, t_lo, x, y),
{
    assert forall|x: int, y: int|
        #[trigger] s.opaque_at(f, t_hi, x, y) implies s.opaque_at(f, t_lo, x, y) by {
        vstd::arithmetic::mul::lemma_mul_inequality(t_lo as int, t_hi as int, alpha_max(f) as int);
    }
}

} // verus!
