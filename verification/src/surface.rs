//! A decoded pixel surface, as much of it as alpha extraction reads: the
//! dimensions, the row pitch, the packed pixel bytes, and the pixel-format
//! tag that selects how the alpha field sits inside a pixel.

use crate::grid::words_per_row;
use vstd::prelude::*;

verus! {

// The recognized packed-format tags, with each pixel's alpha field reachable
// by a shift and a mask. The values are SDL's `SDL_PIXELFORMAT_*` constants.
pub const FORMAT_ARGB4444: u32 = 0x1532_1002;

pub const FORMAT_RGBA4444: u32 = 0x1542_1002;

pub const FORMAT_ABGR4444: u32 = 0x1572_1002;

pub const FORMAT_BGRA4444: u32 = 0x1582_1002;

pub const FORMAT_ARGB1555: u32 = 0x1533_1002;

pub const FORMAT_RGBA5551: u32 = 0x1544_1002;

pub const FORMAT_ABGR1555: u32 = 0x1573_1002;

pub const FORMAT_BGRA5551: u32 = 0x1584_1002;

pub const FORMAT_ARGB8888: u32 = 0x1636_2004;

pub const FORMAT_RGBA8888: u32 = 0x1646_2004;

pub const FORMAT_ABGR8888: u32 = 0x1676_2004;

pub const FORMAT_BGRA8888: u32 = 0x1686_2004;

pub const FORMAT_ARGB2101010: u32 = 0x1637_2004;

/// The packed pixel layouts whose alpha field the extractor knows how to
/// reach. Each variant fixes the pixel size, the position of the alpha
/// field, and the field's largest value.
#[derive(Clone, Copy, Debug, PartialEq, Eq, Structural)]
pub enum PixelFormat {
    Argb4444,
    Rgba4444,
    Abgr4444,
    Bgra4444,
    Argb1555,
    Rgba5551,
    Abgr1555,
    Bgra5551,
    Argb8888,
    Rgba8888,
    Abgr8888,
    Bgra8888,
    Argb2101010,
}

/// Which recognized layout, if any, a format tag names.
pub open spec fn spec_classify(tag: u32) -> Option<PixelFormat> {
    if tag == FORMAT_ARGB4444 {
        Some(PixelFormat::Argb4444)
    } else if tag == FORMAT_RGBA4444 {
        Some(PixelFormat::Rgba4444)
    } else if tag == FORMAT_ABGR4444 {
        Some(PixelFormat::Abgr4444)
    } else if tag == FORMAT_BGRA4444 {
        Some(PixelFormat::Bgra4444)
    } else if tag == FORMAT_ARGB1555 {
        Some(PixelFormat::Argb1555)
    } else if tag == FORMAT_RGBA5551 {
        Some(PixelFormat::Rgba5551)
    } else if tag == FORMAT_ABGR1555 {
        Some(PixelFormat::Abgr1555)
    } else if tag == FORMAT_BGRA5551 {
        Some(PixelFormat::Bgra5551)
    } else if tag == FORMAT_ARGB8888 {
        Some(PixelFormat::Argb8888)
    } else if tag == FORMAT_RGBA8888 {
        Some(PixelFormat::Rgba8888)
    } else if tag == FORMAT_ABGR8888 {
        Some(PixelFormat::Abgr8888)
    } else if tag == FORMAT_BGRA8888 {
        Some(PixelFormat::Bgra8888)
    } else if tag == FORMAT_ARGB2101010 {
        Some(PixelFormat::Argb2101010)
    } else {
        None
    }
}

/// Map a format tag to its recognized layout, or `None` for any other tag.
pub fn classify(tag: u32) -> (r: Option<PixelFormat>)
    ensures
        r == spec_classify(tag),
{
    if tag == FORMAT_ARGB4444 {
        Some(PixelFormat::Argb4444)
    } else if tag == FORMAT_RGBA4444 {
        Some(PixelFormat::Rgba4444)
    } else if tag == FORMAT_ABGR4444 {
        Some(PixelFormat::Abgr4444)
    } else if tag == FORMAT_BGRA4444 {
        Some(PixelFormat::Bgra4444)
    } else if tag == FORMAT_ARGB1555 {
        Some(PixelFormat::Argb1555)
    } else if tag == FORMAT_RGBA5551 {
        Some(PixelFormat::Rgba5551)
    } else if tag == FORMAT_ABGR1555 {
        Some(PixelFormat::Abgr1555)
    } else if tag == FORMAT_BGRA5551 {
        Some(PixelFormat::Bgra5551)
    } else if tag == FORMAT_ARGB8888 {
        Some(PixelFormat::Argb8888)
    } else if tag == FORMAT_RGBA8888 {
        Some(PixelFormat::Rgba8888)
    } else if tag == FORMAT_ABGR8888 {
        Some(PixelFormat::Abgr8888)
    } else if tag == FORMAT_BGRA8888 {
        Some(PixelFormat::Bgra8888)
    } else if tag == FORMAT_ARGB2101010 {
        Some(PixelFormat::Argb2101010)
    } else {
        None
    }
}

/// Bytes that one pixel occupies in the given layout.
pub open spec fn bytes_per_pixel(f: PixelFormat) -> int {
    match f {
        PixelFormat::Argb4444 => 2,
        PixelFormat::Rgba4444 => 2,
        PixelFormat::Abgr4444 => 2,
        PixelFormat::Bgra4444 => 2,
        PixelFormat::Argb1555 => 2,
        PixelFormat::Rgba5551 => 2,
        PixelFormat::Abgr1555 => 2,
        PixelFormat::Bgra5551 => 2,
        PixelFormat::Argb8888 => 4,
        PixelFormat::Rgba8888 => 4,
        PixelFormat::Abgr8888 => 4,
        PixelFormat::Bgra8888 => 4,
        PixelFormat::Argb2101010 => 4,
    }
}

/// How far the alpha field sits from the least significant bit of a packed
/// pixel value.
pub open spec fn alpha_shift(f: PixelFormat) -> u32 {
    match f {
        PixelFormat::Argb4444 => 12,
        PixelFormat::Rgba4444 => 0,
        PixelFormat::Abgr4444 => 12,
        PixelFormat::Bgra4444 => 0,
        PixelFormat::Argb1555 => 15,
        PixelFormat::Rgba5551 => 0,
        PixelFormat::Abgr1555 => 15,
        PixelFormat::Bgra5551 => 0,
        PixelFormat::Argb8888 => 24,
        PixelFormat::Rgba8888 => 0,
        PixelFormat::Abgr8888 => 24,
        PixelFormat::Bgra8888 => 0,
        PixelFormat::Argb2101010 => 30,
    }
}

/// Largest value of the alpha field: a fully opaque pixel.
pub open spec fn alpha_max(f: PixelFormat) -> u32 {
    match f {
        PixelFormat::Argb4444 => 15,
        PixelFormat::Rgba4444 => 15,
        PixelFormat::Abgr4444 => 15,
        PixelFormat::Bgra4444 => 15,
        PixelFormat::Argb1555 => 1,
        PixelFormat::Rgba5551 => 1,
        PixelFormat::Abgr1555 => 1,
        PixelFormat::Bgra5551 => 1,
        PixelFormat::Argb8888 => 255,
        PixelFormat::Rgba8888 => 255,
        PixelFormat::Abgr8888 => 255,
        PixelFormat::Bgra8888 => 255,
        PixelFormat::Argb2101010 => 3,
    }
}

/// Pixel size, alpha shift and alpha maximum of a layout, for executable
/// code.
pub fn format_params(f: PixelFormat) -> (r: (usize, u32, u32))
    ensures
        r.0 == bytes_per_pixel(f),
        r.1 == alpha_shift(f),
        r.1 < 32,
        r.2 == alpha_max(f),
        r.2 <= 255,
{
    match f {
        PixelFormat::Argb4444 => (2, 12, 15),
        PixelFormat::Rgba4444 => (2, 0, 15),
        PixelFormat::Abgr4444 => (2, 12, 15),
        PixelFormat::Bgra4444 => (2, 0, 15),
        PixelFormat::Argb1555 => (2, 15, 1),
        PixelFormat::Rgba5551 => (2, 0, 1),
        PixelFormat::Abgr1555 => (2, 15, 1),
        PixelFormat::Bgra5551 => (2, 0, 1),
        PixelFormat::Argb8888 => (4, 24, 255),
        PixelFormat::Rgba8888 => (4, 0, 255),
        PixelFormat::Abgr8888 => (4, 24, 255),
        PixelFormat::Bgra8888 => (4, 0, 255),
        PixelFormat::Argb2101010 => (4, 30, 3),
    }
}

/// The mathematical content of a [`PixelSurface`].
#[verifier::ext_equal]
pub struct SurfaceModel {
    pub width: u32,
    pub height: u32,
    pub pitch: int,
    pub format: u32,
    pub bytes: Seq<u8>,
}

impl SurfaceModel {
    /// A usable surface: the byte buffer covers `pitch` bytes per row, a
    /// recognized layout fits its pixels inside the pitch, and a mask of the
    /// surface's extent will fit in an encodable buffer.
    pub open spec fn wf(self) -> bool {
        &&& self.bytes.len() == self.pitch * self.height
        &&& (spec_classify(self.format) matches Some(f) ==> self.pitch >= self.width
            * bytes_per_pixel(f))
        &&& 8 * (words_per_row(self.width) * self.height) + 32 <= usize::MAX
    }

    /// The packed value of pixel `(x, y)`: two or four bytes, little-endian.
    pub open spec fn pixel_value(self, f: PixelFormat, x: int, y: int) -> u32 {
        let off = y * self.pitch + x * bytes_per_pixel(f);
        if bytes_per_pixel(f) == 2 {
            vstd::bytes::spec_u16_from_le_bytes(self.bytes.subrange(off, off + 2)) as u32
        } else {
            vstd::bytes::spec_u32_from_le_bytes(self.bytes.subrange(off, off + 4))
        }
    }

    /// The alpha field of pixel `(x, y)`, still on the layout's own scale
    /// `0 ..= alpha_max(f)`.
    pub open spec fn alpha_at(self, f: PixelFormat, x: int, y: int) -> u32 {
        (self.pixel_value(f, x, y) >> alpha_shift(f)) & alpha_max(f)
    }

    /// Whether pixel `(x, y)` counts as solid under byte threshold `t`: its
    /// alpha, rescaled to the byte range, reaches `t`. A threshold of 255
    /// accepts only fully opaque pixels; a threshold of 0 accepts every
    /// pixel.
    pub open spec fn opaque_at(self, f: PixelFormat, t: u8, x: int, y: int) -> bool {
        self.alpha_at(f, x, y) * 255 >= t * alpha_max(f)
    }
}

/// A decoded pixel surface: `width` by `height` pixels, each row `pitch`
/// bytes apart in the packed `pixels` buffer, with `format` naming the
/// layout of a pixel. Built through [`PixelSurface::new`], which validates
/// the geometry once, so that extraction never reads out of bounds.
#[derive(Clone, Debug)]
pub struct PixelSurface {
    width: u32,
    height: u32,
    pitch: usize,
    format: u32,
    pixels: Vec<u8>,
}

impl View for PixelSurface {
    type V = SurfaceModel;

    closed spec fn view(&self) -> SurfaceModel {
        SurfaceModel {
            width: self.width,
            height: self.height,
            pitch: self.pitch as int,
            format: self.format,
            bytes: self.pixels@,
        }
    }
}

impl PixelSurface {
    /// Wrap a decoded pixel buffer. Returns the surface when the geometry is
    /// consistent — the buffer holds exactly `pitch * height` bytes, a
    /// recognized format's row fits in `pitch`, and a mask of this extent
    /// would fit in memory — and `None` otherwise.
    pub fn new(width: u32, height: u32, pitch: usize, format: u32, pixels: Vec<u8>) -> (r: Option<
        PixelSurface,
    >)
        ensures
            ({
                let m = SurfaceModel {
                    width,
                    height,
                    pitch: pitch as int,
                    format,
                    bytes: pixels@,
                };
                match r {
                    Some(s) => s@ == m && m.wf(),
                    None => !m.wf(),
                }
            }),
    {
        let buffer_len = pixels.len();
        let rows = match pitch.checked_mul(height as usize) {
            Some(v) => v,
            None => {
                return None;
            },
        };
        if buffer_len != rows {
            return None;
        }
        if let Some(f) = classify(format) {
            let (bpp, _, _) = format_params(f);
            proof {
                assert(bpp <= 4);
                vstd::arithmetic::mul::lemma_mul_upper_bound(
                    width as int,
                    0xffff_ffff,
                    bpp as int,
                    4,
                );
            }
            if (pitch as u64) < (width as u64) * (bpp as u64) {
                return None;
            }
        }
        let words: u64 = ((width as u64) + 63) / 64;
        let row_bytes: u64 = 8 * words;
        proof {
            assert(words <= 0x400_0000) by {
                vstd::arithmetic::div_mod::lemma_div_is_ordered(
                    width as u64 + 63,
                    0xffff_ffffu64 + 63,
                    64,
                );
            };
            vstd::arithmetic::mul::lemma_mul_inequality(words as int, 0x400_0000, 8);
            vstd::arithmetic::mul::lemma_mul_is_commutative(words as int, 8);
            vstd::arithmetic::mul::lemma_mul_upper_bound(
                row_bytes as int,
                0x2000_0000,
                height as int,
                0xffff_ffff,
            );
        }
        let mask_bytes: u64 = row_bytes * (height as u64);
        if mask_bytes > (usize::MAX as u64) - 32 {
            proof {
                vstd::arithmetic::mul::lemma_mul_is_associative(
                    8,
                    words as int,
                    height as int,
                );
            }
            return None;
        }
        proof {
            vstd::arithmetic::mul::lemma_mul_is_associative(8, words as int, height as int);
        }
        Some(PixelSurface { width, height, pitch, format, pixels })
    }

    /// Width in pixels.
    pub fn width(&self) -> (r: u32)
        ensures
            r == self@.width,
    {
        self.width
    }

    /// Height in pixels.
    pub fn height(&self) -> (r: u32)
        ensures
            r == self@.height,
    {
        self.height
    }

    /// Bytes per row.
    pub fn pitch(&self) -> (r: usize)
        ensures
            r == self@.pitch,
    {
        self.pitch
    }

    /// The raw pixel-format tag.
    pub fn format_tag(&self) -> (r: u32)
        ensures
            r == self@.format,
    {
        self.format
    }

    /// The packed pixel bytes.
    pub fn pixel_bytes(&self) -> (r: &Vec<u8>)
        ensures
            r@ == self@.bytes,
    {
        &self.pixels
    }
}

} // verus!
