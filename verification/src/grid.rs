//! The packed boolean grid that records which pixels of a frame are solid.

use crate::bits::word_bit;
use vstd::prelude::*;

verus! {

/// Number of mask bits that one storage word holds.
pub const WORD_BITS: u32 = 64;

/// Number of storage words needed for one row of `width` bits.
pub open spec fn words_per_row(width: u32) -> int {
    (width + 63) / 64
}

/// The mathematical content of an [`AlphaChannel`]: its pixel dimensions,
/// its row stride in words, and the packed words themselves.
#[verifier::ext_equal]
pub struct MaskModel {
    pub width: u32,
    pub height: u32,
    pub stride: int,
    pub words: Seq<u64>,
}

/// The packed-word lookup behind [`MaskModel::bit`], over a bare word
/// sequence and stride: the bit of column `x` in row `y`.
pub open spec fn grid_bit(words: Seq<u64>, stride: int, x: int, y: int) -> bool {
    word_bit(words[y * stride + x / 64], (x % 64) as u64)
}

impl MaskModel {
    /// Bit `(x, y)` sits in word `y * stride + x / 64` at bit index `x % 64`.
    /// Out-of-range coordinates carry no bit.
    pub open spec fn bit(self, x: int, y: int) -> bool {
        &&& 0 <= x < self.width
        &&& 0 <= y < self.height
        &&& grid_bit(self.words, self.stride, x, y)
    }

    /// In every row, the bits of the last word that lie at or beyond `width`
    /// are clear.
    pub open spec fn padding_clear(self) -> bool {
        self.width % 64 != 0 ==> forall|y: int|
            0 <= y < self.height ==> (#[trigger] self.words[y * self.stride + self.stride
                - 1]) >> ((self.width % 64) as u64) == 0
    }

    /// A well-formed mask: the stride covers exactly the width, the word
    /// sequence covers exactly the rows, the mask fits in an encodable byte
    /// buffer, and the row padding is clear.
    pub open spec fn wf(self) -> bool {
        &&& self.stride == words_per_row(self.width)
        &&& self.words.len() == self.stride * self.height
        &&& 8 * self.words.len() + 32 <= usize::MAX
        &&& self.padding_clear()
    }
}

/// A dense bitmap with one bit per pixel, packed into 64-bit words row by
/// row. Row stride is `ceil(width / 64)` words; the bits of a row beyond
/// `width` are always zero. A mask never changes once built, so frames that
/// share one spritesheet may share one mask.
#[derive(Clone, Debug)]
pub struct AlphaChannel {
    data: Vec<u64>,
    stride: usize,
    height: u32,
    width: u32,
}

impl View for AlphaChannel {
    type V = MaskModel;

    closed spec fn view(&self) -> MaskModel {
        MaskModel {
            width: self.width,
            height: self.height,
            stride: self.stride as int,
            words: self.data@,
        }
    }
}

impl AlphaChannel {
    /// Assemble a mask from already-packed words. Callers are responsible
    /// for packing `data` as the resulting model claims.
    pub(crate) fn from_parts(data: Vec<u64>, stride: usize, width: u32, height: u32) -> (r:
        AlphaChannel)
        ensures
            r@ == (MaskModel { width, height, stride: stride as int, words: data@ }),
    {
        AlphaChannel { data, stride, height, width }
    }

    /// Words per row.
    pub fn stride(&self) -> (r: usize)
        ensures
            r == self@.stride,
    {
        self.stride
    }

    /// Width in pixels.
    pub fn width(&self) -> (r: u32)
        ensures
            r == self@.width,
    {
        self.width
    }

    /// Height in pixels.
    pub fn height(&self) -> (r: u32)
        ensures
            r == self@.height,
    {
        self.height
    }

    /// Width and height in pixels.
    pub fn size(&self) -> (r: (u32, u32))
        ensures
            r.0 == self@.width,
            r.1 == self@.height,
    {
        (self.width, self.height)
    }

    /// Number of storage words over all rows.
    pub fn word_count(&self) -> (r: usize)
        ensures
            r == self@.words.len(),
    {
        self.data.len()
    }

    /// The raw storage word at `word_index`; bounds-checked only against the
    /// word sequence. The collision predicates read masks through this.
    pub fn word_at(&self, word_index: usize) -> (r: u64)
        requires
            word_index < self@.words.len(),
        ensures
            r == self@.words[word_index as int],
    {
        self.data[word_index]
    }

    /// Read the bit of pixel `(x, y)`.
    pub fn get(&self, x: u32, y: u32) -> (r: bool)
        requires
            self@.wf(),
            x < self@.width,
            y < self@.height,
        ensures
            r == self@.bit(x as int, y as int),
    {
        proof {
            lemma_row_word_in_range(self@, x as int, y as int);
        }
        let wi = y as usize * self.stride + (x / 64) as usize;
        let w = self.data[wi];
        (w >> ((x % 64) as u64)) & 1 == 1
    }
}

/// Pure arithmetic behind word addressing: for a pixel `(x, y)` of a `width`
/// by `height` grid, the word index `y * stride + x / 64` lies inside the
/// `stride * height` words, with the whole row fitting too.
pub proof fn lemma_word_index_bounds(width: u32, height: u32, x: int, y: int)
    requires
        0 <= x < width,
        0 <= y < height,
    ensures
        0 <= y * words_per_row(width),
        y * words_per_row(width) + words_per_row(width) <= words_per_row(width) * height,
        0 <= x / 64 < words_per_row(width),
        y * words_per_row(width) + x / 64 < words_per_row(width) * height,
{
    let stride = words_per_row(width);
    vstd::arithmetic::mul::lemma_mul_inequality(y + 1, height as int, stride);
    vstd::arithmetic::mul::lemma_mul_is_commutative(y + 1, stride);
    vstd::arithmetic::mul::lemma_mul_is_commutative(height as int, stride);
    vstd::arithmetic::mul::lemma_mul_is_distributive_add(stride, y, 1);
    vstd::arithmetic::mul::lemma_mul_is_commutative(y, stride);
    assert(y * stride + stride <= stride * height);
    vstd::arithmetic::mul::lemma_mul_nonnegative(y, stride);
    assert(x / 64 < stride) by {
        vstd::arithmetic::div_mod::lemma_div_is_ordered(x, width - 1, 64);
        vstd::arithmetic::div_mod::lemma_div_plus_one(width - 1, 64);
        assert(1 + (width - 1) / 64 == words_per_row(width));
        vstd::arithmetic::div_mod::lemma_div_pos_is_pos(x, 64);
    };
}

/// How the last word of a row relates to the width: the row needs its last
/// word for at least one bit, and the bits it needs of it are `width % 64`,
/// or all 64 when the width is a whole number of words.
pub proof fn lemma_stride_bounds(width: u32)
    requires
        width > 0,
    ensures
        1 <= words_per_row(width),
        (words_per_row(width) - 1) * 64 < width,
        width <= words_per_row(width) * 64,
        width % 64 != 0 ==> width - (words_per_row(width) - 1) * 64 == width % 64,
        width % 64 == 0 ==> width - (words_per_row(width) - 1) * 64 == 64,
{
    let q = width as int / 64;
    let r = width as int % 64;
    vstd::arithmetic::div_mod::lemma_fundamental_div_mod(width as int, 64);
    if r == 0 {
        vstd::arithmetic::div_mod::lemma_fundamental_div_mod_converse(width + 63, 64, q, 63);
    } else {
        vstd::arithmetic::div_mod::lemma_fundamental_div_mod_converse(width + 63, 64, q + 1, r - 1);
    }
}

/// The word holding bit `(x, y)` of a well-formed mask lies inside the word
/// sequence, and the whole row before it fits too.
pub proof fn lemma_row_word_in_range(m: MaskModel, x: int, y: int)
    requires
        m.wf(),
        0 <= x < m.width,
        0 <= y < m.height,
    ensures
        0 <= y * m.stride,
        y * m.stride + m.stride <= m.words.len(),
        0 <= x / 64 < m.stride,
        y * m.stride + x / 64 < m.words.len(),
{
    lemma_word_index_bounds(m.width, m.height, x, y);
}

} // verus!
