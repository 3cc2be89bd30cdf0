//! The persistent mask cache: a self-describing, checksummed binary
//! encoding of a mask.
//!
//! Layout: a two-byte marker, the CRC-32 of the payload, the height, the
//! width, the payload size in bytes, ten reserved zero bytes, then the
//! packed words, each as eight little-endian bytes. Reading validates the
//! marker, the checksum, and the geometry before a mask is rebuilt.

use crate::grid::{words_per_row, AlphaChannel, MaskModel};
use vstd::bytes::{
    spec_u16_from_le_bytes, spec_u16_to_le_bytes, spec_u32_from_le_bytes, spec_u32_to_le_bytes,
    spec_u64_from_le_bytes, spec_u64_to_le_bytes, u16_from_le_bytes, u16_to_le_bytes,
    u32_from_le_bytes, u32_to_le_bytes, u64_from_le_bytes, u64_to_le_bytes,
};
use vstd::prelude::*;
use vstd::slice::slice_subrange;

verus! {

/// The sentinel that opens every cache file.
pub const BYTE_ORDER_MARK: u16 = 0xbeef;

/// Number of bytes before the payload.
pub const HEADER_BYTES: usize = 32;

/// Why a byte buffer was rejected as a mask cache.
#[derive(Clone, Copy, Debug, PartialEq, Eq, Structural)]
pub enum FormatError {
    /// Shorter than the fixed-size header.
    Truncated,
    /// The buffer does not open with the cache marker.
    BadMarker,
    /// The stored checksum differs from the payload's checksum.
    ChecksumMismatch,
    /// Marker and checksum hold, but the payload does not describe a mask
    /// of the stated dimensions: wrong payload length, wrong size field, or
    /// a set padding bit.
    Malformed,
}

/// What `Crc::<u32>::checksum` of the crc crate returns for the given
/// bytes, with the `CRC_32_ISO_HDLC` algorithm: a function of the bytes
/// alone.
pub uninterp spec fn crc32_of(bytes: Seq<u8>) -> u32;

/// Relies on the crc crate's `Crc::<u32>::new(&CRC_32_ISO_HDLC).checksum`:
/// the IEEE-polynomial CRC-32 of the bytes, determined by the bytes alone.
#[verifier::external_body]
fn crc32(bytes: &[u8]) -> (r: u32)
    ensures
        r == crc32_of(bytes@),
{
    crc::Crc::<u32>::new(&crc::CRC_32_ISO_HDLC).checksum(bytes)
}

/// The payload of a mask: each storage word as eight little-endian bytes.
pub open spec fn spec_payload(words: Seq<u64>) -> Seq<u8> {
    Seq::new(words.len() * 8, |i: int| spec_u64_to_le_bytes(words[i / 8])[i % 8])
}

/// The words read back from a payload.
pub open spec fn spec_payload_words(payload: Seq<u8>) -> Seq<u64> {
    Seq::new((payload.len() / 8) as nat, |j: int| spec_u64_from_le_bytes(payload.subrange(8 * j, 8 * j + 8)))
}

/// The encoded form of a mask: marker, payload checksum, height, width,
/// payload size, ten reserved zero bytes, payload.
pub open spec fn spec_encode(m: MaskModel) -> Seq<u8> {
    spec_u16_to_le_bytes(BYTE_ORDER_MARK) + spec_u32_to_le_bytes(crc32_of(spec_payload(m.words)))
        + spec_u32_to_le_bytes(m.height) + spec_u32_to_le_bytes(m.width) + spec_u64_to_le_bytes(
        (m.words.len() * 8) as u64,
    ) + Seq::new(10, |i: int| 0u8) + spec_payload(m.words)
}

/// The mask a byte buffer decodes to, or the error that rejects it. Checks
/// run in order: length, marker, checksum, then geometry.
pub open spec fn spec_decode(b: Seq<u8>) -> Result<MaskModel, FormatError> {
    if b.len() < HEADER_BYTES {
        Err(FormatError::Truncated)
    } else if spec_u16_from_le_bytes(b.subrange(0, 2)) != BYTE_ORDER_MARK {
        Err(FormatError::BadMarker)
    } else if crc32_of(b.skip(HEADER_BYTES as int)) != spec_u32_from_le_bytes(b.subrange(2, 6)) {
        Err(FormatError::ChecksumMismatch)
    } else {
        let height = spec_u32_from_le_bytes(b.subrange(6, 10));
        let width = spec_u32_from_le_bytes(b.subrange(10, 14));
        let size_field = spec_u64_from_le_bytes(b.subrange(14, 22));
        let m = MaskModel {
            width,
            height,
            stride: words_per_row(width),
            words: spec_payload_words(b.skip(HEADER_BYTES as int)),
        };
        if b.len() - HEADER_BYTES == words_per_row(width) * height * 8 && size_field == b.len()
            - HEADER_BYTES && m.padding_clear() {
            Ok(m)
        } else {
            Err(FormatError::Malformed)
        }
    }
}

impl AlphaChannel {
    /// Serialize the mask into its cache encoding.
    pub fn to_bytes(&self) -> (r: Vec<u8>)
        requires
            self@.wf(),
        ensures
            r@ == spec_encode(self@),
    {
        let n_words: usize = self.word_count();
        let mut payload: Vec<u8> = Vec::new();
        let mut i: usize = 0;
        #[verifier::loop_isolation(false)]
        while i < n_words
            invariant
                i <= n_words,
                payload@.len() == 8 * i,
                forall|p: int|
                    0 <= p < 8 * i ==> payload@[p] == spec_u64_to_le_bytes(self@.words[p / 8])[p
                        % 8],
            decreases n_words - i,
        {
            let w: u64 = self.word_at(i);
            let mut bs: Vec<u8> = u64_to_le_bytes(w);
            let ghost before = payload@;
            payload.append(&mut bs);
            proof {
                assert forall|p: int|
                    0 <= p < 8 * (i + 1) implies payload@[p] == spec_u64_to_le_bytes(
                    self@.words[p / 8],
                )[p % 8] by {
                    if p < 8 * i {
                        assert(payload@[p] == before[p]);
                    } else {
                        let k = p - 8 * i;
                        vstd::arithmetic::div_mod::lemma_fundamental_div_mod_converse(
                            p,
                            8,
                            i as int,
                            k,
                        );
                        assert(payload@[p] == spec_u64_to_le_bytes(w)[k]);
                    }
                }
            }
            i = i + 1;
        }
        proof {
            assert(payload@ =~= spec_payload(self@.words));
        }

        let checksum: u32 = crc32(payload.as_slice());
        let payload_size: u64 = payload.len() as u64;

        let mut out: Vec<u8> = Vec::new();
        let mut marker_bytes: Vec<u8> = u16_to_le_bytes(BYTE_ORDER_MARK);
        out.append(&mut marker_bytes);
        let mut checksum_bytes: Vec<u8> = u32_to_le_bytes(checksum);
        out.append(&mut checksum_bytes);
        let mut height_bytes: Vec<u8> = u32_to_le_bytes(self.height());
        out.append(&mut height_bytes);
        let mut width_bytes: Vec<u8> = u32_to_le_bytes(self.width());
        out.append(&mut width_bytes);
        let mut size_bytes: Vec<u8> = u64_to_le_bytes(payload_size);
        out.append(&mut size_bytes);
        let mut pad: usize = 0;
        #[verifier::loop_isolation(false)]
        while pad < 10
            invariant
                pad <= 10,
                out@.len() == 22 + pad,
                out@.subrange(0, 22) == (spec_u16_to_le_bytes(BYTE_ORDER_MARK)
                    + spec_u32_to_le_bytes(checksum) + spec_u32_to_le_bytes(self@.height)
                    + spec_u32_to_le_bytes(self@.width) + spec_u64_to_le_bytes(payload_size)),
                forall|p: int| 22 <= p < out@.len() ==> out@[p] == 0u8,
            decreases 10 - pad,
        {
            out.push(0u8);
            proof {
                assert(out@.subrange(0, 22) =~= out@.subrange(0, out@.len() - 1).subrange(0, 22));
            }
            pad = pad + 1;
        }
        out.append(&mut payload);
        proof {
            vstd::bytes::lemma_auto_spec_u16_to_from_le_bytes();
            vstd::bytes::lemma_auto_spec_u32_to_from_le_bytes();
            vstd::bytes::lemma_auto_spec_u64_to_from_le_bytes();
            assert(out@ =~= spec_encode(self@));
        }
        out
    }

    /// Rebuild a mask from its cache encoding, validating the marker, the
    /// payload checksum, and the geometry. Succeeds exactly on buffers that
    /// [`Self::to_bytes`] produces for a well-formed mask, up to the ten
    /// reserved bytes, which are ignored.
    #[verifier::loop_isolation(false)]
    pub fn from_bytes(bytes: &[u8]) -> (r: Result<AlphaChannel, FormatError>)
        ensures
            match r {
                Ok(g) => spec_decode(bytes@) == Ok::<MaskModel, FormatError>(g@) && g@.wf(),
                Err(e) => spec_decode(bytes@) == Err::<MaskModel, FormatError>(e),
            },
    {
        let len: usize = bytes.len();
        if len < HEADER_BYTES {
            return Err(FormatError::Truncated);
        }
        let marker: u16 = u16_from_le_bytes(slice_subrange(bytes, 0, 2));
        if marker != BYTE_ORDER_MARK {
            return Err(FormatError::BadMarker);
        }
        let stored: u32 = u32_from_le_bytes(slice_subrange(bytes, 2, 6));
        let payload: &[u8] = slice_subrange(bytes, HEADER_BYTES, len);
        proof {
            assert(payload@ =~= bytes@.skip(HEADER_BYTES as int));
        }
        let computed: u32 = crc32(payload);
        if computed != stored {
            return Err(FormatError::ChecksumMismatch);
        }
        let height: u32 = u32_from_le_bytes(slice_subrange(bytes, 6, 10));
        let width: u32 = u32_from_le_bytes(slice_subrange(bytes, 10, 14));
        let size_field: u64 = u64_from_le_bytes(slice_subrange(bytes, 14, 22));

        let words_row: u64 = ((width as u64) + 63) / 64;
        proof {
            assert(words_row <= 0x400_0000) by {
                vstd::arithmetic::div_mod::lemma_div_is_ordered(
                    width as u64 + 63,
                    0xffff_ffffu64 + 63,
                    64,
                );
            };
            assert(words_row == words_per_row(width));
            vstd::arithmetic::mul::lemma_mul_upper_bound(
                words_row as int,
                0x400_0000,
                height as int,
                0xffff_ffff,
            );
            vstd::arithmetic::mul::lemma_mul_nonnegative(words_row as int, height as int);
        }
        let words_total: u64 = words_row * (height as u64);
        let expected_bytes: u64 = words_total * 8;
        proof {
            vstd::arithmetic::mul::lemma_mul_is_commutative(words_total as int, 8);
            vstd::arithmetic::mul::lemma_mul_is_associative(
                words_per_row(width),
                height as int,
                8,
            );
        }
        if (len - HEADER_BYTES) as u64 != expected_bytes {
            return Err(FormatError::Malformed);
        }
        if size_field != expected_bytes {
            return Err(FormatError::Malformed);
        }

        let n_words: usize = (len - HEADER_BYTES) / 8;
        proof {
            vstd::arithmetic::div_mod::lemma_div_by_multiple(words_total as int, 8);
            assert(n_words == words_total);
        }
        let ghost payload_seq = bytes@.skip(HEADER_BYTES as int);
        let mut data: Vec<u64> = Vec::new();
        let mut i: usize = 0;
        while i < n_words
            invariant
                i <= n_words,
                data@.len() == i,
                forall|k: int|
                    0 <= k < i ==> data@[k] == spec_payload_words(payload_seq)[k],
            decreases n_words - i,
        {
            let off: usize = HEADER_BYTES + 8 * i;
            let w: u64 = u64_from_le_bytes(slice_subrange(bytes, off, off + 8));
            proof {
                assert(bytes@.subrange(off as int, off + 8) =~= payload_seq.subrange(
                    8 * (i as int),
                    8 * (i as int) + 8,
                ));
            }
            data.push(w);
            i = i + 1;
        }
        proof {
            assert(data@ =~= spec_payload_words(payload_seq));
        }

        let stride: usize = words_row as usize;
        if width % 64 != 0 {
            let shift_amount: u64 = (width % 64) as u64;
            let mut yy: usize = 0;
            while yy < height as usize
                invariant
                    yy <= height,
                    forall|yi: int|
                        0 <= yi < yy ==> (#[trigger] data@[yi * (stride as int) + stride - 1]) >> ((
                        width % 64) as u64) == 0,
                decreases height as usize - yy,
            {
                proof {
                    crate::grid::lemma_stride_bounds(width);
                    crate::grid::lemma_word_index_bounds(width, height, width - 1, yy as int);
                    vstd::arithmetic::div_mod::lemma_div_pos_is_pos(width - 1, 64);
                    assert(yy * stride + stride - 1 < words_per_row(width) * height) by {
                        vstd::arithmetic::mul::lemma_mul_inequality(
                            yy + 1,
                            height as int,
                            stride as int,
                        );
                        vstd::arithmetic::mul::lemma_mul_is_distributive_add_other_way(
                            stride as int,
                            yy as int,
                            1,
                        );
                        vstd::arithmetic::mul::lemma_mul_is_commutative(
                            stride as int,
                            height as int,
                        );
                    };
                }
                let word: u64 = data[yy * stride + stride - 1];
                if word >> shift_amount != 0 {
                    proof {
                        let m = MaskModel {
                            width,
                            height,
                            stride: words_per_row(width),
                            words: spec_payload_words(bytes@.skip(HEADER_BYTES as int)),
                        };
                        if m.padding_clear() {
                            assert(m.words[(yy as int) * m.stride + m.stride - 1] >> ((m.width
                                % 64) as u64) == 0);
                            assert(false);
                        }
                    }
                    return Err(FormatError::Malformed);
                }
                yy = yy + 1;
            }
        }

        let grid = AlphaChannel::from_parts(data, stride, width, height);
        proof {
            vstd::arithmetic::mul::lemma_mul_is_commutative(words_per_row(width), height as int);
            assert(grid@.wf());
            assert(spec_decode(bytes@) == Ok::<MaskModel, FormatError>(grid@));
        }
        Ok(grid)
    }
}

/// Round trip: decoding what a well-formed mask encodes to gives back the
/// very same mask — same width, height, stride, and words, bit for bit.
pub proof fn lemma_cache_round_trip(m: MaskModel)
    requires
        m.wf(),
    ensures
        spec_decode(spec_encode(m)) == Ok::<MaskModel, FormatError>(m),
{
    vstd::bytes::lemma_auto_spec_u16_to_from_le_bytes();
    vstd::bytes::lemma_auto_spec_u32_to_from_le_bytes();
    vstd::bytes::lemma_auto_spec_u64_to_from_le_bytes();
    let e = spec_encode(m);
    let pl = spec_payload(m.words);
    assert(e.len() == HEADER_BYTES + pl.len());
    assert(e.subrange(0, 2) =~= spec_u16_to_le_bytes(BYTE_ORDER_MARK));
    assert(e.subrange(2, 6) =~= spec_u32_to_le_bytes(crc32_of(pl)));
    assert(e.subrange(6, 10) =~= spec_u32_to_le_bytes(m.height));
    assert(e.subrange(10, 14) =~= spec_u32_to_le_bytes(m.width));
    assert(e.subrange(14, 22) =~= spec_u64_to_le_bytes((m.words.len() * 8) as u64));
    assert(e.skip(HEADER_BYTES as int) =~= pl);
    assert(spec_payload_words(pl) =~= m.words) by {
        assert forall|j: int| 0 <= j < m.words.len() implies spec_payload_words(pl)[j]
            == m.words[j] by {
            assert(pl.subrange(8 * j, 8 * j + 8) =~= spec_u64_to_le_bytes(m.words[j])) by {
                assert forall|p: int|
                    0 <= p < 8 implies pl.subrange(8 * j, 8 * j + 8)[p] == spec_u64_to_le_bytes(
                    m.words[j],
                )[p] by {
                    vstd::arithmetic::div_mod::lemma_fundamental_div_mod_converse(
                        8 * j + p,
                        8,
                        j,
                        p,
                    );
                };
            };
        };
    };
    assert(pl.len() == words_per_row(m.width) * m.height * 8) by {
        vstd::arithmetic::mul::lemma_mul_is_commutative(
            words_per_row(m.width) * m.height,
            8,
        );
    };
    assert((m.words.len() * 8) as u64 == pl.len());
    let d = MaskModel {
        width: m.width,
        height: m.height,
        stride: words_per_row(m.width),
        words: spec_payload_words(e.skip(HEADER_BYTES as int)),
    };
    assert(d =~= m);
    assert(spec_decode(e) == Ok::<MaskModel, FormatError>(m));
}

/// Checksum guard: any buffer of the same length whose first six bytes —
/// marker and stored checksum — still read as the mask's encoding, but
/// whose remainder checksums differently, is rejected with a checksum
/// mismatch, never silently decoded.
pub proof fn lemma_checksum_guard(m: MaskModel, corrupted: Seq<u8>)
    requires
        corrupted.len() == spec_encode(m).len(),
        corrupted.subrange(0, 6) == spec_encode(m).subrange(0, 6),
        crc32_of(corrupted.skip(HEADER_BYTES as int)) != crc32_of(
            spec_encode(m).skip(HEADER_BYTES as int),
        ),
    ensures
        spec_decode(corrupted) == Err::<MaskModel, FormatError>(FormatError::ChecksumMismatch),
{
    vstd::bytes::lemma_auto_spec_u16_to_from_le_bytes();
    vstd::bytes::lemma_auto_spec_u32_to_from_le_bytes();
    vstd::bytes::lemma_auto_spec_u64_to_from_le_bytes();
    let e = spec_encode(m);
    let pl = spec_payload(m.words);
    assert(e.len() == HEADER_BYTES + pl.len());
    assert forall|p: int| 0 <= p < 6 implies corrupted[p] == e[p] by {
        assert(corrupted.subrange(0, 6)[p] == e.subrange(0, 6)[p]);
    }
    assert(corrupted.subrange(0, 2) =~= e.subrange(0, 2));
    assert(e.subrange(0, 2) =~= spec_u16_to_le_bytes(BYTE_ORDER_MARK));
    assert(corrupted.subrange(2, 6) =~= e.subrange(2, 6));
    assert(e.subrange(2, 6) =~= spec_u32_to_le_bytes(crc32_of(pl)));
    assert(e.skip(HEADER_BYTES as int) =~= pl);
}

} // verus!
