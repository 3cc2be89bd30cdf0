//! Single 64-bit words viewed as little groups of mask bits.

use vstd::prelude::*;

verus! {

/// True when bit `i` of word `w` is set. Bit 0 is the least significant bit,
/// which holds the leftmost pixel stored in the word.
pub open spec fn word_bit(w: u64, i: u64) -> bool {
    (w >> i) & 1 == 1
}

/// The word whose low `n` bits are set and whose other bits are clear.
pub open spec fn spec_low_mask(n: u64) -> u64
    recommends
        n <= 64,
{
    if n == 64 {
        0xffff_ffff_ffff_ffffu64
    } else {
        ((1u64 << n) - 1) as u64
    }
}

/// Build the word whose low `n` bits are set.
pub fn low_mask(n: u64) -> (r: u64)
    requires
        n <= 64,
    ensures
        r == spec_low_mask(n),
{
    if n == 64 {
        u64::MAX
    } else {
        proof {
            assert(n < 64 ==> 1u64 << n >= 1) by (bit_vector);
        }
        (1u64 << n) - 1
    }
}

/// A word other than zero has at least one set bit.
pub proof fn lemma_nonzero_has_bit(w: u64)
    requires
        w != 0,
    ensures
        exists|i: u64| i < 64 && #[trigger] word_bit(w, i),
    decreases w,
{
    if w & 1 == 1 {
        assert(word_bit(w, 0)) by (bit_vector)
            requires
                w & 1 == 1,
        ;
    } else {
        let half = w >> 1;
        assert((w >> 1) != 0 && (w >> 1) < w) by (bit_vector)
            requires
                w != 0 && w & 1 != 1,
        ;
        lemma_nonzero_has_bit(half);
        let i = choose|i: u64| i < 64 && word_bit(half, i);
        assert(!word_bit(w >> 1, 63)) by (bit_vector);
        assert(word_bit(w, (i + 1) as u64)) by (bit_vector)
            requires
                i < 63 && word_bit(w >> 1, i),
        ;
    }
}

/// Masking the shifted words pairs bit `sa + i` of `wa` with bit `sb + i` of
/// `wb`: the combined word is nonzero exactly when some pair is both set.
pub proof fn lemma_chunk_overlap(wa: u64, wb: u64, sa: u64, sb: u64, n: u64)
    requires
        1 <= n,
        sa + n <= 64,
        sb + n <= 64,
    ensures
        ((wa >> sa) & (wb >> sb) & spec_low_mask(n)) != 0 <==> exists|i: u64|
            i < n && #[trigger] word_bit(wa, (sa + i) as u64) && word_bit(wb, (sb + i) as u64),
{
    let m = (wa >> sa) & (wb >> sb) & spec_low_mask(n);
    if m != 0 {
        lemma_nonzero_has_bit(m);
        let i = choose|i: u64| i < 64 && word_bit(m, i);
        assert(i < n && word_bit(wa, (sa + i) as u64) && word_bit(wb, (sb + i) as u64))
            by (bit_vector)
            requires
                1 <= n,
                sa + n <= 64,
                sb + n <= 64,
                i < 64,
                word_bit((wa >> sa) & (wb >> sb) & spec_low_mask(n), i),
        ;
    } else {
        assert forall|i: u64|
            i < n implies !(#[trigger] word_bit(wa, (sa + i) as u64) && word_bit(
            wb,
            (sb + i) as u64,
        )) by {
            assert(!(word_bit(wa, (sa + i) as u64) && word_bit(wb, (sb + i) as u64)))
                by (bit_vector)
                requires
                    1 <= n,
                    sa + n <= 64,
                    sb + n <= 64,
                    i < n,
                    (wa >> sa) & (wb >> sb) & spec_low_mask(n) == 0,
            ;
        }
    }
}

/// Setting bit `k` of a word touches no other bit.
pub proof fn lemma_set_bit(w: u64, k: u64)
    requires
        k < 64,
    ensures
        forall|j: u64| j < 64 ==> #[trigger] word_bit(w | (1u64 << k), j) == (word_bit(w, j) || j
            == k),
{
    assert forall|j: u64|
        j < 64 implies #[trigger] word_bit(w | (1u64 << k), j) == (word_bit(w, j) || j == k) by {
        assert(word_bit(w | (1u64 << k), j) == (word_bit(w, j) || j == k)) by (bit_vector)
            requires
                j < 64,
                k < 64,
        ;
    }
}

/// A word whose high bits vanish under `>> c` has no set bit at `c` or above.
pub proof fn lemma_high_bits_clear(w: u64, c: u64)
    requires
        c < 64,
        w >> c == 0,
    ensures
        forall|j: u64| c <= j < 64 ==> !word_bit(w, j),
{
    assert forall|j: u64| c <= j < 64 implies !word_bit(w, j) by {
        assert(!word_bit(w, j)) by (bit_vector)
            requires
                c <= j < 64,
                w >> c == 0,
        ;
    }
}

/// A global bit position splits into a word index and a bit index; moving
/// `i` bits to the right stays inside the same word while `base % 64 + i`
/// stays below 64.
pub proof fn lemma_bit_position(base: int, i: int)
    requires
        0 <= base,
        0 <= i,
        base % 64 + i < 64,
    ensures
        (base + i) / 64 == base / 64,
        (base + i) % 64 == base % 64 + i,
{
    vstd::arithmetic::div_mod::lemma_fundamental_div_mod(base, 64);
    vstd::arithmetic::div_mod::lemma_fundamental_div_mod_converse(
        base + i,
        64,
        base / 64,
        base % 64 + i,
    );
}

} // verus!
