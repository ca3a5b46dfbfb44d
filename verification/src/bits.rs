//! Single-bit views of machine words.
//!
//! Every packed store of the crate (link values, output values, negate masks, memory bytes) is
//! described bit by bit. The spec functions here name one bit of a word, and the lemmas say what
//! the usual mask idioms do to it.

use vstd::prelude::*;

verus! {

/// Bit `k` of the 64-bit word `w`, bit 0 being the least significant.
pub open spec fn bit64(w: u64, k: int) -> bool {
    (w >> (k as u64)) & 1 == 1
}

/// Bit `k` of the byte `b`, bit 0 being the least significant.
pub open spec fn bit8(b: u8, k: int) -> bool {
    (b >> (k as u8)) & 1 == 1
}

/// The single-bit mask test reads exactly bit `k`.
pub proof fn lemma_bit64_test(w: u64, k: u64)
    requires
        k < 64,
    ensures
        (w & (1u64 << k) != 0) == bit64(w, k as int),
{
    assert((w & (1u64 << k) != 0) == ((w >> k) & 1 == 1)) by (bit_vector)
        requires
            k < 64,
    ;
}

/// Or-ing in a single-bit mask sets bit `k` and keeps every other bit.
pub proof fn lemma_bit64_set(w: u64, k: u64)
    requires
        k < 64,
    ensures
        forall|j: int| 0 <= j < 64 ==> #[trigger] bit64(w | (1u64 << k), j) == (j == k || bit64(w, j)),
{
    assert forall|j: int| 0 <= j < 64 implies #[trigger] bit64(w | (1u64 << k), j) == (j == k
        || bit64(w, j)) by {
        let i = j as u64;
        assert((((w | (1u64 << k)) >> i) & 1 == 1) == (i == k || (w >> i) & 1 == 1)) by (bit_vector)
            requires
                k < 64,
                i < 64,
        ;
    }
}

/// And-ing with an inverted single-bit mask clears bit `k` and keeps every other bit.
pub proof fn lemma_bit64_clear(w: u64, k: u64)
    requires
        k < 64,
    ensures
        forall|j: int|
            0 <= j < 64 ==> #[trigger] bit64(w & !(1u64 << k), j) == (j != k && bit64(w, j)),
{
    assert forall|j: int| 0 <= j < 64 implies #[trigger] bit64(w & !(1u64 << k), j) == (j != k
        && bit64(w, j)) by {
        let i = j as u64;
        assert((((w & !(1u64 << k)) >> i) & 1 == 1) == (i != k && (w >> i) & 1 == 1))
            by (bit_vector)
            requires
                k < 64,
                i < 64,
        ;
    }
}

/// A zero word has no bit set.
pub proof fn lemma_bit64_zero()
    ensures
        forall|j: int| 0 <= j < 64 ==> !#[trigger] bit64(0, j),
{
    assert forall|j: int| 0 <= j < 64 implies !#[trigger] bit64(0, j) by {
        let i = j as u64;
        assert((0u64 >> i) & 1 == 0) by (bit_vector);
    }
}

/// Shifting right by `s` moves bit `j + s` to bit `j` and fills with zeros from the top.
pub proof fn lemma_bit64_shr(w: u64, s: u64)
    requires
        s < 64,
    ensures
        forall|j: int|
            0 <= j < 64 ==> #[trigger] bit64(w >> s, j) == (j + s < 64 && bit64(w, j + s)),
{
    assert forall|j: int| 0 <= j < 64 implies #[trigger] bit64(w >> s, j) == (j + s < 64 && bit64(
        w,
        j + s,
    )) by {
        let i = j as u64;
        let t = (j + s) as u64;
        assert((((w >> s) >> i) & 1 == 1) == (t < 64 && (w >> t) & 1 == 1)) by (bit_vector)
            requires
                s < 64,
                i < 64,
                t == i + s,
        ;
    }
}

/// Shifting left by `s` moves bit `j - s` to bit `j` and fills with zeros from the bottom.
pub proof fn lemma_bit64_shl(w: u64, s: u64)
    requires
        s < 64,
    ensures
        forall|j: int| 0 <= j < 64 ==> #[trigger] bit64(w << s, j) == (j >= s && bit64(w, j - s)),
{
    assert forall|j: int| 0 <= j < 64 implies #[trigger] bit64(w << s, j) == (j >= s && bit64(
        w,
        j - s,
    )) by {
        let i = j as u64;
        if j >= s {
            let t = (j - s) as u64;
            assert((((w << s) >> i) & 1 == 1) == ((w >> t) & 1 == 1)) by (bit_vector)
                requires
                    s < 64,
                    i < 64,
                    i == t + s,
            ;
        } else {
            assert(((w << s) >> i) & 1 == 0) by (bit_vector)
                requires
                    i < s < 64,
            ;
        }
    }
}

/// Or works bit by bit.
pub proof fn lemma_bit64_or(a: u64, b: u64)
    ensures
        forall|j: int| 0 <= j < 64 ==> #[trigger] bit64(a | b, j) == (bit64(a, j) || bit64(b, j)),
{
    assert forall|j: int| 0 <= j < 64 implies #[trigger] bit64(a | b, j) == (bit64(a, j) || bit64(
        b,
        j,
    )) by {
        let i = j as u64;
        assert((((a | b) >> i) & 1 == 1) == ((a >> i) & 1 == 1 || (b >> i) & 1 == 1))
            by (bit_vector);
    }
}

/// Exclusive-or works bit by bit.
pub proof fn lemma_bit64_xor(a: u64, b: u64)
    ensures
        forall|j: int| 0 <= j < 64 ==> #[trigger] bit64(a ^ b, j) == (bit64(a, j) != bit64(b, j)),
{
    assert forall|j: int| 0 <= j < 64 implies #[trigger] bit64(a ^ b, j) == (bit64(a, j) != bit64(
        b,
        j,
    )) by {
        let i = j as u64;
        assert((((a ^ b) >> i) & 1 == 1) == (((a >> i) & 1 == 1) != ((b >> i) & 1 == 1)))
            by (bit_vector);
    }
}

/// The low mask of width `n` keeps the bits below `n` and drops the rest.
pub proof fn lemma_bit64_low_mask(w: u64, n: u64)
    requires
        n < 64,
    ensures
        1u64 << n >= 1,
        forall|j: int|
            0 <= j < 64 ==> #[trigger] bit64(w & ((1u64 << n) - 1) as u64, j) == (j < n && bit64(w, j)),
{
    assert(1u64 << n >= 1) by (bit_vector)
        requires
            n < 64,
    ;
    let m = ((1u64 << n) - 1) as u64;
    assert forall|j: int| 0 <= j < 64 implies #[trigger] bit64(w & m, j) == (j < n && bit64(
        w,
        j,
    )) by {
        let i = j as u64;
        assert((((w & m) >> i) & 1 == 1) == (i < n && (w >> i) & 1 == 1)) by (bit_vector)
            requires
                n < 64,
                i < 64,
                m == (1u64 << n) - 1,
        ;
    }
}

/// Two words with the same bits are the same word.
pub proof fn lemma_bit64_ext(a: u64, b: u64)
    requires
        forall|j: int| 0 <= j < 64 ==> #[trigger] bit64(a, j) == bit64(b, j),
    ensures
        a == b,
{
    if a != b {
        let i = lemma_bit64_differs(a, b, 64);
        assert(bit64(a, i as int) == bit64(b, i as int));
    }
}

/// Two different words differ at some bit.
proof fn lemma_bit64_differs(a: u64, b: u64, hi: u64) -> (i: u64)
    requires
        a != b,
        hi <= 64,
        hi < 64 ==> a >> hi == b >> hi,
    ensures
        i < hi,
        bit64(a, i as int) != bit64(b, i as int),
    decreases hi,
{
    if hi == 0 {
        assert(a >> 0u64 == a) by (bit_vector);
        assert(b >> 0u64 == b) by (bit_vector);
        0
    } else {
        let k = (hi - 1) as u64;
        if bit64(a, k as int) != bit64(b, k as int) {
            k
        } else {
            assert(a >> k == b >> k) by (bit_vector)
                requires
                    hi <= 64,
                    k + 1 == hi,
                    hi < 64 ==> a >> hi == b >> hi,
                    ((a >> k) & 1 == 1) == ((b >> k) & 1 == 1),
            ;
            lemma_bit64_differs(a, b, k)
        }
    }
}

/// The single-bit mask idioms on a byte.
pub proof fn lemma_bit8_mask(b: u8, k: u8)
    requires
        k < 8,
    ensures
        (b & (1u8 << k) != 0) == bit8(b, k as int),
        forall|j: int| 0 <= j < 8 ==> #[trigger] bit8(b | (1u8 << k), j) == (j == k || bit8(b, j)),
        forall|j: int| 0 <= j < 8 ==> #[trigger] bit8(b & !(1u8 << k), j) == (j != k && bit8(b, j)),
{
    assert((b & (1u8 << k) != 0) == ((b >> k) & 1 == 1)) by (bit_vector)
        requires
            k < 8,
    ;
    assert forall|j: int| 0 <= j < 8 implies #[trigger] bit8(b | (1u8 << k), j) == (j == k || bit8(
        b,
        j,
    )) by {
        let i = j as u8;
        assert((((b | (1u8 << k)) >> i) & 1 == 1) == (i == k || (b >> i) & 1 == 1)) by (bit_vector)
            requires
                k < 8,
                i < 8,
        ;
    }
    assert forall|j: int| 0 <= j < 8 implies #[trigger] bit8(b & !(1u8 << k), j) == (j != k
        && bit8(b, j)) by {
        let i = j as u8;
        assert((((b & !(1u8 << k)) >> i) & 1 == 1) == (i != k && (b >> i) & 1 == 1))
            by (bit_vector)
            requires
                k < 8,
                i < 8,
        ;
    }
}

/// A zero byte has no bit set.
pub proof fn lemma_bit8_zero()
    ensures
        forall|j: int| 0 <= j < 8 ==> !#[trigger] bit8(0, j),
{
    assert forall|j: int| 0 <= j < 8 implies !#[trigger] bit8(0, j) by {
        let i = j as u8;
        assert((0u8 >> i) & 1 == 0) by (bit_vector);
    }
}

/// Splitting a bit index with a shift and a mask is division by 64 with remainder.
pub proof fn lemma_word_index(i: u32)
    ensures
        i >> 6 == i / 64,
        i & 63 == i % 64,
{
    assert(i >> 6 == i / 64) by (bit_vector);
    assert(i & 63 == i % 64) by (bit_vector);
}

} // verus!
