//! Bit-level facts about packed bitsets of bytes and 64-bit words.
use vstd::prelude::*;
use vstd::std_specs::bits::*;

verus! {

/// Bit `i` of byte `b`.
pub open spec fn byte_bit(b: u8, i: int) -> bool {
    (b >> (i as u8)) & 1u8 == 1u8
}

/// Bit `i` of word `w`.
pub open spec fn word_bit(w: u64, i: int) -> bool {
    (w >> (i as u64)) & 1u64 == 1u64
}

/// Testing bit `i` of a byte with a one-bit mask reads that bit.
pub proof fn lemma_byte_mask_test(b: u8, i: u8)
    requires
        i < 8,
    ensures
        (b & (1u8 << i) != 0u8) == ((b >> i) & 1u8 == 1u8),
{
    assert(i < 8 ==> ((b & (1u8 << i) != 0u8) == ((b >> i) & 1u8 == 1u8))) by (bit_vector);
}

/// Clearing bit `i` of a byte changes that bit only.
pub proof fn lemma_byte_clear(b: u8, i: u8, k: u8)
    requires
        i < 8,
        k < 8,
    ensures
        ((b & !(1u8 << i)) >> k) & 1u8 == 1u8 <==> (i != k && (b >> k) & 1u8 == 1u8),
{
    assert(i < 8 && k < 8 ==> (((b & !(1u8 << i)) >> k) & 1u8 == 1u8 <==> (i != k && (b >> k) & 1u8
        == 1u8))) by (bit_vector);
}

/// Every bit of `0xFF` is set; masking off bits 0 and 1 leaves the bits from 2 up.
pub proof fn lemma_byte_full(k: u8)
    requires
        k < 8,
    ensures
        (0xFFu8 >> k) & 1u8 == 1u8,
        ((0xFFu8 & 0b11111100u8) >> k) & 1u8 == 1u8 <==> k >= 2,
{
    assert(k < 8 ==> (0xFFu8 >> k) & 1u8 == 1u8) by (bit_vector);
    assert(k < 8 ==> (((0xFFu8 & 0b11111100u8) >> k) & 1u8 == 1u8 <==> k >= 2)) by (bit_vector);
}

/// Clearing the lowest set bit of a byte leaves the higher bits alone.
pub proof fn lemma_byte_clear_lowest(b: u8, i: u8)
    requires
        b != 0,
        i < 8,
    ensures
        u8_trailing_zeros(b) < 8,
        ((b & ((b - 1u8) as u8)) >> i) & 1u8 == 1u8 <==> (i > u8_trailing_zeros(b) && (b >> i) & 1u8
            == 1u8),
{
    axiom_u8_trailing_zeros(b);
    let t = u8_trailing_zeros(b) as u8;
    assert(b != 0 && t < 8 && (b >> t) & 1u8 == 1u8 && b << ((8 - t) as u8) == 0u8 && i < 8 ==> (((b
        & ((b - 1u8) as u8)) >> i) & 1u8 == 1u8 <==> (i > t && (b >> i) & 1u8 == 1u8))) by (bit_vector);
}

/// Below its trailing-zero count every bit of a byte is clear, and the bit at that
/// count is set.
pub proof fn lemma_byte_trailing(b: u8, i: u8)
    requires
        i < 8,
    ensures
        u8_trailing_zeros(b) <= 8,
        (i as u32) < u8_trailing_zeros(b) ==> (b >> i) & 1u8 == 0u8,
        (i as u32) == u8_trailing_zeros(b) ==> (b >> i) & 1u8 == 1u8,
        b == 0 <==> u8_trailing_zeros(b) == 8,
{
    axiom_u8_trailing_zeros(b);
}

/// Testing bit `i` of a word with a one-bit mask reads that bit.
pub proof fn lemma_word_mask_test(w: u64, i: u64)
    requires
        i < 64,
    ensures
        (w & (1u64 << i) != 0u64) == ((w >> i) & 1u64 == 1u64),
{
    assert(i < 64 ==> ((w & (1u64 << i) != 0u64) == ((w >> i) & 1u64 == 1u64))) by (bit_vector);
}

/// Clearing bit `i` of a word changes that bit only.
pub proof fn lemma_word_clear(w: u64, i: u64, k: u64)
    requires
        i < 64,
        k < 64,
    ensures
        ((w & !(1u64 << i)) >> k) & 1u64 == 1u64 <==> (i != k && (w >> k) & 1u64 == 1u64),
{
    assert(i < 64 && k < 64 ==> (((w & !(1u64 << i)) >> k) & 1u64 == 1u64 <==> (i != k && (w >> k)
        & 1u64 == 1u64))) by (bit_vector);
}

/// Setting bit `i` of a word changes that bit only.
pub proof fn lemma_word_set(w: u64, i: u64, k: u64)
    requires
        i < 64,
        k < 64,
    ensures
        ((w | (1u64 << i)) >> k) & 1u64 == 1u64 <==> (i == k || (w >> k) & 1u64 == 1u64),
{
    assert(i < 64 && k < 64 ==> (((w | (1u64 << i)) >> k) & 1u64 == 1u64 <==> (i == k || (w >> k)
        & 1u64 == 1u64))) by (bit_vector);
}

/// The low `c` bits of a word made by `(1 << c) - 1`.
pub proof fn lemma_word_low_mask(c: u64, k: u64)
    requires
        0 < c < 64,
        k < 64,
    ensures
        (((((1u64 << c) - 1u64) as u64)) >> k) & 1u64 == 1u64 <==> k < c,
        (0xFFFF_FFFF_FFFF_FFFFu64 >> k) & 1u64 == 1u64,
{
    assert(0 < c < 64 && k < 64 ==> ((((((1u64 << c) - 1u64) as u64)) >> k) & 1u64 == 1u64 <==> k < c))
        by (bit_vector);
    assert(k < 64 ==> (0xFFFF_FFFF_FFFF_FFFFu64 >> k) & 1u64 == 1u64) by (bit_vector);
}

/// Clearing the lowest set bit of a word leaves the higher bits alone.
pub proof fn lemma_word_clear_lowest(w: u64, i: u64)
    requires
        w != 0,
        i < 64,
    ensures
        u64_trailing_zeros(w) < 64,
        ((w & ((w - 1u64) as u64)) >> i) & 1u64 == 1u64 <==> (i > u64_trailing_zeros(w) && (w >> i) & 1u64
            == 1u64),
{
    axiom_u64_trailing_zeros(w);
    let t = u64_trailing_zeros(w) as u64;
    assert(w != 0 && t < 64 && (w >> t) & 1u64 == 1u64 && w << ((64 - t) as u64) == 0u64 && i < 64 ==> (
    ((w & ((w - 1u64) as u64)) >> i) & 1u64 == 1u64 <==> (i > t && (w >> i) & 1u64 == 1u64)))
        by (bit_vector);
}

/// The trailing-zero count of a nonzero word is its lowest set bit.
pub proof fn lemma_word_trailing(w: u64, i: u64)
    requires
        i < 64,
    ensures
        u64_trailing_zeros(w) <= 64,
        (i as u32) < u64_trailing_zeros(w) ==> (w >> i) & 1u64 == 0u64,
        (i as u32) == u64_trailing_zeros(w) ==> (w >> i) & 1u64 == 1u64,
        w == 0 <==> u64_trailing_zeros(w) == 64,
{
    axiom_u64_trailing_zeros(w);
}

} // verus!
