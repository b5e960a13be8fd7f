use vstd::prelude::*;

verus! {

/// Bit `t` of a byte.
pub open spec fn bit8(b: u8, t: u32) -> bool {
    (b >> t) & 1u8 == 1u8
}

/// Bit `j` of a 32-bit word.
pub open spec fn bit32(x: u32, j: u32) -> bool {
    (x >> j) & 1u32 == 1u32
}

pub proof fn lemma_zero_byte_bit(t: u32)
    by (bit_vector)
    requires
        t < 8,
    ensures
        !bit8(0u8, t),
{
}

pub proof fn lemma_or_byte_bit(a: u8, c: u8, t: u32)
    by (bit_vector)
    requires
        t < 8,
    ensures
        bit8(a | c, t) == (bit8(a, t) || bit8(c, t)),
{
}

pub proof fn lemma_or_word_bit(a: u32, c: u32, j: u32)
    by (bit_vector)
    requires
        j < 32,
    ensures
        bit32(a | c, j) == (bit32(a, j) || bit32(c, j)),
{
}

/// A word shifted left by `s < 8` and cut to a byte.
pub proof fn lemma_shl_to_byte_bit(v: u32, s: u32, t: u32)
    by (bit_vector)
    requires
        s < 8,
        t < 8,
    ensures
        bit8((v << s) as u8, t) == (t >= s && bit32(v, (t - s) as u32)),
{
}

/// A word shifted right by `r` and cut to a byte.
pub proof fn lemma_shr_to_byte_bit(v: u32, r: u32, t: u32)
    by (bit_vector)
    requires
        r < 32,
        t < 8,
    ensures
        bit8((v >> r) as u8, t) == (t + r < 32 && bit32(v, (t + r) as u32)),
{
}

/// The low `w` bits of a word.
pub proof fn lemma_low_mask_bit(x: u32, w: u32, j: u32)
    by (bit_vector)
    requires
        w < 32,
        j < 32,
    ensures
        bit32(x & (((1u32 << w) - 1u32) as u32), j) == (j < w && bit32(x, j)),
{
}

/// A word cut to a byte, masked to its low `w` bits and shifted left by `s`, with `w + s <= 8`.
pub proof fn lemma_field_to_byte_bit(x: u32, m: u8, w: u32, s: u32, t: u32)
    by (bit_vector)
    requires
        w <= 8,
        s + w <= 8,
        t < 8,
        m == (((1u8 << w) - 1u8) as u8),
    ensures
        bit8(((x as u8) & m) << s, t) == (s <= t && t < s + w && bit32(x, (t - s) as u32)),
{
}

/// A field of `w` bits at offset `s` of a byte, read into a word.
pub proof fn lemma_byte_field_bit(b: u8, m: u8, w: u32, s: u32, j: u32)
    by (bit_vector)
    requires
        w <= 8,
        s + w <= 8,
        j < 32,
        m == (((1u8 << w) - 1u8) as u8),
    ensures
        bit32(((b >> s) & m) as u32, j) == (j < w && bit8(b, (j + s) as u32)),
{
}

/// A byte widened to a word and shifted right by `s < 8`.
pub proof fn lemma_byte_shr_word_bit(b: u8, s: u32, j: u32)
    by (bit_vector)
    requires
        s < 8,
        j < 32,
    ensures
        bit32((b as u32) >> s, j) == (j + s < 8 && bit8(b, (j + s) as u32)),
{
}

/// A byte widened to a word and shifted left by `r < 32`.
pub proof fn lemma_byte_shl_word_bit(b: u8, r: u32, j: u32)
    by (bit_vector)
    requires
        r < 32,
        j < 32,
    ensures
        bit32((b as u32) << r, j) == (r <= j && j < r + 8 && bit8(b, (j - r) as u32)),
{
}

/// A byte widened to a word.
pub proof fn lemma_byte_word_bit(b: u8, j: u32)
    by (bit_vector)
    requires
        j < 32,
    ensures
        bit32(b as u32, j) == (j < 8 && bit8(b, j)),
{
}

/// A value below `2^w` has no bit at or above `w`.
pub proof fn lemma_below_pow_bit(x: u32, w: u32, j: u32)
    by (bit_vector)
    requires
        w < 32,
        j < 32,
        x < (1u32 << w),
        w <= j,
    ensures
        !bit32(x, j),
{
}

/// A single set bit.
pub proof fn lemma_single_bit(s: u32, t: u32)
    by (bit_vector)
    requires
        s < 8,
        t < 8,
    ensures
        bit8(1u8 << s, t) == (t == s),
{
}

/// A word cut to a byte.
pub proof fn lemma_word_to_byte_bit(x: u32, t: u32)
    by (bit_vector)
    requires
        t < 8,
    ensures
        bit8(x as u8, t) == bit32(x, t),
{
}

/// A word cut to a byte and masked to its low `w` bits.
pub proof fn lemma_low_field_to_byte_bit(x: u32, m: u8, w: u32, t: u32)
    by (bit_vector)
    requires
        w <= 8,
        t < 8,
        m == (((1u8 << w) - 1u8) as u8),
    ensures
        bit8((x as u8) & m, t) == (t < w && bit32(x, t)),
{
}

/// The byte masks of one, two and four low bits.
pub proof fn lemma_byte_masks()
    by (bit_vector)
    ensures
        (((1u8 << 1u32) - 1u8) as u8) == 1u8,
        (((1u8 << 2u32) - 1u8) as u8) == 3u8,
        (((1u8 << 4u32) - 1u8) as u8) == 15u8,
{
}

/// A byte masked to its low `w` bits, read into a word.
pub proof fn lemma_byte_low_field_bit(b: u8, m: u8, w: u32, j: u32)
    by (bit_vector)
    requires
        w <= 8,
        j < 32,
        m == (((1u8 << w) - 1u8) as u8),
    ensures
        bit32((b & m) as u32, j) == (j < w && bit8(b, j)),
{
}

/// A power of two below `2^32` is at least one.
pub proof fn lemma_pow_word_pos(w: u32)
    by (bit_vector)
    requires
        w < 32,
    ensures
        (1u32 << w) >= 1u32,
{
}

/// A word below two is its lowest bit.
pub proof fn lemma_bit_of_flag(x: u32)
    by (bit_vector)
    requires
        x < 2,
    ensures
        bit32(x, 0) == (x != 0),
{
}

/// The low `w` bits of a word are below `2^w`.
pub proof fn lemma_low_mask_below(x: u32, w: u32)
    by (bit_vector)
    requires
        w < 32,
    ensures
        (x & (((1u32 << w) - 1u32) as u32)) < (1u32 << w),
{
}

/// Words with the same 32 bits are equal.
pub proof fn lemma_word_ext(a: u32, b: u32)
    by (bit_vector)
    requires
        bit32(a, 0) == bit32(b, 0), bit32(a, 1) == bit32(b, 1), bit32(a, 2) == bit32(b, 2),
        bit32(a, 3) == bit32(b, 3), bit32(a, 4) == bit32(b, 4), bit32(a, 5) == bit32(b, 5),
        bit32(a, 6) == bit32(b, 6), bit32(a, 7) == bit32(b, 7), bit32(a, 8) == bit32(b, 8),
        bit32(a, 9) == bit32(b, 9), bit32(a, 10) == bit32(b, 10), bit32(a, 11) == bit32(b, 11),
        bit32(a, 12) == bit32(b, 12), bit32(a, 13) == bit32(b, 13), bit32(a, 14) == bit32(b, 14),
        bit32(a, 15) == bit32(b, 15), bit32(a, 16) == bit32(b, 16), bit32(a, 17) == bit32(b, 17),
        bit32(a, 18) == bit32(b, 18), bit32(a, 19) == bit32(b, 19), bit32(a, 20) == bit32(b, 20),
        bit32(a, 21) == bit32(b, 21), bit32(a, 22) == bit32(b, 22), bit32(a, 23) == bit32(b, 23),
        bit32(a, 24) == bit32(b, 24), bit32(a, 25) == bit32(b, 25), bit32(a, 26) == bit32(b, 26),
        bit32(a, 27) == bit32(b, 27), bit32(a, 28) == bit32(b, 28), bit32(a, 29) == bit32(b, 29),
        bit32(a, 30) == bit32(b, 30), bit32(a, 31) == bit32(b, 31),
    ensures
        a == b,
{
}

/// Words that agree on every bit are equal.
pub proof fn lemma_word_eq_from_bits(a: u32, b: u32)
    requires
        forall|j: u32| j < 32 ==> #[trigger] bit32(a, j) == bit32(b, j),
    ensures
        a == b,
{
    assert(bit32(a, 0) == bit32(b, 0));
    assert(bit32(a, 1) == bit32(b, 1));
    assert(bit32(a, 2) == bit32(b, 2));
    assert(bit32(a, 3) == bit32(b, 3));
    assert(bit32(a, 4) == bit32(b, 4));
    assert(bit32(a, 5) == bit32(b, 5));
    assert(bit32(a, 6) == bit32(b, 6));
    assert(bit32(a, 7) == bit32(b, 7));
    assert(bit32(a, 8) == bit32(b, 8));
    assert(bit32(a, 9) == bit32(b, 9));
    assert(bit32(a, 10) == bit32(b, 10));
    assert(bit32(a, 11) == bit32(b, 11));
    assert(bit32(a, 12) == bit32(b, 12));
    assert(bit32(a, 13) == bit32(b, 13));
    assert(bit32(a, 14) == bit32(b, 14));
    assert(bit32(a, 15) == bit32(b, 15));
    assert(bit32(a, 16) == bit32(b, 16));
    assert(bit32(a, 17) == bit32(b, 17));
    assert(bit32(a, 18) == bit32(b, 18));
    assert(bit32(a, 19) == bit32(b, 19));
    assert(bit32(a, 20) == bit32(b, 20));
    assert(bit32(a, 21) == bit32(b, 21));
    assert(bit32(a, 22) == bit32(b, 22));
    assert(bit32(a, 23) == bit32(b, 23));
    assert(bit32(a, 24) == bit32(b, 24));
    assert(bit32(a, 25) == bit32(b, 25));
    assert(bit32(a, 26) == bit32(b, 26));
    assert(bit32(a, 27) == bit32(b, 27));
    assert(bit32(a, 28) == bit32(b, 28));
    assert(bit32(a, 29) == bit32(b, 29));
    assert(bit32(a, 30) == bit32(b, 30));
    assert(bit32(a, 31) == bit32(b, 31));
    lemma_word_ext(a, b);
}

} // verus!
