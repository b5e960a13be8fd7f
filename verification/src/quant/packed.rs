//! Packing of b-bit quantization codes into bytes, least significant bit first.
//!
//! Code `i` of a sequence packed at width `bw` occupies the bit positions
//! `i * bw .. (i + 1) * bw` of the byte stream, where bit position `p` is bit
//! `p % 8` of byte `p / 8`.
use vstd::prelude::*;
use vstd::arithmetic::div_mod::{lemma_fundamental_div_mod_converse, lemma_mod_bound};
use crate::quant::bitops::{
    bit32, bit8, lemma_byte_field_bit, lemma_byte_low_field_bit, lemma_byte_masks, lemma_byte_shl_word_bit, lemma_byte_shr_word_bit, lemma_or_word_bit,
    lemma_byte_word_bit, lemma_field_to_byte_bit, lemma_low_field_to_byte_bit, lemma_or_byte_bit,
    lemma_low_mask_bit, lemma_pow_word_pos, lemma_shl_to_byte_bit, lemma_shr_to_byte_bit, lemma_single_bit,
    lemma_word_to_byte_bit, lemma_zero_byte_bit, lemma_bit_of_flag, lemma_below_pow_bit,
    lemma_word_eq_from_bits,
};

verus! {

/// Bit `p` of a byte stream: bit `p % 8` of byte `p / 8`; false past the end.
pub open spec fn stream_bit(bytes: Seq<u8>, p: int) -> bool {
    0 <= p && p < 8 * bytes.len() && bit8(bytes[p / 8], (p % 8) as u32)
}

/// Bit `j` of the code that index `x` is stored as at width `bw`: one-bit
/// packing stores whether `x` is nonzero, every other width stores the low
/// `bw` bits of `x`.
pub open spec fn code_bit(x: u32, bw: nat, j: int) -> bool {
    if bw == 1 {
        j == 0 && x != 0
    } else {
        0 <= j && j < bw && j < 32 && bit32(x, j as u32)
    }
}

/// Number of bytes that hold `n` codes of `bw` bits.
pub open spec fn packed_len(n: nat, bw: nat) -> nat {
    (n * bw + 7) / 8
}

/// The bit that position `p` of the packed stream of `xs` at width `bw` holds.
pub open spec fn expected_bit(xs: Seq<u32>, bw: nat, p: int) -> bool {
    0 <= p && p < xs.len() * bw && code_bit(xs[p / bw as int], bw, p % bw as int)
}

/// `r` is the packing of `xs` at width `bw`.
pub open spec fn is_packing(r: Seq<u8>, xs: Seq<u32>, bw: nat) -> bool {
    &&& r.len() == packed_len(xs.len(), bw)
    &&& forall|p: int| 0 <= p < 8 * r.len() ==> #[trigger] stream_bit(r, p) == expected_bit(xs, bw, p)
}

/// Bit `j` of the `i`-th code read from `packed` at width `bw`.
pub open spec fn read_bit(packed: Seq<u8>, bw: nat, i: int, j: int) -> bool {
    0 <= j && j < bw && stream_bit(packed, i * bw + j)
}

/// Number of codes that unpacking returns: all bytes at width 8, else `count`.
pub open spec fn unpacked_len(n_bytes: nat, bw: nat, count: nat) -> nat {
    if bw == 8 {
        n_bytes
    } else {
        count
    }
}

/// `r` is the unpacking of `count` codes from `packed` at width `bw`.
pub open spec fn is_unpacking(r: Seq<u32>, packed: Seq<u8>, bw: nat, count: nat) -> bool {
    &&& r.len() == unpacked_len(packed.len(), bw, count)
    &&& forall|i: int, j: u32|
        0 <= i < r.len() && j < 32 ==> #[trigger] bit32(r[i], j) == read_bit(packed, bw, i, j as int)
}

/// Whether the sizes that packing `n` codes at width `bw` computes fit in a `usize`.
pub open spec fn pack_sizes_fit(n: nat, bw: nat) -> bool {
    if bw == 1 {
        n + 7 <= usize::MAX
    } else if bw == 2 {
        n + 3 <= usize::MAX
    } else if bw == 4 {
        n + 1 <= usize::MAX
    } else if bw == 8 {
        true
    } else {
        n * bw + 7 <= usize::MAX
    }
}

/// Whether `count` codes of width `bw` can be read from `n_bytes` bytes:
/// every code must start inside the bytes, and the bit offsets must fit in a
/// `usize` where the general reader computes them.
pub open spec fn unpack_reads_fit(n_bytes: nat, bw: nat, count: nat) -> bool {
    &&& bw < 32
    &&& (count == 0 || bw == 8 || ((count - 1) * bw) / 8 < n_bytes)
    &&& (count == 0 || bw == 1 || bw == 2 || bw == 4 || bw == 8 || (count - 1) * bw
        <= usize::MAX)
}

/// Pack a sequence of b-bit indices into a byte vector.
///
/// Each index must be in the range `0..2^bit_width`; an index outside it is
/// stored as its low `bit_width` bits (at width 1: as whether it is nonzero).
pub fn pack_indices(indices: &[u32], bit_width: u8) -> (packed: Vec<u8>)
    requires
        bit_width < 32,
        bit_width >= 1 || indices.len() == 0,
        pack_sizes_fit(indices.len() as nat, bit_width as nat),
    ensures
        is_packing(packed@, indices@, bit_width as nat),
{
    match bit_width {
        1 => pack_1bit(indices),
        2 => pack_2bit(indices),
        4 => pack_4bit(indices),
        8 => {
            let packed = pack_8bit(indices);
            proof {
                assert forall|p: int| 0 <= p < 8 * packed.len() implies #[trigger] stream_bit(
                    packed@,
                    p,
                ) == expected_bit(indices@, 8, p) by {
                    assert((p / 8 * 8) % 8 == 0);
                }
            }
            packed
        },
        _ => {
            let packed = pack_general(indices, bit_width);
            proof {
                let bw = bit_width as nat;
                assert forall|p: int| 0 <= p < 8 * packed.len() implies #[trigger] stream_bit(
                    packed@,
                    p,
                ) == expected_bit(indices@, bw, p) by {
                    if bw > 0 {
                        lemma_mod_bound(p, bw as int);
                    }
                }
            }
            packed
        },
    }
}

/// Unpack b-bit indices from a packed byte vector.
///
/// Reads `count` codes; at width 8 every byte is one code and `count` is not
/// consulted.
pub fn unpack_indices(packed: &[u8], bit_width: u8, count: usize) -> (out: Vec<u32>)
    requires
        unpack_reads_fit(packed.len() as nat, bit_width as nat, count as nat),
    ensures
        is_unpacking(out@, packed@, bit_width as nat, count as nat),
{
    match bit_width {
        1 => unpack_1bit(packed, count),
        2 => unpack_2bit(packed, count),
        4 => unpack_4bit(packed, count),
        8 => unpack_8bit(packed),
        _ => unpack_general(packed, bit_width, count),
    }
}

/// `r` holds one bit per flag of `signs`, set for `true`, and no other set bit.
pub open spec fn is_sign_packing(r: Seq<u8>, signs: Seq<bool>) -> bool {
    &&& r.len() == (signs.len() + 7) / 8
    &&& forall|p: int|
        0 <= p < 8 * r.len() ==> #[trigger] stream_bit(r, p) == (p < signs.len() && signs[p])
}

/// `r` holds the first `count` bits of `packed`.
pub open spec fn is_sign_unpacking(r: Seq<bool>, packed: Seq<u8>, count: nat) -> bool {
    &&& r.len() == count
    &&& forall|i: int| 0 <= i < count ==> #[trigger] r[i] == stream_bit(packed, i)
}

/// Pack sign flags, one bit each, set for `true`.
pub fn pack_sign_bits(signs: &[bool]) -> (packed: Vec<u8>)
    requires
        signs.len() + 7 <= usize::MAX,
    ensures
        is_sign_packing(packed@, signs@),
{
    let n_bytes = (signs.len() + 7) / 8;
    let mut packed = zeroed_bytes(n_bytes);
    let mut i: usize = 0;
    while i < signs.len()
        invariant
            i <= signs.len(),
            n_bytes == (signs.len() + 7) / 8,
            packed.len() == n_bytes,
            forall|p: int|
                0 <= p < 8 * n_bytes ==> #[trigger] stream_bit(packed@, p) == (p < i && signs[p]),
        decreases signs.len() - i,
    {
        if signs[i] {
            let k = i / 8;
            let sh = (i % 8) as u32;
            let ghost before = packed@;
            packed[k] = packed[k] | (1u8 << sh);
            proof {
                lemma_or_into_byte(before, packed@, k as int, 1u8 << sh);
                assert forall|p: int| 0 <= p < 8 * n_bytes implies #[trigger] stream_bit(packed@, p)
                    == (p < i + 1 && signs[p]) by {
                    if p / 8 == k {
                        lemma_single_bit(sh, (p % 8) as u32);
                    }
                }
            }
        }
        i += 1;
    }
    packed
}

/// Unpack `count` sign flags: `true` where the bit is set.
pub fn unpack_sign_bits(packed: &[u8], count: usize) -> (out: Vec<bool>)
    requires
        count <= 8 * packed.len(),
    ensures
        is_sign_unpacking(out@, packed@, count as nat),
{
    let mut out: Vec<bool> = Vec::with_capacity(count);
    let mut i: usize = 0;
    while i < count
        invariant
            i <= count,
            count <= 8 * packed.len(),
            out.len() == i,
            forall|a: int| 0 <= a < i ==> #[trigger] out[a] == stream_bit(packed@, a),
        decreases count - i,
    {
        let bit = (packed[i / 8] >> ((i % 8) as u32)) & 1;
        out.push(bit == 1);
        i += 1;
    }
    out
}

/// Every index of `xs` is below `2^bw`.
pub open spec fn codes_below_width(xs: Seq<u32>, bw: nat) -> bool {
    forall|i: int| 0 <= i < xs.len() ==> (#[trigger] xs[i] as int) < vstd::arithmetic::power2::pow2(bw)
}

/// Unpacking what packing produced gives back the indices, at every width
/// below 32, when each index is below `2^bw`; and whatever packing accepts,
/// unpacking can read back.
pub proof fn lemma_pack_unpack_roundtrip(xs: Seq<u32>, bw: nat)
    requires
        1 <= bw < 32,
        codes_below_width(xs, bw),
    ensures
        forall|packed: Seq<u8>, out: Seq<u32>|
            is_packing(packed, xs, bw) && #[trigger] is_unpacking(out, packed, bw, xs.len())
                ==> out == xs,
        pack_sizes_fit(xs.len(), bw) ==> forall|packed: Seq<u8>|
            #[trigger] is_packing(packed, xs, bw) ==> unpack_reads_fit(packed.len(), bw, xs.len()),
{
    assert forall|packed: Seq<u8>, out: Seq<u32>|
        is_packing(packed, xs, bw) && #[trigger] is_unpacking(out, packed, bw, xs.len())
            implies out == xs by {
        assert(out.len() == xs.len());
        assert forall|i: int| 0 <= i < xs.len() implies out[i] == xs[i] by {
            assert((i + 1) * bw <= xs.len() * bw) by (nonlinear_arith)
                requires
                    i + 1 <= xs.len(),
            ;
            assert((i + 1) * bw == i * bw + bw) by (nonlinear_arith);
            vstd::arithmetic::power2::lemma2_to64();
            vstd::bits::lemma_u32_pow2_no_overflow(bw);
            vstd::bits::lemma_u32_shl_is_mul(1u32, bw as u32);
            assert forall|j: u32| j < 32 implies #[trigger] bit32(out[i], j) == bit32(xs[i], j) by {
                if j < bw {
                    let p = i * bw + j;
                    lemma_code_position(i, bw as int, i * bw, p);
                    assert(stream_bit(packed, p) == expected_bit(xs, bw, p));
                    if bw == 1 {
                        lemma_bit_of_flag(xs[i]);
                    }
                } else {
                    lemma_below_pow_bit(xs[i], bw as u32, j);
                }
            }
            lemma_word_eq_from_bits(out[i], xs[i]);
        }
    }
    if pack_sizes_fit(xs.len(), bw) {
        assert forall|packed: Seq<u8>| #[trigger] is_packing(packed, xs, bw) implies unpack_reads_fit(
            packed.len(),
            bw,
            xs.len(),
        ) by {
            lemma_packing_is_readable(xs, bw, packed);
        }
    }
}

/// Packed bytes hold every code that was packed, so they can be read back.
pub proof fn lemma_packing_is_readable(xs: Seq<u32>, bw: nat, packed: Seq<u8>)
    requires
        1 <= bw < 32,
        is_packing(packed, xs, bw),
        pack_sizes_fit(xs.len(), bw),
    ensures
        unpack_reads_fit(packed.len(), bw, xs.len()),
{
    if xs.len() > 0 {
        assert((xs.len() - 1) * bw <= xs.len() * bw) by (nonlinear_arith)
            requires
                xs.len() >= 1,
        ;
        assert((xs.len() - 1) * bw + bw == xs.len() * bw) by (nonlinear_arith);
    }
}

/// Unpacking the sign bits that packing produced gives back the flags.
pub proof fn lemma_sign_roundtrip(signs: Seq<bool>)
    ensures
        forall|packed: Seq<u8>, out: Seq<bool>|
            is_sign_packing(packed, signs) && #[trigger] is_sign_unpacking(
                out,
                packed,
                signs.len(),
            ) ==> out == signs,
{
    assert forall|packed: Seq<u8>, out: Seq<bool>|
        is_sign_packing(packed, signs) && #[trigger] is_sign_unpacking(out, packed, signs.len())
            implies out == signs by {
        assert forall|i: int| 0 <= i < signs.len() implies out[i] == signs[i] by {
            assert(stream_bit(packed, i) == (i < signs.len() && signs[i]));
        }
    }
}

/// Every bit of a zeroed stream is clear.
proof fn lemma_zero_stream(bytes: Seq<u8>)
    requires
        forall|k: int| 0 <= k < bytes.len() ==> bytes[k] == 0u8,
    ensures
        forall|p: int| !#[trigger] stream_bit(bytes, p),
{
    assert forall|p: int| !#[trigger] stream_bit(bytes, p) by {
        if 0 <= p && p < 8 * bytes.len() {
            lemma_zero_byte_bit((p % 8) as u32);
        }
    }
}

/// Or-ing `c` into byte `k` sets exactly the stream bits of `c` at that byte.
proof fn lemma_or_into_byte(old: Seq<u8>, new: Seq<u8>, k: int, c: u8)
    requires
        0 <= k < old.len(),
        new == old.update(k, old[k] | c),
    ensures
        forall|p: int| #[trigger]
            stream_bit(new, p) == (stream_bit(old, p) || (0 <= p && p / 8 == k && bit8(
                c,
                (p % 8) as u32,
            ))),
{
    assert forall|p: int| #[trigger]
        stream_bit(new, p) == (stream_bit(old, p) || (0 <= p && p / 8 == k && bit8(
            c,
            (p % 8) as u32,
        ))) by {
        if 0 <= p && p / 8 == k {
            lemma_or_byte_bit(old[k], c, (p % 8) as u32);
        }
    }
}

fn zeroed_bytes(n: usize) -> (v: Vec<u8>)
    ensures
        v.len() == n,
        forall|k: int| 0 <= k < n ==> v[k] == 0u8,
        forall|p: int| !#[trigger] stream_bit(v@, p),
{
    let v = vec![0u8; n];
    proof {
        lemma_zero_stream(v@);
    }
    v
}

// ---- 1-bit packing (8 indices per byte) ----

fn pack_1bit(indices: &[u32]) -> (packed: Vec<u8>)
    requires
        indices.len() + 7 <= usize::MAX,
    ensures
        is_packing(packed@, indices@, 1),
{
    let n_bytes = (indices.len() + 7) / 8;
    let mut packed = zeroed_bytes(n_bytes);
    let mut i: usize = 0;
    while i < indices.len()
        invariant
            i <= indices.len(),
            n_bytes == (indices.len() + 7) / 8,
            packed.len() == n_bytes,
            forall|p: int|
                0 <= p < 8 * n_bytes ==> #[trigger] stream_bit(packed@, p) == (p < i
                    && indices[p] != 0),
        decreases indices.len() - i,
    {
        let idx = indices[i];
        if idx != 0 {
            let k = i / 8;
            let sh = (i % 8) as u32;
            let ghost before = packed@;
            packed[k] = packed[k] | (1u8 << sh);
            proof {
                lemma_or_into_byte(before, packed@, k as int, 1u8 << sh);
                assert forall|p: int| 0 <= p < 8 * n_bytes implies #[trigger] stream_bit(packed@, p)
                    == (p < i + 1 && indices[p] != 0) by {
                    if p / 8 == k {
                        lemma_single_bit(sh, (p % 8) as u32);
                    }
                }
            }
        }
        i += 1;
    }
    proof {
        assert forall|p: int| 0 <= p < 8 * packed.len() implies #[trigger] stream_bit(packed@, p)
            == expected_bit(indices@, 1, p) by {
            assert(p / 1 == p);
            assert(p % 1 == 0);
        }
    }
    packed
}

fn unpack_1bit(packed: &[u8], count: usize) -> (out: Vec<u32>)
    requires
        count <= 8 * packed.len(),
    ensures
        is_unpacking(out@, packed@, 1, count as nat),
{
    let mut out: Vec<u32> = Vec::with_capacity(count);
    let mut i: usize = 0;
    proof {
        lemma_byte_masks();
    }
    while i < count
        invariant
            i <= count,
            count <= 8 * packed.len(),
            out.len() == i,
            (((1u8 << 1u32) - 1u8) as u8) == 1u8,
            forall|a: int, j: u32|
                0 <= a < i && j < 32 ==> #[trigger] bit32(out[a], j) == read_bit(
                    packed@,
                    1,
                    a,
                    j as int,
                ),
        decreases count - i,
    {
        let b = packed[i / 8];
        let sh = (i % 8) as u32;
        let v = ((b >> sh) & 1) as u32;
        proof {
            assert forall|j: u32| j < 32 implies #[trigger] bit32(v, j) == read_bit(
                packed@,
                1,
                i as int,
                j as int,
            ) by {
                lemma_byte_field_bit(b, 1u8, 1, sh, j);
            }
        }
        out.push(v);
        i += 1;
    }
    out
}

// ---- 2-bit packing (4 indices per byte) ----

fn pack_2bit(indices: &[u32]) -> (packed: Vec<u8>)
    requires
        indices.len() + 3 <= usize::MAX,
    ensures
        is_packing(packed@, indices@, 2),
{
    let n_bytes = (indices.len() + 3) / 4;
    let mut packed = zeroed_bytes(n_bytes);
    let mut i: usize = 0;
    proof {
        lemma_byte_masks();
    }
    while i < indices.len()
        invariant
            i <= indices.len(),
            n_bytes == (indices.len() + 3) / 4,
            packed.len() == n_bytes,
            (((1u8 << 2u32) - 1u8) as u8) == 3u8,
            forall|p: int|
                0 <= p < 8 * n_bytes ==> #[trigger] stream_bit(packed@, p) == (p < 2 * i
                    && bit32(indices[p / 2], (p % 2) as u32)),
        decreases indices.len() - i,
    {
        let idx = indices[i];
        let byte_idx = i / 4;
        let shift = ((i % 4) * 2) as u32;
        let c = ((idx as u8) & 0x03) << shift;
        let ghost before = packed@;
        packed[byte_idx] = packed[byte_idx] | c;
        proof {
            lemma_or_into_byte(before, packed@, byte_idx as int, c);
            assert forall|p: int| 0 <= p < 8 * n_bytes implies #[trigger] stream_bit(packed@, p) == (
            p < 2 * (i + 1) && bit32(indices[p / 2], (p % 2) as u32)) by {
                if p / 8 == byte_idx {
                    lemma_field_to_byte_bit(idx, 3u8, 2, shift, (p % 8) as u32);
                }
            }
        }
        i += 1;
    }
    packed
}

fn unpack_2bit(packed: &[u8], count: usize) -> (out: Vec<u32>)
    requires
        count <= 4 * packed.len(),
    ensures
        is_unpacking(out@, packed@, 2, count as nat),
{
    let mut out: Vec<u32> = Vec::with_capacity(count);
    let mut i: usize = 0;
    proof {
        lemma_byte_masks();
    }
    while i < count
        invariant
            i <= count,
            count <= 4 * packed.len(),
            out.len() == i,
            (((1u8 << 2u32) - 1u8) as u8) == 3u8,
            forall|a: int, j: u32|
                0 <= a < i && j < 32 ==> #[trigger] bit32(out[a], j) == read_bit(
                    packed@,
                    2,
                    a,
                    j as int,
                ),
        decreases count - i,
    {
        let byte_idx = i / 4;
        let shift = ((i % 4) * 2) as u32;
        let v = ((packed[byte_idx] >> shift) & 0x03) as u32;
        proof {
            assert forall|j: u32| j < 32 implies #[trigger] bit32(v, j) == read_bit(
                packed@,
                2,
                i as int,
                j as int,
            ) by {
                lemma_byte_field_bit(packed[byte_idx as int], 3u8, 2, shift, j);
            }
        }
        out.push(v);
        i += 1;
    }
    out
}

// ---- 4-bit packing (2 indices per byte, nibbles) ----

fn pack_4bit(indices: &[u32]) -> (packed: Vec<u8>)
    requires
        indices.len() + 1 <= usize::MAX,
    ensures
        is_packing(packed@, indices@, 4),
{
    let n_bytes = (indices.len() + 1) / 2;
    let mut packed = zeroed_bytes(n_bytes);
    let mut i: usize = 0;
    proof {
        lemma_byte_masks();
    }
    while i < indices.len()
        invariant
            i <= indices.len(),
            n_bytes == (indices.len() + 1) / 2,
            packed.len() == n_bytes,
            (((1u8 << 4u32) - 1u8) as u8) == 15u8,
            forall|p: int|
                0 <= p < 8 * n_bytes ==> #[trigger] stream_bit(packed@, p) == (p < 4 * i
                    && bit32(indices[p / 4], (p % 4) as u32)),
        decreases indices.len() - i,
    {
        let idx = indices[i];
        let byte_idx = i / 2;
        let ghost before = packed@;
        if i % 2 == 0 {
            let c = (idx as u8) & 0x0F;
            packed[byte_idx] = packed[byte_idx] | c;
            proof {
                lemma_or_into_byte(before, packed@, byte_idx as int, c);
                assert forall|p: int| 0 <= p < 8 * n_bytes implies #[trigger] stream_bit(
                    packed@,
                    p,
                ) == (p < 4 * (i + 1) && bit32(indices[p / 4], (p % 4) as u32)) by {
                    if p / 8 == byte_idx {
                        lemma_low_field_to_byte_bit(idx, 15u8, 4, (p % 8) as u32);
                    }
                }
            }
        } else {
            let c = ((idx as u8) & 0x0F) << 4u32;
            packed[byte_idx] = packed[byte_idx] | c;
            proof {
                lemma_or_into_byte(before, packed@, byte_idx as int, c);
                assert forall|p: int| 0 <= p < 8 * n_bytes implies #[trigger] stream_bit(
                    packed@,
                    p,
                ) == (p < 4 * (i + 1) && bit32(indices[p / 4], (p % 4) as u32)) by {
                    if p / 8 == byte_idx {
                        lemma_field_to_byte_bit(idx, 15u8, 4, 4, (p % 8) as u32);
                    }
                }
            }
        }
        i += 1;
    }
    packed
}

fn unpack_4bit(packed: &[u8], count: usize) -> (out: Vec<u32>)
    requires
        count <= 2 * packed.len(),
    ensures
        is_unpacking(out@, packed@, 4, count as nat),
{
    let mut out: Vec<u32> = Vec::with_capacity(count);
    let mut i: usize = 0;
    proof {
        lemma_byte_masks();
    }
    while i < count
        invariant
            i <= count,
            count <= 2 * packed.len(),
            out.len() == i,
            (((1u8 << 4u32) - 1u8) as u8) == 15u8,
            forall|a: int, j: u32|
                0 <= a < i && j < 32 ==> #[trigger] bit32(out[a], j) == read_bit(
                    packed@,
                    4,
                    a,
                    j as int,
                ),
        decreases count - i,
    {
        let byte_idx = i / 2;
        let b = packed[byte_idx];
        let v = if i % 2 == 0 {
            (b & 0x0F) as u32
        } else {
            ((b >> 4u32) & 0x0F) as u32
        };
        proof {
            assert forall|j: u32| j < 32 implies #[trigger] bit32(v, j) == read_bit(
                packed@,
                4,
                i as int,
                j as int,
            ) by {
                if i % 2 == 0 {
                    lemma_byte_low_field_bit(b, 15u8, 4, j);
                } else {
                    lemma_byte_field_bit(b, 15u8, 4, 4, j);
                }
            }
        }
        out.push(v);
        i += 1;
    }
    out
}

// ---- 8-bit packing (one index per byte) ----

fn pack_8bit(indices: &[u32]) -> (packed: Vec<u8>)
    ensures
        packed.len() == indices.len(),
        forall|p: int|
            0 <= p < 8 * packed.len() ==> #[trigger] stream_bit(packed@, p) == bit32(
                indices[p / 8],
                (p % 8) as u32,
            ),
{
    let mut packed: Vec<u8> = Vec::with_capacity(indices.len());
    let mut i: usize = 0;
    while i < indices.len()
        invariant
            i <= indices.len(),
            packed.len() == i,
            forall|k: int, t: u32|
                0 <= k < i && t < 8 ==> #[trigger] bit8(packed[k], t) == bit32(indices[k], t),
        decreases indices.len() - i,
    {
        let b = indices[i] as u8;
        proof {
            assert forall|t: u32| t < 8 implies #[trigger] bit8(b, t) == bit32(indices[i as int], t) by {
                lemma_word_to_byte_bit(indices[i as int], t);
            }
        }
        packed.push(b);
        i += 1;
    }
    proof {
        assert forall|p: int| 0 <= p < 8 * packed.len() implies #[trigger] stream_bit(packed@, p)
            == bit32(indices[p / 8], (p % 8) as u32) by {
            assert(bit8(packed[p / 8], (p % 8) as u32) == bit32(indices[p / 8], (p % 8) as u32));
        }
    }
    packed
}

fn unpack_8bit(packed: &[u8]) -> (out: Vec<u32>)
    ensures
        is_unpacking(out@, packed@, 8, packed.len() as nat),
{
    let mut out: Vec<u32> = Vec::with_capacity(packed.len());
    let mut i: usize = 0;
    while i < packed.len()
        invariant
            i <= packed.len(),
            out.len() == i,
            forall|a: int, j: u32|
                0 <= a < i && j < 32 ==> #[trigger] bit32(out[a], j) == read_bit(
                    packed@,
                    8,
                    a,
                    j as int,
                ),
        decreases packed.len() - i,
    {
        let b = packed[i];
        let v = b as u32;
        proof {
            assert forall|j: u32| j < 32 implies #[trigger] bit32(v, j) == read_bit(
                packed@,
                8,
                i as int,
                j as int,
            ) by {
                lemma_byte_word_bit(b, j);
            }
        }
        out.push(v);
        i += 1;
    }
    out
}

// ---- General bit-stream packing ----

/// Bit `p` of the stream that holds the low `bw` bits of each of `xs`.
spec fn masked_bit(xs: Seq<u32>, bw: nat, p: int) -> bool {
    0 <= p && p < xs.len() * bw && (p % bw as int) < 32 && bit32(
        xs[p / bw as int],
        (p % bw as int) as u32,
    )
}

/// Bit `p - o` of `val`, for `o <= p < o + 32`.
spec fn shifted_bit(val: u32, o: int, p: int) -> bool {
    o <= p && p - o < 32 && bit32(val, (p - o) as u32)
}

/// Positions `o .. o + bw` with `o == i * bw` are the bits of code `i`.
proof fn lemma_code_position(i: int, bw: int, o: int, p: int)
    requires
        bw > 0,
        o == i * bw,
        o <= p < o + bw,
    ensures
        p / bw == i,
        p % bw == p - o,
{
    lemma_fundamental_div_mod_converse(p, bw, i, p - o);
}

/// One step of general packing: code `i` at bit offset `o` is or-ed into the
/// bytes that hold bits `o .. o + 24` of the stream.
proof fn lemma_general_step(
    a0: Seq<u8>,
    a3: Seq<u8>,
    xs: Seq<u32>,
    bw: nat,
    i: int,
    o: int,
    val: u32,
    w1: bool,
    w2: bool,
    w3: bool,
    w4: bool,
)
    requires
        1 <= bw < 32,
        0 <= i < xs.len(),
        o == i * bw,
        o + bw <= xs.len() * bw,
        a0.len() == a3.len(),
        w1 == (o % 8 + bw > 8 && o / 8 + 1 < a0.len()),
        w2 == (o % 8 + bw > 16 && o / 8 + 2 < a0.len()),
        w3 == (o % 8 + bw > 24 && o / 8 + 3 < a0.len()),
        w4 == (o % 8 + bw > 32 && o / 8 + 4 < a0.len()),
        forall|j: u32| j < 32 ==> #[trigger] bit32(val, j) == (j < bw && bit32(xs[i], j)),
        forall|p: int|
            0 <= p < 8 * a0.len() ==> #[trigger] stream_bit(a0, p) == (p < o && masked_bit(
                xs,
                bw,
                p,
            )),
        forall|p: int| #[trigger]
            stream_bit(a3, p) == (stream_bit(a0, p) || (0 <= p && (p / 8 == o / 8 || (w1 && p / 8
                == o / 8 + 1) || (w2 && p / 8 == o / 8 + 2) || (w3 && p / 8 == o / 8 + 3) || (w4
                && p / 8 == o / 8 + 4)) && shifted_bit(val, o, p))),
    ensures
        forall|p: int|
            0 <= p < 8 * a3.len() ==> #[trigger] stream_bit(a3, p) == (p < o + bw && masked_bit(
                xs,
                bw,
                p,
            )),
{
    assert forall|p: int| 0 <= p < 8 * a3.len() implies #[trigger] stream_bit(a3, p) == (p < o
        + bw && masked_bit(xs, bw, p)) by {
        assert(stream_bit(a0, p) == (p < o && masked_bit(xs, bw, p)));
        if o <= p && p < o + bw {
            lemma_code_position(i, bw as int, o, p);
            assert(bit32(val, (p - o) as u32) == bit32(xs[i], (p - o) as u32));
        } else if p >= o + bw && p - o < 32 {
            assert(!bit32(val, (p - o) as u32));
        }
    }
}

fn pack_general(indices: &[u32], bit_width: u8) -> (packed: Vec<u8>)
    requires
        bit_width < 32,
        bit_width >= 1 || indices.len() == 0,
        indices.len() * bit_width + 7 <= usize::MAX,
    ensures
        packed.len() == packed_len(indices.len() as nat, bit_width as nat),
        forall|p: int|
            0 <= p < 8 * packed.len() ==> #[trigger] stream_bit(packed@, p) == masked_bit(
                indices@,
                bit_width as nat,
                p,
            ),
{
    let total_bits = indices.len() * bit_width as usize;
    let n_bytes = (total_bits + 7) / 8;
    let mut packed = zeroed_bytes(n_bytes);
    let bw = bit_width as usize;
    let bw32 = bit_width as u32;
    proof {
        lemma_pow_word_pos(bw32);
    }
    let mask: u32 = (1u32 << bw32) - 1;
    let mut i: usize = 0;
    while i < indices.len()
        invariant
            bw == bit_width,
            bw32 == bit_width,
            bit_width < 32,
            bit_width >= 1 || indices.len() == 0,
            mask == ((1u32 << bw32) - 1u32) as u32,
            i <= indices.len(),
            total_bits == indices.len() * bw,
            n_bytes == (total_bits + 7) / 8,
            n_bytes <= usize::MAX,
            total_bits + 7 <= usize::MAX,
            packed.len() == n_bytes,
            forall|p: int|
                0 <= p < 8 * n_bytes ==> #[trigger] stream_bit(packed@, p) == (p < i * bw
                    && masked_bit(indices@, bw as nat, p)),
        decreases indices.len() - i,
    {
        proof {
            assert((i + 1) * bw <= indices.len() * bw) by (nonlinear_arith)
                requires
                    i + 1 <= indices.len(),
            ;
            assert((i + 1) * bw == i * bw + bw) by (nonlinear_arith);
        }
        let idx = indices[i];
        let bit_offset = i * bw;
        let byte_offset = bit_offset / 8;
        let bit_shift = bit_offset % 8;
        let sh32 = bit_shift as u32;
        let val = idx & mask;
        proof {
            assert forall|j: u32| j < 32 implies #[trigger] bit32(val, j) == (j < bw && bit32(idx, j))
                by {
                lemma_low_mask_bit(idx, bw32, j);
            }
        }
        let ghost a0 = packed@;
        let c0 = (val << sh32) as u8;
        packed[byte_offset] = packed[byte_offset] | c0;
        proof {
            lemma_or_into_byte(a0, packed@, byte_offset as int, c0);
            assert forall|p: int| 0 <= p && p / 8 == byte_offset implies #[trigger] bit8(
                c0,
                (p % 8) as u32,
            ) == shifted_bit(val, bit_offset as int, p) by {
                lemma_shl_to_byte_bit(val, sh32, (p % 8) as u32);
            }
        }
        let ghost a1 = packed@;
        let w1 = bit_shift + bw > 8 && byte_offset + 1 < n_bytes;
        if w1 {
            let c1 = (val >> (8 - sh32)) as u8;
            packed[byte_offset + 1] = packed[byte_offset + 1] | c1;
            proof {
                lemma_or_into_byte(a1, packed@, byte_offset + 1, c1);
                assert forall|p: int| 0 <= p && p / 8 == byte_offset + 1 implies #[trigger] bit8(
                    c1,
                    (p % 8) as u32,
                ) == shifted_bit(val, bit_offset as int, p) by {
                    lemma_shr_to_byte_bit(val, (8 - sh32) as u32, (p % 8) as u32);
                }
            }
        }
        let ghost a2 = packed@;
        let w2 = bit_shift + bw > 16 && byte_offset + 2 < n_bytes;
        if w2 {
            let c2 = (val >> (16 - sh32)) as u8;
            packed[byte_offset + 2] = packed[byte_offset + 2] | c2;
            proof {
                lemma_or_into_byte(a2, packed@, byte_offset + 2, c2);
                assert forall|p: int| 0 <= p && p / 8 == byte_offset + 2 implies #[trigger] bit8(
                    c2,
                    (p % 8) as u32,
                ) == shifted_bit(val, bit_offset as int, p) by {
                    lemma_shr_to_byte_bit(val, (16 - sh32) as u32, (p % 8) as u32);
                }
            }
        }
        let ghost a3 = packed@;
        let w3 = bit_shift + bw > 24 && byte_offset + 3 < n_bytes;
        if w3 {
            let c3 = (val >> (24 - sh32)) as u8;
            packed[byte_offset + 3] = packed[byte_offset + 3] | c3;
            proof {
                lemma_or_into_byte(a3, packed@, byte_offset + 3, c3);
                assert forall|p: int| 0 <= p && p / 8 == byte_offset + 3 implies #[trigger] bit8(
                    c3,
                    (p % 8) as u32,
                ) == shifted_bit(val, bit_offset as int, p) by {
                    lemma_shr_to_byte_bit(val, (24 - sh32) as u32, (p % 8) as u32);
                }
            }
        }
        let ghost a4 = packed@;
        let w4 = bit_shift + bw > 32 && byte_offset + 4 < n_bytes;
        if w4 {
            let c4 = (val >> (32 - sh32)) as u8;
            packed[byte_offset + 4] = packed[byte_offset + 4] | c4;
            proof {
                lemma_or_into_byte(a4, packed@, byte_offset + 4, c4);
                assert forall|p: int| 0 <= p && p / 8 == byte_offset + 4 implies #[trigger] bit8(
                    c4,
                    (p % 8) as u32,
                ) == shifted_bit(val, bit_offset as int, p) by {
                    lemma_shr_to_byte_bit(val, (32 - sh32) as u32, (p % 8) as u32);
                }
            }
        }
        proof {
            assert forall|p: int| #[trigger]
                stream_bit(packed@, p) == (stream_bit(a0, p) || (0 <= p && (p / 8 == byte_offset
                    || (w1 && p / 8 == byte_offset + 1) || (w2 && p / 8 == byte_offset + 2) || (w3
                    && p / 8 == byte_offset + 3) || (w4 && p / 8 == byte_offset + 4))
                    && shifted_bit(val, bit_offset as int, p))) by {
                assert(stream_bit(a1, p) == (stream_bit(a0, p) || (0 <= p && p / 8 == byte_offset
                    && shifted_bit(val, bit_offset as int, p))));
            }
            lemma_general_step(
                a0,
                packed@,
                indices@,
                bw as nat,
                i as int,
                bit_offset as int,
                val,
                w1,
                w2,
                w3,
                w4,
            );
        }
        i += 1;
    }
    packed
}

fn unpack_general(packed: &[u8], bit_width: u8, count: usize) -> (out: Vec<u32>)
    requires
        bit_width < 32,
        count == 0 || ((count - 1) * bit_width) / 8 < packed.len(),
        count == 0 || (count - 1) * bit_width <= usize::MAX,
    ensures
        out.len() == count,
        forall|i: int, j: u32|
            0 <= i < count && j < 32 ==> #[trigger] bit32(out[i], j) == read_bit(
                packed@,
                bit_width as nat,
                i,
                j as int,
            ),
{
    let mut out: Vec<u32> = Vec::with_capacity(count);
    let bw = bit_width as usize;
    let bw32 = bit_width as u32;
    proof {
        lemma_pow_word_pos(bw32);
    }
    let mask: u32 = (1u32 << bw32) - 1;
    let mut i: usize = 0;
    while i < count
        invariant
            bw == bit_width,
            bw32 == bit_width,
            bit_width < 32,
            count == 0 || ((count - 1) * bit_width) / 8 < packed.len(),
            count == 0 || (count - 1) * bit_width <= usize::MAX,
            mask == ((1u32 << bw32) - 1u32) as u32,
            i <= count,
            out.len() == i,
            forall|a: int, j: u32|
                0 <= a < i && j < 32 ==> #[trigger] bit32(out[a], j) == read_bit(
                    packed@,
                    bw as nat,
                    a,
                    j as int,
                ),
        decreases count - i,
    {
        proof {
            assert(i * bw <= (count - 1) * bw) by (nonlinear_arith)
                requires
                    i <= count - 1,
            ;
        }
        let bit_offset = i * bw;
        let byte_offset = bit_offset / 8;
        let bit_shift = bit_offset % 8;
        let sh32 = bit_shift as u32;
        let b0 = packed[byte_offset];
        let v0 = (b0 as u32) >> sh32;
        let mut val = v0;
        let ghost o = bit_offset as int;
        proof {
            assert forall|j: u32| j < 32 implies #[trigger] bit32(v0, j) == (j + sh32 < 8
                && stream_bit(packed@, o + j)) by {
                lemma_byte_shr_word_bit(b0, sh32, j);
            }
        }
        let w1 = bit_shift + bw > 8 && byte_offset + 1 < packed.len();
        if w1 {
            let b1 = packed[byte_offset + 1];
            let v1 = (b1 as u32) << (8 - sh32);
            let ghost before = val;
            val = val | v1;
            proof {
                assert forall|j: u32| j < 32 implies #[trigger] bit32(val, j) == (bit32(before, j)
                    || (8 - sh32 <= j && j < 16 - sh32 && stream_bit(packed@, o + j))) by {
                    lemma_or_word_bit(before, v1, j);
                    lemma_byte_shl_word_bit(b1, (8 - sh32) as u32, j);
                }
            }
        }
        let ghost val1 = val;
        let w2 = bit_shift + bw > 16 && byte_offset + 2 < packed.len();
        if w2 {
            let b2 = packed[byte_offset + 2];
            let v2 = (b2 as u32) << (16 - sh32);
            val = val | v2;
            proof {
                assert forall|j: u32| j < 32 implies #[trigger] bit32(val, j) == (bit32(val1, j)
                    || (16 - sh32 <= j && j < 24 - sh32 && stream_bit(packed@, o + j))) by {
                    lemma_or_word_bit(val1, v2, j);
                    lemma_byte_shl_word_bit(b2, (16 - sh32) as u32, j);
                }
            }
        }
        let ghost val2 = val;
        let w3 = bit_shift + bw > 24 && byte_offset + 3 < packed.len();
        if w3 {
            let b3 = packed[byte_offset + 3];
            let v3 = (b3 as u32) << (24 - sh32);
            val = val | v3;
            proof {
                assert forall|j: u32| j < 32 implies #[trigger] bit32(val, j) == (bit32(val2, j)
                    || (24 - sh32 <= j && j < 32 - sh32 && stream_bit(packed@, o + j))) by {
                    lemma_or_word_bit(val2, v3, j);
                    lemma_byte_shl_word_bit(b3, (24 - sh32) as u32, j);
                }
            }
        }
        let ghost val3 = val;
        let w4 = bit_shift + bw > 32 && byte_offset + 4 < packed.len();
        if w4 {
            let b4 = packed[byte_offset + 4];
            let v4 = (b4 as u32) << (32 - sh32);
            val = val | v4;
            proof {
                assert forall|j: u32| j < 32 implies #[trigger] bit32(val, j) == (bit32(val3, j)
                    || (32 - sh32 <= j && j < 40 - sh32 && stream_bit(packed@, o + j))) by {
                    lemma_or_word_bit(val3, v4, j);
                    lemma_byte_shl_word_bit(b4, (32 - sh32) as u32, j);
                }
            }
        }
        let code = val & mask;
        proof {
            assert((i as int * bw) % 8 == sh32);
            assert forall|j: u32| j < 32 implies #[trigger] bit32(code, j) == read_bit(
                packed@,
                bw as nat,
                i as int,
                j as int,
            ) by {
                lemma_low_mask_bit(val, bw32, j);
                if j < bw {
                    assert(bit32(val1, j) == ((j + sh32 < 8 || (w1 && j < 16 - sh32))
                        && stream_bit(packed@, o + j)));
                    assert(bit32(val2, j) == ((j + sh32 < 8 || (w1 && j < 16 - sh32) || (w2 && j
                        < 24 - sh32)) && stream_bit(packed@, o + j)));
                    assert(bit32(val3, j) == ((j + sh32 < 8 || (w1 && j < 16 - sh32) || (w2 && j
                        < 24 - sh32) || (w3 && j < 32 - sh32)) && stream_bit(packed@, o + j)));
                    assert(bit32(val, j) == ((j + sh32 < 8 || (w1 && j < 16 - sh32) || (w2 && j
                        < 24 - sh32) || (w3 && j < 32 - sh32) || (w4 && j < 40 - sh32))
                        && stream_bit(packed@, o + j)));
                }
            }
        }
        out.push(code);
        i += 1;
    }
    out
}

} // verus!
