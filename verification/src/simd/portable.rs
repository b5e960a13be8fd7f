//! Addressing of distance-table lookups.
//!
//! A distance table is laid out `[dim][num_centroids]`: entry
//! `j * num_centroids + k` scores centroid `k` at coordinate `j`.
use vstd::prelude::*;
use vstd::arithmetic::power2::pow2;
use crate::quant::bitops::{bit32, lemma_low_mask_bit, lemma_low_mask_below, lemma_word_eq_from_bits};
use crate::quant::packed::{is_unpacking, read_bit, unpack_indices, unpack_reads_fit, unpacked_len};

verus! {

/// The table positions that a dot product with the packed codes reads: for
/// coordinate `j`, `j * 2^bit_width` plus the code unpacked for it.
pub fn table_positions(packed: &[u8], bit_width: u8, dim: usize) -> (r: Vec<usize>)
    requires
        unpack_reads_fit(packed.len() as nat, bit_width as nat, dim as nat),
        unpacked_len(packed.len() as nat, bit_width as nat, dim as nat) * pow2(bit_width as nat)
            <= usize::MAX,
    ensures
        exists|codes: Seq<u32>|
            #[trigger] is_unpacking(codes, packed@, bit_width as nat, dim as nat) && r.len()
                == codes.len() && forall|j: int|
                0 <= j < r.len() ==> #[trigger] r[j] == j * pow2(bit_width as nat) + codes[j],
{
    let indices = unpack_indices(packed, bit_width, dim);
    let bw32 = bit_width as u32;
    proof {
        vstd::bits::lemma_u32_pow2_no_overflow(bit_width as nat);
        vstd::bits::lemma_u32_shl_is_mul(1u32, bw32);
        vstd::bits::lemma_usize_pow2_no_overflow(bit_width as nat);
        vstd::bits::lemma_usize_shl_is_mul(1usize, bit_width as usize);
    }
    let num_centroids: usize = 1usize << bit_width as usize;
    let mut r: Vec<usize> = Vec::with_capacity(indices.len());
    let mut j: usize = 0;
    while j < indices.len()
        invariant
            bit_width < 32,
            bw32 == bit_width,
            num_centroids == pow2(bit_width as nat),
            (1u32 << bw32) == pow2(bit_width as nat),
            is_unpacking(indices@, packed@, bit_width as nat, dim as nat),
            indices.len() * pow2(bit_width as nat) <= usize::MAX,
            j <= indices.len(),
            r.len() == j,
            forall|t: int| 0 <= t < j ==> #[trigger] r[t] == t * pow2(bit_width as nat) + indices[t],
        decreases indices.len() - j,
    {
        let idx = indices[j];
        proof {
            let m = (((1u32 << bw32) - 1u32) as u32);
            assert forall|b: u32| b < 32 implies #[trigger] bit32(idx, b) == bit32(idx & m, b) by {
                lemma_low_mask_bit(idx, bw32, b);
                assert(bit32(idx, b) == read_bit(packed@, bit_width as nat, j as int, b as int));
            }
            lemma_word_eq_from_bits(idx, idx & m);
            lemma_low_mask_below(idx, bw32);
            assert((j + 1) * pow2(bit_width as nat) <= indices.len() * pow2(bit_width as nat)) by (nonlinear_arith)
                requires
                    j + 1 <= indices.len(),
            ;
            assert((j + 1) * pow2(bit_width as nat) == j * pow2(bit_width as nat) + pow2(bit_width as nat)) by (nonlinear_arith);
        }
        r.push(j * num_centroids + idx as usize);
        j += 1;
    }
    r
}

} // verus!
