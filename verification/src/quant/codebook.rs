//! Scalar quantization against a codebook's decision boundaries.
//!
//! Boundaries and values are handled as `u32` keys whose integer order is the
//! order of the values they stand for; the code of a value is the index of
//! the cell between two boundaries that holds it.
use vstd::prelude::*;

verus! {

/// Keys never decrease along `b`.
pub open spec fn nondecreasing(b: Seq<u32>) -> bool {
    forall|i: int, j: int| 0 <= i <= j < b.len() ==> #[trigger] b[i] <= #[trigger] b[j]
}

/// `r` is the code that a linear scan gives `x`: the index of the first
/// boundary above `x`, or the number of boundaries when none is.
pub open spec fn is_linear_code(b: Seq<u32>, x: u32, r: int) -> bool {
    &&& 0 <= r <= b.len()
    &&& forall|i: int| 0 <= i < r ==> #[trigger] b[i] <= x
    &&& r < b.len() ==> x < b[r]
}

/// `r` is the code that a binary search gives `x` in sorted boundaries: the
/// number of boundaries below `x`, which is the index of the first boundary
/// equal to `x` when there is one.
pub open spec fn is_binary_code(b: Seq<u32>, x: u32, r: int) -> bool {
    &&& 0 <= r <= b.len()
    &&& forall|i: int| 0 <= i < r ==> #[trigger] b[i] < x
    &&& forall|i: int| r <= i < b.len() ==> x <= #[trigger] b[i]
}

/// `r` is the code of `x` for a codebook of `bit_width` bits: by a scan up to
/// four bits, by a search above.
pub open spec fn is_code(bit_width: u8, b: Seq<u32>, x: u32, r: int) -> bool {
    if bit_width <= 4 {
        is_linear_code(b, x, r)
    } else {
        is_binary_code(b, x, r)
    }
}

/// Code of `x` by a linear scan of the boundaries.
pub fn quantize_scalar_linear(boundaries: &[u32], x: u32) -> (r: u32)
    requires
        boundaries.len() <= u32::MAX,
    ensures
        is_linear_code(boundaries@, x, r as int),
{
    let mut i: usize = 0;
    while i < boundaries.len()
        invariant
            i <= boundaries.len(),
            boundaries.len() <= u32::MAX,
            forall|t: int| 0 <= t < i ==> #[trigger] boundaries@[t] <= x,
        decreases boundaries.len() - i,
    {
        if x < boundaries[i] {
            return i as u32;
        }
        i += 1;
    }
    boundaries.len() as u32
}

/// Code of `x` by a binary search of sorted boundaries; among boundaries
/// equal to `x` it finds the first.
pub fn quantize_scalar_binary(boundaries: &[u32], x: u32) -> (r: u32)
    requires
        boundaries.len() <= u32::MAX,
        nondecreasing(boundaries@),
    ensures
        is_binary_code(boundaries@, x, r as int),
{
    let mut lo: usize = 0;
    let mut hi: usize = boundaries.len();
    while lo < hi
        invariant
            lo <= hi <= boundaries.len(),
            boundaries.len() <= u32::MAX,
            nondecreasing(boundaries@),
            forall|t: int| 0 <= t < lo ==> #[trigger] boundaries@[t] < x,
            forall|t: int| hi <= t < boundaries.len() ==> x <= #[trigger] boundaries@[t],
        decreases hi - lo,
    {
        let mid = lo + (hi - lo) / 2;
        if boundaries[mid] < x {
            lo = mid + 1;
        } else {
            hi = mid;
        }
    }
    lo as u32
}

/// Quantize a scalar key to the index of its cell. Codebooks of up to four
/// bits are scanned, larger ones searched.
pub fn quantize_scalar(bit_width: u8, boundaries: &[u32], x: u32) -> (r: u32)
    requires
        boundaries.len() <= u32::MAX,
        bit_width > 4 ==> nondecreasing(boundaries@),
    ensures
        is_code(bit_width, boundaries@, x, r as int),
{
    if bit_width <= 4 {
        quantize_scalar_linear(boundaries, x)
    } else {
        quantize_scalar_binary(boundaries, x)
    }
}

/// On sorted boundaries, the two searches agree on every value that is not a
/// boundary: both give the number of boundaries below it.
pub proof fn lemma_codes_agree_off_boundaries(b: Seq<u32>, x: u32, r1: int, r2: int)
    requires
        nondecreasing(b),
        !b.contains(x),
        is_linear_code(b, x, r1),
        is_binary_code(b, x, r2),
    ensures
        r1 == r2,
{
    if r1 < r2 {
        assert(b[r1] < x);
    } else if r2 < r1 {
        assert(b[r2] <= x);
        assert(b[r2] != x);
    }
}

/// Quantizing is monotone: on sorted boundaries a larger key never gets a
/// smaller code, at every codebook width.
pub proof fn lemma_quantize_monotone(bit_width: u8, b: Seq<u32>, x1: u32, x2: u32, r1: int, r2: int)
    requires
        nondecreasing(b),
        x1 <= x2,
        is_code(bit_width, b, x1, r1),
        is_code(bit_width, b, x2, r2),
    ensures
        r1 <= r2,
{
    if r2 < r1 {
        if bit_width <= 4 {
            assert(b[r2] <= x1);
        } else {
            assert(b[r2] < x1);
        }
    }
}

} // verus!
