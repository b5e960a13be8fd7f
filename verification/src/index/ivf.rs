//! Cluster choice of the inverted-file index.
//!
//! Scores of a vector against the cluster centroids are computed outside this
//! module and handled here as ordered `u32` keys.
use vstd::prelude::*;

verus! {

/// `r` is the position of the last highest key of `keys`, or 0 when there is none.
pub open spec fn is_last_max(keys: Seq<u32>, r: int) -> bool {
    if keys.len() == 0 {
        r == 0
    } else {
        &&& 0 <= r < keys.len()
        &&& forall|i: int| 0 <= i < keys.len() ==> #[trigger] keys[i] <= keys[r]
        &&& forall|i: int| r < i < keys.len() ==> #[trigger] keys[i] < keys[r]
    }
}

/// Index of the nearest centroid: the one of highest score, the last of
/// equal highest scores, and 0 when there are no centroids.
pub fn nearest_centroid(scores: &[u32]) -> (r: usize)
    ensures
        is_last_max(scores@, r as int),
{
    if scores.len() == 0 {
        return 0;
    }
    let mut best: usize = 0;
    let mut i: usize = 1;
    while i < scores.len()
        invariant
            1 <= i <= scores.len(),
            best < i,
            forall|t: int| 0 <= t < i ==> #[trigger] scores@[t] <= scores@[best as int],
            forall|t: int| best < t < i ==> #[trigger] scores@[t] < scores@[best as int],
        decreases scores.len() - i,
    {
        if scores[i] >= scores[best] {
            best = i;
        }
        i += 1;
    }
    best
}

/// `r` is the position of the first highest key of `keys`, or 0 when there is none.
pub open spec fn is_first_max(keys: Seq<u32>, r: int) -> bool {
    if keys.len() == 0 {
        r == 0
    } else {
        &&& 0 <= r < keys.len()
        &&& forall|i: int| 0 <= i < keys.len() ==> #[trigger] keys[i] <= keys[r]
        &&& forall|i: int| 0 <= i < r ==> #[trigger] keys[i] < keys[r]
    }
}

/// Index of the point to seed the next cluster with during k-means
/// initialisation: `spread[i]` ranks how far point `i` lies from the seeds
/// chosen so far, and the first point of highest rank is taken (0 when there
/// are no points).
pub fn farthest_point(spread: &[u32]) -> (r: usize)
    ensures
        is_first_max(spread@, r as int),
{
    if spread.len() == 0 {
        return 0;
    }
    let mut best: usize = 0;
    let mut i: usize = 1;
    while i < spread.len()
        invariant
            1 <= i <= spread.len(),
            best < i,
            forall|t: int| 0 <= t < i ==> #[trigger] spread@[t] <= spread@[best as int],
            forall|t: int| 0 <= t < best ==> #[trigger] spread@[t] < spread@[best as int],
        decreases spread.len() - i,
    {
        if spread[i] > spread[best] {
            best = i;
        }
        i += 1;
    }
    best
}

/// Number of the first `n` entries of `assignments` that are cluster `c`.
pub open spec fn members(assignments: Seq<usize>, c: int, n: int) -> nat
    decreases n,
{
    if n <= 0 {
        0
    } else {
        members(assignments, c, n - 1) + if assignments[n - 1] == c {
            1nat
        } else {
            0nat
        }
    }
}

/// Sum of the entries of `s`.
pub open spec fn total(s: Seq<usize>) -> int
    decreases s.len(),
{
    if s.len() == 0 {
        0
    } else {
        total(s.drop_last()) + s.last()
    }
}

/// Adding one to an entry adds one to the sum.
proof fn lemma_total_bump(s: Seq<usize>, j: int, v: usize)
    requires
        0 <= j < s.len(),
        v == s[j] + 1,
    ensures
        total(s.update(j, v)) == total(s) + 1,
    decreases s.len(),
{
    let s2 = s.update(j, v);
    if j < s.len() - 1 {
        assert(s2.drop_last() =~= s.drop_last().update(j, v));
        lemma_total_bump(s.drop_last(), j, v);
    } else {
        assert(s2.drop_last() =~= s.drop_last());
    }
}

/// A sequence of zeros sums to zero.
proof fn lemma_total_zeros(s: Seq<usize>)
    requires
        forall|d: int| 0 <= d < s.len() ==> #[trigger] s[d] == 0,
    ensures
        total(s) == 0,
    decreases s.len(),
{
    if s.len() > 0 {
        lemma_total_zeros(s.drop_last());
    }
}

/// Whether an assignment is to cluster `c`.
pub open spec fn in_cluster(c: int) -> spec_fn(usize) -> bool {
    |a: usize| a as int == c
}

/// The count of the first `n` assignments to cluster `c` is the number of
/// those assignments that equal `c`.
pub proof fn lemma_members_are_the_equal_assignments(assignments: Seq<usize>, c: int, n: int)
    requires
        0 <= n <= assignments.len(),
    ensures
        members(assignments, c, n) == assignments.take(n).filter(in_cluster(c)).len(),
    decreases n,
{
    reveal(Seq::filter);
    if n > 0 {
        lemma_members_are_the_equal_assignments(assignments, c, n - 1);
        assert(assignments.take(n).drop_last() =~= assignments.take(n - 1));
    } else {
        assert(assignments.take(0) =~= Seq::<usize>::empty());
    }
}

/// Size of each of `k` clusters under `assignments`, which gives each point
/// its cluster: the number of points assigned to it, so the sizes add up to
/// the number of points.
pub fn cluster_sizes(assignments: &[usize], k: usize) -> (counts: Vec<usize>)
    requires
        forall|i: int| 0 <= i < assignments.len() ==> #[trigger] assignments[i] < k,
    ensures
        counts.len() == k,
        forall|c: int| 0 <= c < k ==> #[trigger] counts[c] == members(assignments@, c, assignments.len() as int),
        forall|c: int|
            0 <= c < k ==> #[trigger] counts[c] == assignments@.filter(in_cluster(c)).len(),
        total(counts@) == assignments.len(),
{
    let mut counts: Vec<usize> = Vec::new();
    let mut c: usize = 0;
    while c < k
        invariant
            c <= k,
            counts.len() == c,
            forall|d: int| 0 <= d < c ==> #[trigger] counts[d] == 0,
        decreases k - c,
    {
        counts.push(0);
        c += 1;
    }
    proof {
        lemma_total_zeros(counts@);
    }
    let mut i: usize = 0;
    while i < assignments.len()
        invariant
            i <= assignments.len(),
            counts.len() == k,
            forall|j: int| 0 <= j < assignments.len() ==> #[trigger] assignments[j] < k,
            forall|d: int| 0 <= d < k ==> #[trigger] counts[d] == members(assignments@, d, i as int),
            forall|d: int| 0 <= d < k ==> #[trigger] counts[d] <= i,
            total(counts@) == i,
        decreases assignments.len() - i,
    {
        let a = assignments[i];
        proof {
            lemma_total_bump(counts@, a as int, (counts[a as int] + 1) as usize);
        }
        counts.set(a, counts[a] + 1);
        i += 1;
    }
    proof {
        assert forall|c: int| 0 <= c < k implies #[trigger] counts[c] == assignments@.filter(in_cluster(c)).len() by {
            lemma_members_are_the_equal_assignments(assignments@, c, assignments.len() as int);
            assert(assignments@.take(assignments.len() as int) =~= assignments@);
        }
    }
    counts
}

} // verus!
