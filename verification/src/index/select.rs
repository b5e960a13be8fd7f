//! Ranked selections: the best `k` items by an ordered score key, highest first.
//!
//! Scores are handled as `u32` keys whose integer order is the order of the
//! scores they stand for.
use vstd::prelude::*;
use vstd::set_lib::{lemma_int_range, lemma_len_subset, set_int_range};

verus! {

/// An item (a position or a node) together with its score key.
#[derive(Clone, Copy, Debug, PartialEq, Eq)]
pub struct Ranked {
    pub item: usize,
    pub key: u32,
}

/// Keys never increase along `s`.
pub open spec fn sorted_desc(s: Seq<Ranked>) -> bool {
    forall|a: int, b: int| 0 <= a < b < s.len() ==> #[trigger] s[a].key >= #[trigger] s[b].key
}

/// Keys never decrease along `s`.
pub open spec fn sorted_asc(s: Seq<Ranked>) -> bool {
    forall|a: int, b: int| 0 <= a < b < s.len() ==> #[trigger] s[a].key <= #[trigger] s[b].key
}

/// No item occurs twice in `s`.
pub open spec fn distinct_items(s: Seq<Ranked>) -> bool {
    forall|a: int, b: int| 0 <= a < b < s.len() ==> #[trigger] s[a].item != #[trigger] s[b].item
}

/// Whether item `p` occurs in `s`.
pub open spec fn has_item(s: Seq<Ranked>, p: int) -> bool {
    exists|t: int| 0 <= t < s.len() && #[trigger] s[t].item == p
}

/// Every key of `s` is at least `x`.
pub open spec fn all_at_least(s: Seq<Ranked>, x: u32) -> bool {
    forall|t: int| 0 <= t < s.len() ==> x <= #[trigger] s[t].key
}

/// `a` comes before `b` in the order of descending key, equal keys in
/// ascending item order.
pub open spec fn ranks_before(a: Ranked, b: Ranked) -> bool {
    a.key > b.key || (a.key == b.key && a.item < b.item)
}

/// Every entry of `s` comes before the entries after it.
pub open spec fn rank_sorted(s: Seq<Ranked>) -> bool {
    forall|a: int, b: int| 0 <= a < b < s.len() ==> ranks_before(#[trigger] s[a], #[trigger] s[b])
}

/// `r` is the best `k` positions of `keys`: the first `min(k, n)` positions in
/// the order of descending key, equal keys in ascending position, listed in
/// that order. (This is what a stable sort by descending key, cut to `k`,
/// gives.)
pub open spec fn is_top_k(r: Seq<Ranked>, keys: Seq<u32>, k: nat) -> bool {
    &&& r.len() == (if k < keys.len() { k } else { keys.len() })
    &&& forall|t: int| 0 <= t < r.len() ==> #[trigger] r[t].item < keys.len() && r[t].key == keys[r[t].item as int]
    &&& rank_sorted(r)
    &&& forall|p: int, t: int|
        0 <= p < keys.len() && !has_item(r, p) && 0 <= t < r.len() ==> ranks_before(
            #[trigger] r[t],
            Ranked { item: p as usize, key: #[trigger] keys[p] },
        )
    &&& forall|p: int| 0 <= p < keys.len() && !has_item(r, p) ==> r.len() == k
}

/// A rank-sorted list whose keys are those of `keys` is sorted by descending
/// key and free of repeats.
pub proof fn lemma_rank_sorted(s: Seq<Ranked>, keys: Seq<u32>)
    requires
        rank_sorted(s),
        forall|t: int| 0 <= t < s.len() ==> #[trigger] s[t].item < keys.len() && s[t].key == keys[s[t].item as int],
    ensures
        sorted_desc(s),
        distinct_items(s),
{
    assert forall|a: int, b: int| 0 <= a < b < s.len() implies #[trigger] s[a].key >= #[trigger] s[b].key
        && s[a].item != s[b].item by {
        assert(ranks_before(s[a], s[b]));
        assert(s[a].item < keys.len() && s[a].key == keys[s[a].item as int]);
        assert(s[b].item < keys.len() && s[b].key == keys[s[b].item as int]);
    }
}

/// `j` is where `x` goes in `s`, sorted by descending key: after every entry
/// whose key is at least `x.key`, before the others.
pub open spec fn desc_slot(s: Seq<Ranked>, x: Ranked, j: int) -> bool {
    &&& 0 <= j <= s.len()
    &&& forall|t: int| 0 <= t < j ==> x.key <= #[trigger] s[t].key
    &&& forall|t: int| j <= t < s.len() ==> #[trigger] s[t].key < x.key
}

/// `j` is where `x` goes in `s`, sorted by ascending key: after every entry
/// whose key is at most `x.key`, before the others.
pub open spec fn asc_slot(s: Seq<Ranked>, x: Ranked, j: int) -> bool {
    &&& 0 <= j <= s.len()
    &&& forall|t: int| 0 <= t < j ==> #[trigger] s[t].key <= x.key
    &&& forall|t: int| j <= t < s.len() ==> x.key < #[trigger] s[t].key
}

/// `s`, sorted by descending key, with `x` inserted after every entry whose
/// key is at least `x.key`.
pub open spec fn insert_by_desc(s: Seq<Ranked>, x: Ranked) -> Seq<Ranked> {
    s.insert(choose|j: int| desc_slot(s, x, j), x)
}

/// `s`, sorted by ascending key, with `x` inserted after every entry whose
/// key is at most `x.key`.
pub open spec fn insert_by_asc(s: Seq<Ranked>, x: Ranked) -> Seq<Ranked> {
    s.insert(choose|j: int| asc_slot(s, x, j), x)
}

/// There is one place for `x` in a list sorted by descending key.
proof fn lemma_desc_slot_unique(s: Seq<Ranked>, x: Ranked, j: int)
    requires
        desc_slot(s, x, j),
    ensures
        insert_by_desc(s, x) == s.insert(j, x),
{
    let j2 = choose|j2: int| desc_slot(s, x, j2);
    assert(desc_slot(s, x, j2));
    if j2 < j {
        assert(s[j2].key < x.key);
    } else if j < j2 {
        assert(s[j].key < x.key);
    }
}

/// There is one place for `x` in a list sorted by ascending key.
proof fn lemma_asc_slot_unique(s: Seq<Ranked>, x: Ranked, j: int)
    requires
        asc_slot(s, x, j),
    ensures
        insert_by_asc(s, x) == s.insert(j, x),
{
    let j2 = choose|j2: int| asc_slot(s, x, j2);
    assert(asc_slot(s, x, j2));
    if j2 < j {
        assert(x.key < s[j2].key);
    } else if j < j2 {
        assert(x.key < s[j].key);
    }
}

/// Insert `x` into a list sorted by descending key, after every entry whose
/// key is at least `x.key`; returns the index where it went.
pub fn insert_desc(v: &mut Vec<Ranked>, x: Ranked) -> (j: usize)
    requires
        sorted_desc(old(v)@),
    ensures
        j <= old(v).len(),
        final(v)@ == old(v)@.insert(j as int, x),
        forall|t: int| 0 <= t < j ==> x.key <= #[trigger] old(v)[t].key,
        forall|t: int| j <= t < old(v).len() ==> #[trigger] old(v)[t].key < x.key,
        sorted_desc(final(v)@),
        final(v)@ == insert_by_desc(old(v)@, x),
{
    let mut j: usize = 0;
    while j < v.len() && v[j].key >= x.key
        invariant
            j <= v.len(),
            v@ == old(v)@,
            sorted_desc(v@),
            forall|t: int| 0 <= t < j ==> x.key <= #[trigger] v[t].key,
        decreases v.len() - j,
    {
        j += 1;
    }
    let ghost before = v@;
    v.insert(j, x);
    proof {
        assert forall|t: int| j <= t < before.len() implies #[trigger] before[t].key < x.key by {
            assert(before[t].key <= before[j as int].key || t == j);
        }
        assert forall|a: int, b: int| 0 <= a < b < v.len() implies #[trigger] v[a].key
            >= #[trigger] v[b].key by {
            if b < j {
            } else if a < j && b == j {
            } else if a < j {
                assert(v[b] == before[b - 1]);
            } else if a == j {
                assert(v[b] == before[b - 1]);
            } else {
                assert(v[a] == before[a - 1]);
                assert(v[b] == before[b - 1]);
            }
        }
    }
    proof {
        lemma_desc_slot_unique(before, x, j as int);
    }
    j
}

/// Insert `x` into a list sorted by ascending key, after every entry whose
/// key is at most `x.key`; returns the index where it went.
pub fn insert_asc(v: &mut Vec<Ranked>, x: Ranked) -> (j: usize)
    requires
        sorted_asc(old(v)@),
    ensures
        j <= old(v).len(),
        final(v)@ == old(v)@.insert(j as int, x),
        forall|t: int| 0 <= t < j ==> #[trigger] old(v)[t].key <= x.key,
        forall|t: int| j <= t < old(v).len() ==> x.key < #[trigger] old(v)[t].key,
        sorted_asc(final(v)@),
        final(v)@ == insert_by_asc(old(v)@, x),
{
    let mut j: usize = 0;
    while j < v.len() && v[j].key <= x.key
        invariant
            j <= v.len(),
            v@ == old(v)@,
            sorted_asc(v@),
            forall|t: int| 0 <= t < j ==> #[trigger] v[t].key <= x.key,
        decreases v.len() - j,
    {
        j += 1;
    }
    let ghost before = v@;
    v.insert(j, x);
    proof {
        assert forall|t: int| j <= t < before.len() implies x.key < #[trigger] before[t].key by {
            assert(before[j as int].key <= before[t].key || t == j);
        }
        assert forall|a: int, b: int| 0 <= a < b < v.len() implies #[trigger] v[a].key
            <= #[trigger] v[b].key by {
            if b < j {
            } else if a < j && b == j {
            } else if a < j {
                assert(v[b] == before[b - 1]);
            } else if a == j {
                assert(v[b] == before[b - 1]);
            } else {
                assert(v[a] == before[a - 1]);
                assert(v[b] == before[b - 1]);
            }
        }
    }
    proof {
        lemma_asc_slot_unique(before, x, j as int);
    }
    j
}

/// Select the best `top_k` positions of `keys`, highest key first, equal keys
/// in ascending position.
///
/// This is the bounded selection that a search runs over the scores of its
/// candidates: every score enters, and once more than `top_k` are held the
/// lowest is dropped.
pub fn select_top_k(keys: &[u32], top_k: usize) -> (r: Vec<Ranked>)
    ensures
        is_top_k(r@, keys@, top_k as nat),
        sorted_desc(r@),
        distinct_items(r@),
{
    let mut kept: Vec<Ranked> = Vec::new();
    let mut i: usize = 0;
    while i < keys.len()
        invariant
            i <= keys.len(),
            is_top_k(kept@, keys@.subrange(0, i as int), top_k as nat),
            forall|p: int| 0 <= p < i && !has_item(kept@, p) ==> kept.len() == top_k,
        decreases keys.len() - i,
    {
        let x = Ranked { item: i, key: keys[i] };
        let ghost old_kept = kept@;
        proof {
            lemma_rank_sorted(old_kept, keys@.subrange(0, i as int));
        }
        let j = insert_desc(&mut kept, x);
        let ghost ins = kept@;
        if kept.len() > top_k {
            kept.pop();
        }
        proof {
            let new_keys = keys@.subrange(0, i + 1);
            let prev_keys = keys@.subrange(0, i as int);
            assert forall|t: int| 0 <= t < ins.len() implies #[trigger] ins[t] == (if t < j {
                old_kept[t]
            } else if t == j {
                x
            } else {
                old_kept[t - 1]
            }) by {}
            assert forall|t: int| 0 <= t < kept.len() implies #[trigger] kept@[t] == ins[t] by {}
            assert forall|a: int, b: int| 0 <= a < b < ins.len() implies ranks_before(
                #[trigger] ins[a],
                #[trigger] ins[b],
            ) by {
                if a < j && b == j {
                    assert(old_kept[a].item < i);
                } else if a < j && b > j {
                    assert(ranks_before(old_kept[a], old_kept[b - 1]));
                } else if a > j {
                    assert(ranks_before(old_kept[a - 1], old_kept[b - 1]));
                }
            }
            assert forall|t: int| 0 <= t < kept.len() implies #[trigger] kept@[t].item < new_keys.len()
                && kept@[t].key == new_keys[kept@[t].item as int] by {}
            assert forall|p: int, t: int|
                0 <= p < new_keys.len() && !has_item(kept@, p) && 0 <= t < kept.len() implies ranks_before(
                #[trigger] kept@[t],
                Ranked { item: p as usize, key: #[trigger] new_keys[p] },
            ) by {
                if p == i {
                    if kept@ == ins {
                        assert(kept@[j as int].item == p);
                    }
                    assert(j == old_kept.len()) by {
                        if j < old_kept.len() {
                            assert(kept@[j as int] == ins[j as int]);
                            assert(kept@[j as int].item == p);
                        }
                    }
                    assert(ranks_before(ins[t], ins[j as int]));
                } else if has_item(old_kept, p) {
                    let u = choose|u: int| 0 <= u < old_kept.len() && #[trigger] old_kept[u].item == p;
                    let u2 = if u < j { u } else { u + 1 };
                    assert(ins[u2].item == p);
                    assert(kept@ != ins);
                    assert(u2 == ins.len() - 1) by {
                        if u2 < ins.len() - 1 {
                            assert(kept@[u2].item == p);
                        }
                    }
                    assert(ranks_before(ins[t], ins[u2]));
                } else {
                    assert(old_kept.len() == top_k);
                    let xp = Ranked { item: p as usize, key: prev_keys[p] };
                    if t == j {
                        assert(j < old_kept.len());
                        assert(ranks_before(old_kept[j as int], xp));
                    } else if t < j {
                        assert(ranks_before(old_kept[t], xp));
                    } else {
                        assert(ranks_before(old_kept[t - 1], xp));
                    }
                }
            }
            assert forall|p: int| 0 <= p < i + 1 && !has_item(kept@, p) implies kept.len() == top_k by {
                if kept@ == ins {
                    if p == i {
                        assert(kept@[j as int].item == p);
                    } else if has_item(old_kept, p) {
                        let u = choose|u: int| 0 <= u < old_kept.len() && #[trigger] old_kept[u].item == p;
                        let u2 = if u < j { u } else { u + 1 };
                        assert(kept@[u2].item == p);
                    }
                }
            }
        }
        i += 1;
    }
    proof {
        assert(keys@.subrange(0, keys.len() as int) == keys@);
        lemma_rank_sorted(kept@, keys@);
    }
    kept
}

/// Inserting `x` into a list sorted by descending key where `insert_desc`
/// puts it, and then possibly dropping the last entry, keeps the list sorted
/// and free of repeats; what leaves is no higher than what stays.
pub proof fn lemma_bounded_insert(
    old_r: Seq<Ranked>,
    x: Ranked,
    j: int,
    ins: Seq<Ranked>,
    new_r: Seq<Ranked>,
)
    requires
        sorted_desc(old_r),
        distinct_items(old_r),
        !has_item(old_r, x.item as int),
        0 <= j <= old_r.len(),
        ins == old_r.insert(j, x),
        forall|t: int| 0 <= t < j ==> x.key <= #[trigger] old_r[t].key,
        forall|t: int| j <= t < old_r.len() ==> #[trigger] old_r[t].key < x.key,
        new_r == ins || new_r == ins.drop_last(),
    ensures
        sorted_desc(new_r),
        distinct_items(new_r),
        forall|t: int|
            0 <= t < new_r.len() ==> #[trigger] new_r[t] == x || exists|u: int|
                0 <= u < old_r.len() && new_r[t] == #[trigger] old_r[u],
        forall|v: int| #[trigger] has_item(new_r, v) ==> v == x.item || has_item(old_r, v),
        forall|u: int|
            0 <= u < old_r.len() ==> has_item(new_r, #[trigger] old_r[u].item as int) || all_at_least(
                new_r,
                old_r[u].key,
            ),
        has_item(new_r, x.item as int) || all_at_least(new_r, x.key),
        forall|y: u32|
            #[trigger] all_at_least(old_r, y) && (y <= x.key || !has_item(new_r, x.item as int))
                ==> all_at_least(new_r, y),
{
    assert forall|t: int| 0 <= t < ins.len() implies #[trigger] ins[t] == (if t < j {
        old_r[t]
    } else if t == j {
        x
    } else {
        old_r[t - 1]
    }) by {}
    assert forall|a: int, b: int| 0 <= a < b < new_r.len() implies #[trigger] new_r[a].key
        >= #[trigger] new_r[b].key && new_r[a].item != new_r[b].item by {
        assert(new_r[a] == ins[a]);
        assert(new_r[b] == ins[b]);
        if a == j {
            assert(!has_item(old_r, x.item as int));
            assert(old_r[b - 1].item != x.item);
        } else if b == j {
            assert(old_r[a].item != x.item);
        }
    }
    assert forall|t: int| 0 <= t < new_r.len() implies #[trigger] new_r[t] == x || exists|u: int|
        0 <= u < old_r.len() && new_r[t] == #[trigger] old_r[u] by {
        assert(new_r[t] == ins[t]);
        if t < j {
            assert(new_r[t] == old_r[t]);
        } else if t > j {
            assert(new_r[t] == old_r[t - 1]);
        }
    }
    assert forall|v: int| #[trigger] has_item(new_r, v) implies v == x.item || has_item(old_r, v) by {
        let t = choose|t: int| 0 <= t < new_r.len() && #[trigger] new_r[t].item == v;
        if new_r[t] != x {
            let u = choose|u: int| 0 <= u < old_r.len() && new_r[t] == #[trigger] old_r[u];
            assert(old_r[u].item == v);
        }
    }
    let last = ins.len() - 1;
    assert forall|u: int| 0 <= u < old_r.len() implies has_item(
        new_r,
        #[trigger] old_r[u].item as int,
    ) || all_at_least(new_r, old_r[u].key) by {
        let t = if u < j {
            u
        } else {
            u + 1
        };
        assert(ins[t] == old_r[u]);
        if t < new_r.len() {
            assert(new_r[t] == ins[t]);
        } else {
            assert forall|w: int| 0 <= w < new_r.len() implies old_r[u].key <= #[trigger] new_r[w].key by {
                assert(new_r[w] == ins[w]);
            }
        }
    }
    if !has_item(new_r, x.item as int) {
        if j < new_r.len() {
            assert(new_r[j] == ins[j]);
        }
        assert forall|w: int| 0 <= w < new_r.len() implies x.key <= #[trigger] new_r[w].key by {
            assert(new_r[w] == ins[w]);
        }
    }
    assert forall|y: u32| #[trigger] all_at_least(old_r, y) && (y <= x.key || !has_item(
        new_r,
        x.item as int,
    )) implies all_at_least(new_r, y) by {
        assert forall|w: int| 0 <= w < new_r.len() implies y <= #[trigger] new_r[w].key by {
            assert(new_r[w] == ins[w]);
            if w == j && !has_item(new_r, x.item as int) {
                assert(new_r[w].item == x.item);
            }
        }
    }
}

/// Keys of two selections, the first followed by the second.
pub open spec fn merged_keys(r1: Seq<Ranked>, r2: Seq<Ranked>) -> Seq<u32> {
    Seq::new(
        r1.len() + r2.len(),
        |u: int|
            if u < r1.len() {
                r1[u].key
            } else {
                r2[u - r1.len()].key
            },
    )
}

/// Position, in `keys1 + keys2` with `n1 == keys1.len()`, of entry `u` of
/// the merged selections `r1` (of `keys1`) and `r2` (of `keys2`).
pub open spec fn merged_position(r1: Seq<Ranked>, r2: Seq<Ranked>, n1: nat, u: int) -> int {
    if u < r1.len() {
        r1[u].item as int
    } else {
        n1 + r2[u - r1.len()].item
    }
}

/// A selection of the merged selections, its items turned into positions of
/// the whole sequence.
pub open spec fn to_whole(rm: Seq<Ranked>, r1: Seq<Ranked>, r2: Seq<Ranked>, n1: nat) -> Seq<Ranked> {
    Seq::new(
        rm.len(),
        |t: int|
            Ranked { item: merged_position(r1, r2, n1, rm[t].item as int) as usize, key: rm[t].key },
    )
}

/// A list that holds every item of `base .. base + m` and also an item `w`
/// outside that range has more than `m` entries.
proof fn lemma_more_items_than(s: Seq<Ranked>, base: int, m: nat, w: int)
    requires
        forall|u: int| base <= u < base + m ==> #[trigger] has_item(s, u),
        !(base <= w < base + m),
        has_item(s, w),
    ensures
        s.len() >= m + 1,
{
    let items = s.map_values(|x: Ranked| x.item as int);
    let a = set_int_range(base, base + m).insert(w);
    lemma_int_range(base, base + m);
    assert(!set_int_range(base, base + m).contains(w));
    assert(a.len() == m + 1);
    assert forall|v: int| a.contains(v) implies items.to_set().contains(v) by {
        assert(has_item(s, v));
        let t = choose|t: int| 0 <= t < s.len() && #[trigger] s[t].item == v;
        assert(items[t] == v);
    }
    vstd::seq_lib::seq_to_set_is_finite(items);
    lemma_len_subset(a, items.to_set());
    items.lemma_cardinality_of_set();
}

/// Merged order and whole-sequence order agree.
proof fn lemma_merged_order(
    keys1: Seq<u32>,
    keys2: Seq<u32>,
    k: nat,
    r1: Seq<Ranked>,
    r2: Seq<Ranked>,
    u: int,
    w: int,
)
    requires
        keys1.len() + keys2.len() <= usize::MAX,
        is_top_k(r1, keys1, k),
        is_top_k(r2, keys2, k),
        0 <= u < r1.len() + r2.len(),
        0 <= w < r1.len() + r2.len(),
        u != w,
    ensures
        ({
            let mk = merged_keys(r1, r2);
            let gu = merged_position(r1, r2, keys1.len(), u);
            let gw = merged_position(r1, r2, keys1.len(), w);
            &&& gu != gw
            &&& 0 <= gu < keys1.len() + keys2.len()
            &&& (keys1 + keys2)[gu] == mk[u]
            &&& ranks_before(Ranked { item: u as usize, key: mk[u] }, Ranked { item: w as usize, key: mk[w] })
                <==> ranks_before(Ranked { item: gu as usize, key: mk[u] }, Ranked { item: gw as usize, key: mk[w] })
        }),
{
    let n1 = r1.len() as int;
    lemma_rank_sorted(r1, keys1);
    lemma_rank_sorted(r2, keys2);
    if u < n1 {
        assert(r1[u].item < keys1.len() && r1[u].key == keys1[r1[u].item as int]);
    } else {
        assert(r2[u - n1].item < keys2.len() && r2[u - n1].key == keys2[r2[u - n1].item as int]);
    }
    if w < n1 {
        assert(r1[w].item < keys1.len());
    } else {
        assert(r2[w - n1].item < keys2.len());
    }
    if u < n1 && w < n1 {
        if u < w {
            assert(ranks_before(r1[u], r1[w]));
        } else {
            assert(ranks_before(r1[w], r1[u]));
        }
    } else if u >= n1 && w >= n1 {
        if u < w {
            assert(ranks_before(r2[u - n1], r2[w - n1]));
        } else {
            assert(ranks_before(r2[w - n1], r2[u - n1]));
        }
    }
}

/// The whole-sequence selection of one merged entry, when its chunk left out
/// position `p` of the whole sequence.
proof fn lemma_merge_selection(
    keys1: Seq<u32>,
    keys2: Seq<u32>,
    k: nat,
    r1: Seq<Ranked>,
    r2: Seq<Ranked>,
    rm: Seq<Ranked>,
)
    requires
        keys1.len() + keys2.len() <= usize::MAX,
        is_top_k(r1, keys1, k),
        is_top_k(r2, keys2, k),
        is_top_k(rm, merged_keys(r1, r2), k),
    ensures
        is_top_k(to_whole(rm, r1, r2, keys1.len()), keys1 + keys2, k),
{
    let n1 = keys1.len();
    let whole = keys1 + keys2;
    let mk = merged_keys(r1, r2);
    let res = to_whole(rm, r1, r2, n1);
    let g = |u: int| merged_position(r1, r2, n1, u);
    // each entry of rm, with its key and whole-sequence position
    assert forall|t: int| 0 <= t < rm.len() implies #[trigger] res[t].item == g(rm[t].item as int)
        && res[t].key == mk[rm[t].item as int] && 0 <= g(rm[t].item as int) < whole.len()
        && whole[g(rm[t].item as int)] == mk[rm[t].item as int] by {
        let u = rm[t].item as int;
        if u < r1.len() {
            assert(r1[u].item < keys1.len() && r1[u].key == keys1[r1[u].item as int]);
        } else {
            assert(r2[u - r1.len()].item < keys2.len() && r2[u - r1.len()].key == keys2[r2[u - r1.len()].item as int]);
        }
    }
    assert forall|a: int, b: int| 0 <= a < b < res.len() implies ranks_before(
        #[trigger] res[a],
        #[trigger] res[b],
    ) by {
        assert(ranks_before(rm[a], rm[b]));
        lemma_merged_order(keys1, keys2, k, r1, r2, rm[a].item as int, rm[b].item as int);
    }
    assert forall|p: int| 0 <= p < whole.len() && !has_item(res, p) implies res.len() == k by {
        let (rc, base, kc, q) = if p < n1 {
            (r1, 0int, keys1, p)
        } else {
            (r2, r1.len() as int, keys2, p - n1)
        };
        if has_item(rc, q) {
            let s = choose|s: int| 0 <= s < rc.len() && #[trigger] rc[s].item == q;
            let u = base + s;
            assert(g(u) == p);
            if has_item(rm, u) {
                let t2 = choose|t2: int| 0 <= t2 < rm.len() && #[trigger] rm[t2].item == u;
                assert(res[t2].item == p);
            }
        } else {
            assert(rc.len() == k);
        }
    }
    assert forall|p: int, t: int|
        0 <= p < whole.len() && !has_item(res, p) && 0 <= t < res.len() implies ranks_before(
        #[trigger] res[t],
        Ranked { item: p as usize, key: #[trigger] whole[p] },
    ) by {
        let pr = Ranked { item: p as usize, key: whole[p] };
        let (rc, base, kc, q) = if p < n1 {
            (r1, 0int, keys1, p)
        } else {
            (r2, r1.len() as int, keys2, p - n1)
        };
        assert(0 <= q < kc.len() && kc[q] == whole[p]);
        if has_item(rc, q) {
            let s = choose|s: int| 0 <= s < rc.len() && #[trigger] rc[s].item == q;
            let u = base + s;
            assert(g(u) == p);
            assert(mk[u] == rc[s].key);
            if has_item(rm, u) {
                let t2 = choose|t2: int| 0 <= t2 < rm.len() && #[trigger] rm[t2].item == u;
                assert(res[t2].item == p);
            }
            assert(ranks_before(rm[t], Ranked { item: u as usize, key: mk[u] }));
            lemma_merged_order(keys1, keys2, k, r1, r2, rm[t].item as int, u);
            assert(rm.len() == k);
        } else {
            assert(rc.len() == k);
            let w = rm[t].item as int;
            if !ranks_before(res[t], pr) {
                assert(g(w) != p);
                assert(ranks_before(pr, res[t]));
                assert forall|u: int| base <= u < base + k implies #[trigger] has_item(rm, u) by {
                    let v = u - base;
                    assert(ranks_before(rc[v], Ranked { item: q as usize, key: kc[q] }));
                    assert(g(u) == (if p < n1 { rc[v].item as int } else { n1 + rc[v].item }));
                    assert(ranks_before(Ranked { item: g(u) as usize, key: mk[u] }, pr));
                    assert(u != w);
                    lemma_merged_order(keys1, keys2, k, r1, r2, u, w);
                    if !has_item(rm, u) {
                        assert(ranks_before(rm[t], Ranked { item: u as usize, key: mk[u] }));
                    }
                }
                if base <= w < base + k {
                    let v = w - base;
                    assert(ranks_before(rc[v], Ranked { item: q as usize, key: kc[q] }));
                }
                assert(has_item(rm, w)) by {
                    assert(rm[t].item == w);
                }
                lemma_more_items_than(rm, base, k, w);
            }
            assert(rm.len() == k);
        }
    }
}

/// Selection composes over consecutive chunks: the best `k` of the best `k` of
/// `keys1` followed by the best `k` of `keys2` are the best `k` of
/// `keys1 + keys2`, once positions are carried back to the whole sequence.
pub proof fn lemma_top_k_of_chunk_selections(keys1: Seq<u32>, keys2: Seq<u32>, k: nat)
    requires
        keys1.len() + keys2.len() <= usize::MAX,
    ensures
        forall|r1: Seq<Ranked>, r2: Seq<Ranked>, rm: Seq<Ranked>|
            is_top_k(r1, keys1, k) && is_top_k(r2, keys2, k) && #[trigger] is_top_k(
                rm,
                merged_keys(r1, r2),
                k,
            ) ==> is_top_k(to_whole(rm, r1, r2, keys1.len()), keys1 + keys2, k),
{
    assert forall|r1: Seq<Ranked>, r2: Seq<Ranked>, rm: Seq<Ranked>|
        is_top_k(r1, keys1, k) && is_top_k(r2, keys2, k) && #[trigger] is_top_k(
            rm,
            merged_keys(r1, r2),
            k,
        ) implies is_top_k(to_whole(rm, r1, r2, keys1.len()), keys1 + keys2, k) by {
        lemma_merge_selection(keys1, keys2, k, r1, r2, rm);
    }
}

/// Two best-`k` selections of the same sequence agree on their first `f` entries.
proof fn lemma_top_k_prefix_eq(keys: Seq<u32>, k: nat, r: Seq<Ranked>, s: Seq<Ranked>, f: int)
    requires
        is_top_k(r, keys, k),
        is_top_k(s, keys, k),
        0 <= f <= r.len(),
    ensures
        forall|g: int| 0 <= g < f ==> #[trigger] r[g] == s[g],
    decreases f,
{
    if f > 0 {
        lemma_top_k_prefix_eq(keys, k, r, s, f - 1);
        let e = f - 1;
        let x = r[e];
        let y = s[e];
        lemma_rank_sorted(r, keys);
        lemma_rank_sorted(s, keys);
        if x != y {
            assert(x.item < keys.len() && x.key == keys[x.item as int]);
            assert(y.item < keys.len() && y.key == keys[y.item as int]);
            // x comes after y in s, or is left out of s: either way y ranks first
            if has_item(s, x.item as int) {
                let u = choose|u: int| 0 <= u < s.len() && #[trigger] s[u].item == x.item;
                assert(s[u].key == keys[x.item as int]);
                if u < e {
                    assert(r[u] == s[u]);
                    assert(r[u].item != r[e].item);
                }
                assert(u != e);
                assert(ranks_before(s[e], s[u]));
            } else {
                assert(ranks_before(s[e], Ranked { item: x.item, key: keys[x.item as int] }));
            }
            assert(ranks_before(y, x));
            // and symmetrically x ranks first
            if has_item(r, y.item as int) {
                let v = choose|v: int| 0 <= v < r.len() && #[trigger] r[v].item == y.item;
                assert(r[v].key == keys[y.item as int]);
                if v < e {
                    assert(r[v] == s[v]);
                    assert(s[v].item != s[e].item);
                }
                assert(v != e);
                assert(ranks_before(r[e], r[v]));
            } else {
                assert(ranks_before(r[e], Ranked { item: y.item, key: keys[y.item as int] }));
            }
            assert(ranks_before(x, y));
        }
    }
}

/// The best-`k` selection of a sequence is unique: every function that meets
/// `is_top_k` returns the same list.
pub proof fn lemma_top_k_unique(keys: Seq<u32>, k: nat, r: Seq<Ranked>, s: Seq<Ranked>)
    requires
        is_top_k(r, keys, k),
        is_top_k(s, keys, k),
    ensures
        r == s,
{
    lemma_top_k_prefix_eq(keys, k, r, s, r.len() as int);
    assert(r =~= s);
}

/// The keys of the first `n` chunks, one after the other.
pub open spec fn chunks_prefix(chunks: Seq<Seq<u32>>, n: int) -> Seq<u32>
    decreases n,
{
    if n <= 0 {
        Seq::empty()
    } else {
        chunks_prefix(chunks, n - 1) + chunks[n - 1]
    }
}

/// A fold of chunk selections, as a search over consecutive chunks of keys
/// merges them: `bests[0]` is empty, `sels[i]` is the best `k` of chunk `i`,
/// `merges[i]` the best `k` of `bests[i]` followed by `sels[i]`, and
/// `bests[i + 1]` that selection with its items carried back to positions of
/// the whole sequence.
pub open spec fn is_chunk_fold(
    chunks: Seq<Seq<u32>>,
    sels: Seq<Seq<Ranked>>,
    merges: Seq<Seq<Ranked>>,
    bests: Seq<Seq<Ranked>>,
    k: nat,
) -> bool {
    &&& sels.len() == chunks.len()
    &&& merges.len() == chunks.len()
    &&& bests.len() == chunks.len() + 1
    &&& bests[0] == Seq::<Ranked>::empty()
    &&& forall|i: int| 0 <= i < chunks.len() ==> is_top_k(#[trigger] sels[i], chunks[i], k)
    &&& forall|i: int|
        0 <= i < chunks.len() ==> is_top_k(#[trigger] merges[i], merged_keys(bests[i], sels[i]), k)
    &&& forall|i: int|
        0 <= i < chunks.len() ==> bests[i + 1] == to_whole(
            #[trigger] merges[i],
            bests[i],
            sels[i],
            chunks_prefix(chunks, i).len(),
        )
}

/// Lengths of chunk prefixes never decrease.
proof fn lemma_prefix_len_grows(chunks: Seq<Seq<u32>>, i: int, n: int)
    requires
        0 <= i <= n,
    ensures
        chunks_prefix(chunks, i).len() <= chunks_prefix(chunks, n).len(),
    decreases n - i,
{
    if i < n {
        lemma_prefix_len_grows(chunks, i, n - 1);
    }
}

/// Each stage of a chunk fold is the best `k` of the chunks folded so far.
proof fn lemma_chunk_fold_upto(
    chunks: Seq<Seq<u32>>,
    sels: Seq<Seq<Ranked>>,
    merges: Seq<Seq<Ranked>>,
    bests: Seq<Seq<Ranked>>,
    k: nat,
    n: int,
)
    requires
        is_chunk_fold(chunks, sels, merges, bests, k),
        0 <= n <= chunks.len(),
        chunks_prefix(chunks, chunks.len() as int).len() <= usize::MAX,
    ensures
        is_top_k(bests[n], chunks_prefix(chunks, n), k),
    decreases n,
{
    if n == 0 {
        assert(chunks_prefix(chunks, 0) == Seq::<u32>::empty());
    } else {
        lemma_chunk_fold_upto(chunks, sels, merges, bests, k, n - 1);
        lemma_prefix_len_grows(chunks, n, chunks.len() as int);
        let keys1 = chunks_prefix(chunks, n - 1);
        let keys2 = chunks[n - 1];
        lemma_top_k_of_chunk_selections(keys1, keys2, k);
        assert(is_top_k(sels[n - 1], keys2, k));
        assert(is_top_k(merges[n - 1], merged_keys(bests[n - 1], sels[n - 1]), k));
        assert(bests[n] == to_whole(merges[n - 1], bests[n - 1], sels[n - 1], keys1.len()));
    }
}

/// Selection composes over any number of consecutive chunks: folding the
/// chunks' best `k` into a running best `k`, one chunk at a time, gives the
/// best `k` of all the keys, which is the one selection a single pass over
/// them gives.
pub proof fn lemma_top_k_of_chunk_fold(
    chunks: Seq<Seq<u32>>,
    sels: Seq<Seq<Ranked>>,
    merges: Seq<Seq<Ranked>>,
    bests: Seq<Seq<Ranked>>,
    k: nat,
)
    requires
        is_chunk_fold(chunks, sels, merges, bests, k),
        chunks_prefix(chunks, chunks.len() as int).len() <= usize::MAX,
    ensures
        is_top_k(bests.last(), chunks_prefix(chunks, chunks.len() as int), k),
        forall|r: Seq<Ranked>|
            #[trigger] is_top_k(r, chunks_prefix(chunks, chunks.len() as int), k) ==> r
                == bests.last(),
{
    lemma_chunk_fold_upto(chunks, sels, merges, bests, k, chunks.len() as int);
    assert forall|r: Seq<Ranked>|
        #[trigger] is_top_k(r, chunks_prefix(chunks, chunks.len() as int), k) implies r
            == bests.last() by {
        lemma_top_k_unique(chunks_prefix(chunks, chunks.len() as int), k, r, bests.last());
    }
}

/// The best `k` positions of `keys` (there is exactly one such list).
pub open spec fn top_k_of(keys: Seq<u32>, k: nat) -> Seq<Ranked> {
    choose|r: Seq<Ranked>| is_top_k(r, keys, k)
}

/// Total length of the first `n` chunks.
pub open spec fn lens_prefix(lens: Seq<usize>, n: int) -> nat
    decreases n,
{
    if n <= 0 {
        0
    } else {
        lens_prefix(lens, n - 1) + lens[n - 1] as nat
    }
}

/// The running best `k` after the first `n` chunk selections are merged in
/// turn: the running best followed by the next chunk's selection, selected
/// again, its items carried back to positions of the whole sequence.
pub open spec fn fold_selections(sels: Seq<Seq<Ranked>>, lens: Seq<usize>, k: nat, n: int) -> Seq<
    Ranked,
>
    decreases n,
{
    if n <= 0 {
        Seq::empty()
    } else {
        let prev = fold_selections(sels, lens, k, n - 1);
        to_whole(
            top_k_of(merged_keys(prev, sels[n - 1]), k),
            prev,
            sels[n - 1],
            lens_prefix(lens, n - 1),
        )
    }
}

/// Chunk lengths add up to at least any of their prefixes.
proof fn lemma_lens_prefix_grows(lens: Seq<usize>, i: int, n: int)
    requires
        0 <= i <= n,
    ensures
        lens_prefix(lens, i) <= lens_prefix(lens, n),
    decreases n - i,
{
    if i < n {
        lemma_lens_prefix_grows(lens, i, n - 1);
    }
}

/// Chunks of the given lengths have prefixes of the summed lengths.
proof fn lemma_prefix_lens(chunks: Seq<Seq<u32>>, lens: Seq<usize>, n: int)
    requires
        0 <= n <= chunks.len(),
        chunks.len() == lens.len(),
        forall|i: int| 0 <= i < chunks.len() ==> #[trigger] chunks[i].len() == lens[i],
    ensures
        chunks_prefix(chunks, n).len() == lens_prefix(lens, n),
    decreases n,
{
    if n > 0 {
        lemma_prefix_lens(chunks, lens, n - 1);
    }
}

/// The merged selections carried back to the whole sequence: the best `k`
/// of `best` followed by `part`, whose positions start at `offset`.
fn merge_step(best: &Vec<Ranked>, part: &Vec<Ranked>, offset: usize, len: usize, top_k: usize) -> (next: Vec<Ranked>)
    requires
        offset + len <= usize::MAX,
        forall|u: int| 0 <= u < part.len() ==> #[trigger] part[u].item < len,
        forall|u: int| 0 <= u < best.len() ==> #[trigger] best[u].item < offset,
    ensures
        is_top_k(
            top_k_of(merged_keys(best@, part@), top_k as nat),
            merged_keys(best@, part@),
            top_k as nat,
        ),
        next@ == to_whole(top_k_of(merged_keys(best@, part@), top_k as nat), best@, part@, offset as nat),
        forall|u: int| 0 <= u < next.len() ==> #[trigger] next[u].item < offset + len,
{
    let ghost k = top_k as nat;
    let mut keys: Vec<u32> = Vec::new();
    let mut t: usize = 0;
    while t < best.len()
        invariant
            t <= best.len(),
            keys.len() == t,
            forall|u: int| 0 <= u < t ==> #[trigger] keys[u] == best[u].key,
        decreases best.len() - t,
    {
        keys.push(best[t].key);
        t += 1;
    }
    let mut t: usize = 0;
    while t < part.len()
        invariant
            t <= part.len(),
            keys.len() == best.len() + t,
            forall|u: int| 0 <= u < best.len() ==> #[trigger] keys[u] == best[u].key,
            forall|u: int| 0 <= u < t ==> #[trigger] keys[best.len() + u] == part[u].key,
        decreases part.len() - t,
    {
        keys.push(part[t].key);
        t += 1;
    }
    let ghost mk = merged_keys(best@, part@);
    proof {
        assert(keys@ =~= mk) by {
            assert forall|u: int| 0 <= u < mk.len() implies keys@[u] == mk[u] by {
                if u >= best.len() {
                    assert(keys[best.len() + (u - best.len())] == part[u - best.len()].key);
                }
            }
        }
    }
    let rm = select_top_k(&keys, top_k);
    proof {
        lemma_top_k_unique(mk, k, rm@, top_k_of(mk, k));
    }
    let mut next: Vec<Ranked> = Vec::new();
    let mut t: usize = 0;
    while t < rm.len()
        invariant
            t <= rm.len(),
            next.len() == t,
            is_top_k(rm@, mk, k),
            mk.len() == best.len() + part.len(),
            offset + len <= usize::MAX,
            forall|u: int| 0 <= u < part.len() ==> #[trigger] part[u].item < len,
            forall|u: int| 0 <= u < best.len() ==> #[trigger] best[u].item < offset,
            forall|u: int|
                0 <= u < t ==> #[trigger] next[u] == to_whole(rm@, best@, part@, offset as nat)[u],
            forall|u: int| 0 <= u < t ==> #[trigger] next[u].item < offset + len,
        decreases rm.len() - t,
    {
        let u = rm[t].item;
        let pos = if u < best.len() {
            best[u].item
        } else {
            offset + part[u - best.len()].item
        };
        next.push(Ranked { item: pos, key: rm[t].key });
        t += 1;
    }
    proof {
        assert(next@ =~= to_whole(rm@, best@, part@, offset as nat));
    }
    next
}

/// A fold whose every merge had a best `k` is a chunk fold of chunks whose
/// selections these are, so it ends at the best `k` of all the chunks.
proof fn lemma_fold_selections_top_k(
    chunks: Seq<Seq<u32>>,
    ss: Seq<Seq<Ranked>>,
    lens: Seq<usize>,
    k: nat,
)
    requires
        chunks.len() == ss.len(),
        lens.len() == ss.len(),
        lens_prefix(lens, lens.len() as int) <= usize::MAX,
        forall|i: int| 0 <= i < chunks.len() ==> #[trigger] chunks[i].len() == lens[i],
        forall|i: int| 0 <= i < chunks.len() ==> is_top_k(#[trigger] ss[i], chunks[i], k),
        forall|j: int|
            0 <= j < ss.len() ==> is_top_k(
                top_k_of(merged_keys(#[trigger] fold_selections(ss, lens, k, j), ss[j]), k),
                merged_keys(fold_selections(ss, lens, k, j), ss[j]),
                k,
            ),
    ensures
        is_top_k(
            fold_selections(ss, lens, k, ss.len() as int),
            chunks_prefix(chunks, ss.len() as int),
            k,
        ),
{
    let n = ss.len() as int;
    let bests = Seq::new((n + 1) as nat, |j: int| fold_selections(ss, lens, k, j));
    let merges = Seq::new(
        n as nat,
        |j: int| top_k_of(merged_keys(fold_selections(ss, lens, k, j), ss[j]), k),
    );
    lemma_prefix_lens(chunks, lens, n);
    assert forall|j: int| 0 <= j < n implies is_top_k(
        #[trigger] merges[j],
        merged_keys(bests[j], ss[j]),
        k,
    ) by {
        assert(bests[j] == fold_selections(ss, lens, k, j));
    }
    assert forall|j: int| 0 <= j < n implies bests[j + 1] == to_whole(
        #[trigger] merges[j],
        bests[j],
        ss[j],
        chunks_prefix(chunks, j).len(),
    ) by {
        lemma_prefix_lens(chunks, lens, j);
        assert(bests[j + 1] == fold_selections(ss, lens, k, j + 1));
    }
    assert(bests[0] =~= Seq::<Ranked>::empty());
    assert(is_chunk_fold(chunks, ss, merges, bests, k));
    lemma_top_k_of_chunk_fold(chunks, ss, merges, bests, k);
    assert(bests.last() == fold_selections(ss, lens, k, n));
}

/// Merge selections made over consecutive chunks of a sequence, `sels[i]`
/// over a chunk of `lens[i]` positions, into the best `top_k` of the whole
/// sequence: the running best and each chunk's selection in turn are selected
/// again, and items are turned into positions of the whole sequence.
pub fn merge_chunk_selections(sels: &Vec<Vec<Ranked>>, lens: &Vec<usize>, top_k: usize) -> (r: Vec<
    Ranked,
>)
    requires
        sels.len() == lens.len(),
        lens_prefix(lens@, lens.len() as int) <= usize::MAX,
        forall|i: int, t: int|
            0 <= i < sels.len() && 0 <= t < sels[i].len() ==> #[trigger] sels[i][t].item < lens[i],
    ensures
        r@ == fold_selections(
            sels@.map_values(|v: Vec<Ranked>| v@),
            lens@,
            top_k as nat,
            sels.len() as int,
        ),
        forall|chunks: Seq<Seq<u32>>|
            #![trigger chunks_prefix(chunks, sels.len() as int)]
            chunks.len() == sels.len() && (forall|i: int|
                0 <= i < chunks.len() ==> #[trigger] chunks[i].len() == lens[i] && is_top_k(
                    sels[i]@,
                    chunks[i],
                    top_k as nat,
                )) ==> is_top_k(r@, chunks_prefix(chunks, sels.len() as int), top_k as nat),
{
    let ghost ss = sels@.map_values(|v: Vec<Ranked>| v@);
    let ghost k = top_k as nat;
    let mut best: Vec<Ranked> = Vec::new();
    let mut offset: usize = 0;
    let mut i: usize = 0;
    while i < sels.len()
        invariant
            sels.len() == lens.len(),
            ss == sels@.map_values(|v: Vec<Ranked>| v@),
            k == top_k as nat,
            lens_prefix(lens@, lens.len() as int) <= usize::MAX,
            forall|a: int, t: int|
                0 <= a < sels.len() && 0 <= t < sels[a].len() ==> #[trigger] sels[a][t].item < lens[a],
            i <= sels.len(),
            offset == lens_prefix(lens@, i as int),
            best@ == fold_selections(ss, lens@, k, i as int),
            forall|t: int| 0 <= t < best.len() ==> #[trigger] best[t].item < offset,
            forall|j: int|
                0 <= j < i ==> is_top_k(
                    top_k_of(merged_keys(#[trigger] fold_selections(ss, lens@, k, j), ss[j]), k),
                    merged_keys(fold_selections(ss, lens@, k, j), ss[j]),
                    k,
                ),
        decreases sels.len() - i,
    {
        proof {
            assert(ss[i as int] == sels[i as int]@);
            lemma_lens_prefix_grows(lens@, i + 1, lens.len() as int);
        }
        let next = merge_step(&best, &sels[i], offset, lens[i], top_k);
        best = next;
        offset = offset + lens[i];
        i += 1;
    }
    proof {
        assert forall|chunks: Seq<Seq<u32>>|
            #![trigger chunks_prefix(chunks, sels.len() as int)]
            chunks.len() == sels.len() && (forall|a: int|
                0 <= a < chunks.len() ==> #[trigger] chunks[a].len() == lens[a] && is_top_k(
                    sels[a]@,
                    chunks[a],
                    k,
                )) implies is_top_k(best@, chunks_prefix(chunks, sels.len() as int), k) by {
            assert forall|a: int| 0 <= a < chunks.len() implies is_top_k(#[trigger] ss[a], chunks[a], k) by {
                assert(ss[a] == sels[a]@);
            }
            lemma_fold_selections_top_k(chunks, ss, lens@, k);
        }
    }
    best
}

} // verus!
