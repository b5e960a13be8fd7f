use turbo_vec::index::select::{merge_chunk_selections, select_top_k, Ranked};

fn items(r: &[Ranked]) -> Vec<usize> {
    r.iter().map(|x| x.item).collect()
}

#[test]
fn top_k_takes_highest_keys_first() {
    let keys = vec![5, 1, 9, 7, 3];
    let r = select_top_k(&keys, 3);
    assert_eq!(items(&r), vec![2, 3, 0]);
    assert_eq!(r.iter().map(|x| x.key).collect::<Vec<_>>(), vec![9, 7, 5]);
}

#[test]
fn top_k_breaks_ties_by_position() {
    let keys = vec![4, 8, 4, 8, 4];
    assert_eq!(items(&select_top_k(&keys, 3)), vec![1, 3, 0]);
    assert_eq!(items(&select_top_k(&keys, 5)), vec![1, 3, 0, 2, 4]);
}

#[test]
fn top_k_of_zero_is_empty() {
    assert!(select_top_k(&[3, 2, 1], 0).is_empty());
}

#[test]
fn top_k_beyond_length_takes_all() {
    assert_eq!(items(&select_top_k(&[1, 3, 2], 10)), vec![1, 2, 0]);
    assert!(select_top_k(&[], 4).is_empty());
}

#[test]
fn top_k_of_merged_chunk_selections_matches_whole() {
    // Per-chunk selections, merged and selected again, give the selection of
    // the whole sequence.
    let keys: Vec<u32> = vec![12, 3, 40, 7, 40, 18, 2, 33, 9, 18, 25, 1];
    let k = 4;
    let whole = select_top_k(&keys, k);
    let mut merged_keys = Vec::new();
    let mut merged_pos = Vec::new();
    for (c, chunk) in keys.chunks(5).enumerate() {
        for r in select_top_k(chunk, k) {
            merged_keys.push(r.key);
            merged_pos.push(c * 5 + r.item);
        }
    }
    let merged: Vec<usize> = select_top_k(&merged_keys, k).iter().map(|r| merged_pos[r.item]).collect();
    assert_eq!(merged, items(&whole));
}

#[test]
fn top_k_folded_over_chunks_matches_whole() {
    // The best of the chunks so far, followed by the best of the next chunk,
    // selected again: after the last chunk this is the selection of the whole.
    let keys: Vec<u32> = vec![7, 7, 2, 30, 7, 30, 1, 9, 9, 30, 0, 7, 8];
    let k = 5;
    let mut best: Vec<(usize, u32)> = Vec::new();
    for (c, chunk) in keys.chunks(4).enumerate() {
        let mut merged: Vec<(usize, u32)> = best.clone();
        for r in select_top_k(chunk, k) {
            merged.push((c * 4 + r.item, r.key));
        }
        let merged_keys: Vec<u32> = merged.iter().map(|m| m.1).collect();
        best = select_top_k(&merged_keys, k).iter().map(|r| merged[r.item]).collect();
    }
    let whole: Vec<(usize, u32)> = select_top_k(&keys, k).iter().map(|r| (r.item, r.key)).collect();
    assert_eq!(best, whole);
    assert_eq!(whole, vec![(3, 30), (5, 30), (9, 30), (7, 9), (8, 9)]);
}

#[test]
fn merging_chunk_selections_matches_one_pass() {
    let keys: Vec<u32> = vec![5, 9, 1, 9, 7, 3, 9, 2, 8, 8];
    let lens = vec![3usize, 4, 3];
    let mut sels = Vec::new();
    let mut start = 0;
    for &len in &lens {
        sels.push(select_top_k(&keys[start..start + len], 4));
        start += len;
    }
    let merged = merge_chunk_selections(&sels, &lens, 4);
    assert_eq!(merged, select_top_k(&keys, 4));
    assert_eq!(items(&merged), vec![1, 3, 6, 8]);
}
