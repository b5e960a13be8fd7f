use turbo_vec::index::hnsw::{GraphLayer, HnswGraph, HnswInsert, HnswSearch, LayerSearch};

fn key(a: u32, b: u32) -> u32 {
    u32::MAX - a.abs_diff(b)
}

fn insert(g: &mut HnswGraph, vals: &mut Vec<u32>, v: u32, level: usize) {
    vals.push(v);
    let mut job = HnswInsert::start(g, level);
    while !job.finished() {
        let keys: Vec<u32> = job.pending().iter().map(|&n| key(vals[n], v)).collect();
        job.supply(g, &keys);
    }
}

fn search(g: &HnswGraph, vals: &[u32], q: u32, top_k: usize, ef: usize) -> Vec<(usize, u32)> {
    let mut job = HnswSearch::start(g, top_k, ef);
    while !job.finished() {
        let keys: Vec<u32> = job.pending().iter().map(|&n| key(vals[n], q)).collect();
        job.supply(g, &keys);
    }
    job.results().iter().map(|r| (r.item, r.key)).collect()
}

#[test]
fn connect_skips_self_and_repeats_and_cuts_when_full() {
    let mut layer = GraphLayer::new();
    for _ in 0..4 {
        layer.add_node();
    }
    layer.connect(0, 0, 2);
    assert!(layer.neighbors[0].is_empty());
    layer.connect(0, 1, 2);
    layer.connect(0, 1, 2);
    layer.connect(0, 2, 2);
    assert_eq!(layer.neighbors[0], vec![1, 2]);
    layer.connect(0, 3, 2);
    assert_eq!(layer.neighbors[0], vec![1, 2]);
}

#[test]
fn first_node_becomes_entry_point() {
    let mut g = HnswGraph::new(4, 10);
    let mut vals = Vec::new();
    insert(&mut g, &mut vals, 50, 2);
    assert_eq!(g.entry_point, Some(0));
    assert_eq!(g.max_level, 2);
    assert_eq!(g.layers.len(), 3);
    assert_eq!(g.len(), 1);
}

#[test]
fn higher_level_node_takes_over_entry_point() {
    let mut g = HnswGraph::new(4, 10);
    let mut vals = Vec::new();
    insert(&mut g, &mut vals, 50, 0);
    insert(&mut g, &mut vals, 60, 1);
    assert_eq!(g.entry_point, Some(1));
    assert_eq!(g.max_level, 1);
    insert(&mut g, &mut vals, 70, 0);
    assert_eq!(g.entry_point, Some(1));
    assert_eq!(g.layers[0].neighbors[2].len() > 0, true);
}

#[test]
fn empty_graph_search_finds_nothing() {
    let g = HnswGraph::new(4, 10);
    assert!(search(&g, &[], 5, 3, 10).is_empty());
    assert!(g.is_empty());
}

#[test]
fn search_finds_the_closest_values() {
    let mut g = HnswGraph::new(8, 32);
    let mut vals = Vec::new();
    let levels = [0usize, 1, 0, 0, 2, 0, 1, 0, 0, 0, 1, 0, 0, 0, 0, 3, 0, 0, 1, 0];
    for i in 0..60u32 {
        let v = (i * 37) % 101;
        insert(&mut g, &mut vals, v, levels[(i as usize) % levels.len()]);
    }
    let res = search(&g, &vals, 42, 5, 60);
    assert_eq!(res.len(), 5);
    for w in res.windows(2) {
        assert!(w[0].1 >= w[1].1);
    }
    let mut truth: Vec<u32> = vals.iter().map(|&v| key(v, 42)).collect();
    truth.sort_by(|a, b| b.cmp(a));
    assert_eq!(res[0].1, truth[0]);
    for (i, r) in res.iter().enumerate() {
        assert_eq!(r.1, key(vals[r.0], 42));
        assert_eq!(r.1, truth[i]);
    }
}

#[test]
fn neighbor_lists_stay_within_caps() {
    let m = 3;
    let mut g = HnswGraph::new(m, 8);
    let mut vals = Vec::new();
    for i in 0..40u32 {
        insert(&mut g, &mut vals, (i * 17) % 53, (i % 3) as usize);
    }
    for (l, layer) in g.layers.iter().enumerate() {
        let cap = if l == 0 { 2 * m } else { m };
        for (a, list) in layer.neighbors.iter().enumerate() {
            assert!(list.len() <= cap);
            assert!(!list.contains(&(a as u32)));
        }
    }
}

#[test]
fn links_go_both_ways_unless_the_list_is_full() {
    let m = 2;
    let mut g = HnswGraph::new(m, 6);
    let mut vals = Vec::new();
    for i in 0..25u32 {
        insert(&mut g, &mut vals, (i * 29) % 61, (i % 4 == 0) as usize);
    }
    for (l, layer) in g.layers.iter().enumerate() {
        let cap = if l == 0 { 2 * m } else { m };
        for (a, list) in layer.neighbors.iter().enumerate() {
            for &b in list {
                let back = &layer.neighbors[b as usize];
                assert!(back.contains(&(a as u32)) || back.len() == cap);
            }
        }
    }
}

#[test]
fn search_with_zero_top_k_finds_nothing() {
    let mut g = HnswGraph::new(4, 10);
    let mut vals = Vec::new();
    for i in 0..5u32 {
        insert(&mut g, &mut vals, i * 3, 0);
    }
    assert!(search(&g, &vals, 4, 0, 10).is_empty());
    assert_eq!(search(&g, &vals, 4, 1, 10), vec![(1, key(3, 4))]);
}

#[test]
fn connect_to_itself_changes_nothing_even_out_of_range() {
    let mut layer = GraphLayer::new();
    layer.connect(5, 5, 2);
    assert!(layer.neighbors.is_empty());
}

#[test]
fn beam_search_keeps_at_most_ef_results_even_from_many_entry_points() {
    let mut g = HnswGraph::new(4, 10);
    let mut vals = Vec::new();
    for v in [10u32, 20, 30, 40, 50] {
        insert(&mut g, &mut vals, v, 0);
    }
    let mut s = LayerSearch::start(&g, &[0, 1, 2, 3], 2, 0);
    while !s.done {
        let keys: Vec<u32> = s.pending.iter().map(|&n| key(vals[n], 47)).collect();
        s.supply(&g, &keys);
    }
    let res: Vec<usize> = s.results().iter().map(|r| r.item).collect();
    assert_eq!(res, vec![4, 3]);
}

#[test]
fn beam_search_of_width_zero_keeps_nothing() {
    let mut g = HnswGraph::new(4, 10);
    let mut vals = Vec::new();
    for v in [10u32, 20, 30] {
        insert(&mut g, &mut vals, v, 0);
    }
    let mut s = LayerSearch::start(&g, &[0, 1], 0, 0);
    while !s.done {
        let keys: Vec<u32> = s.pending.iter().map(|&n| key(vals[n], 25)).collect();
        s.supply(&g, &keys);
    }
    assert!(s.results().is_empty());
}

#[test]
fn insertion_with_zero_construction_width_links_nothing() {
    let mut g = HnswGraph::new(4, 0);
    let mut vals = Vec::new();
    insert(&mut g, &mut vals, 10, 1);
    insert(&mut g, &mut vals, 20, 0);
    insert(&mut g, &mut vals, 30, 2);
    assert_eq!(g.len(), 3);
    assert_eq!(g.entry_point, Some(2));
    assert_eq!(g.max_level, 2);
    for layer in &g.layers {
        for list in &layer.neighbors {
            assert!(list.is_empty());
        }
    }
}

#[test]
fn beam_search_stops_at_the_first_candidate_below_the_worst_result() {
    // Nodes e, x, y, z, w with keys 5, 1, 7, 6, 100; e links to x and y, x to
    // w, y to z. With width 2 the search stops when x (key 1) is the best
    // candidate left, so w is never reached.
    let keys_of = [5u32, 1, 7, 6, 100];
    let g = HnswGraph {
        layers: vec![GraphLayer { neighbors: vec![vec![1, 2], vec![0, 4], vec![0, 3], vec![2], vec![1]] }],
        node_count: 5,
        m: 4,
        m_max0: 8,
        ef_construction: 10,
        entry_point: Some(0),
        max_level: 0,
    };
    let mut s = LayerSearch::start(&g, &[0], 2, 0);
    while !s.done {
        let keys: Vec<u32> = s.pending.iter().map(|&n| keys_of[n]).collect();
        s.supply(&g, &keys);
    }
    let res: Vec<(usize, u32)> = s.results().iter().map(|r| (r.item, r.key)).collect();
    assert_eq!(res, vec![(2, 7), (3, 6)]);
    assert!(!s.visited.contains(&4));
}

#[test]
fn search_and_insertion_start_from_the_entry_point() {
    let mut g = HnswGraph::new(4, 10);
    let mut vals = Vec::new();
    insert(&mut g, &mut vals, 10, 0);
    insert(&mut g, &mut vals, 20, 2);
    insert(&mut g, &mut vals, 30, 0);
    assert_eq!(g.entry_point, Some(1));
    let search = HnswSearch::start(&g, 1, 4);
    assert_eq!(search.pending(), vec![1]);
    let job = HnswInsert::start(&mut g, 0);
    assert_eq!(job.pending(), vec![1]);
}
