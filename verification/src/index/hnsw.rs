//! Graph logic of the HNSW (Hierarchical Navigable Small World) index.
//!
//! Scores of nodes against a query are computed outside this module; the
//! searches here are step machines that name the nodes whose score keys they
//! need next (`pending`) and continue once those keys are supplied.
use vstd::prelude::*;
use std::collections::HashSet;
use crate::index::select::{
    Ranked, all_at_least, distinct_items, has_item, insert_asc, insert_by_asc, insert_by_desc,
    insert_desc, lemma_bounded_insert, sorted_asc, sorted_desc,
};

verus! {

broadcast use vstd::std_specs::hash::group_hash_axioms;

/// One layer of the graph: the adjacency list of every node.
pub struct GraphLayer {
    /// `neighbors[node]` lists the neighbor indices of `node`.
    pub neighbors: Vec<Vec<u32>>,
}

/// The list that connecting `b` to a node with adjacency `list` leaves: `b` is
/// appended unless already present, and the list is then cut to its first
/// `max` entries.
pub open spec fn connected_list(list: Seq<u32>, b: u32, max: nat) -> Seq<u32> {
    if list.contains(b) {
        list
    } else if list.len() + 1 > max {
        list.push(b).take(max as int)
    } else {
        list.push(b)
    }
}

impl GraphLayer {
    /// Adjacency of the layer as sequences.
    pub open spec fn adj(&self) -> Seq<Seq<u32>> {
        Seq::new(self.neighbors@.len(), |a: int| self.neighbors@[a]@)
    }

    pub fn new() -> (layer: Self)
        ensures
            layer.adj() == Seq::<Seq<u32>>::empty(),
    {
        GraphLayer { neighbors: Vec::new() }
    }

    /// Add a node without neighbors.
    pub fn add_node(&mut self)
        ensures
            final(self).adj() == old(self).adj().push(Seq::<u32>::empty()),
    {
        self.neighbors.push(Vec::new());
        proof {
            assert(self.adj() =~= old(self).adj().push(Seq::<u32>::empty()));
        }
    }

    /// Make `b` a neighbor of `a`, keeping at most `max_connections` neighbors.
    ///
    /// Nothing changes when `a == b` or when `b` is already a neighbor. When the
    /// list is full the new entry is the one cut off.
    pub fn connect(&mut self, a: usize, b: usize, max_connections: usize)
        requires
            a == b || a < old(self).neighbors.len(),
        ensures
            final(self).adj() == (if a == b {
                old(self).adj()
            } else {
                old(self).adj().update(
                    a as int,
                    connected_list(old(self).adj()[a as int], b as u32, max_connections as nat),
                )
            }),
    {
        if a == b {
            return;
        }
        let b32 = b as u32;
        let mut found = false;
        let mut t: usize = 0;
        while t < self.neighbors[a].len()
            invariant
                a < self.neighbors.len(),
                self == old(self),
                t <= self.neighbors[a as int].len(),
                found == (exists|u: int| 0 <= u < t && self.neighbors[a as int]@[u] == b32),
            decreases self.neighbors[a as int].len() - t,
        {
            if self.neighbors[a][t] == b32 {
                found = true;
            }
            t += 1;
        }
        if !found {
            self.neighbors[a].push(b32);
            if self.neighbors[a].len() > max_connections {
                self.neighbors[a].truncate(max_connections);
            }
        }
        proof {
            assert(self.adj() =~= (if a == b {
                old(self).adj()
            } else {
                old(self).adj().update(
                    a as int,
                    connected_list(old(self).adj()[a as int], b as u32, max_connections as nat),
                )
            }));
        }
    }
}

/// The layered graph of an HNSW index, without the vectors.
pub struct HnswGraph {
    /// Graph layers. `layers[0]` is the bottom (densest) layer.
    pub layers: Vec<GraphLayer>,
    /// Number of nodes; nodes are `0 .. node_count`.
    pub node_count: usize,
    /// Max connections per node per layer (except layer 0).
    pub m: usize,
    /// Max connections at layer 0.
    pub m_max0: usize,
    /// Size of the dynamic candidate list during construction.
    pub ef_construction: usize,
    /// Entry point node (in the topmost layer).
    pub entry_point: Option<usize>,
    /// Level of the entry point.
    pub max_level: usize,
}

impl HnswGraph {
    /// Neighbors of node `a` in layer `l`.
    #[verifier::inline]
    pub open spec fn nbrs(&self, l: int, a: int) -> Seq<u32> {
        self.layers@[l].neighbors@[a]@
    }

    /// Most neighbors a node keeps in layer `l`.
    pub open spec fn cap(&self, l: int) -> nat {
        if l == 0 {
            self.m_max0 as nat
        } else {
            self.m as nat
        }
    }

    /// Structural invariant of the graph: it holds between operations.
    pub open spec fn wf(&self) -> bool {
        &&& self.wf_shape()
        &&& (self.entry_point is Some) == (self.node_count > 0)
    }

    /// Shape of the layers and neighbor lists, and the entry point within them.
    pub open spec fn wf_shape(&self) -> bool {
        &&& self.node_count <= u32::MAX
        &&& forall|l: int|
            0 <= l < self.layers.len() ==> #[trigger] self.layers@[l].neighbors.len()
                == self.node_count
        &&& forall|l: int, a: int, t: int|
            0 <= l < self.layers.len() && 0 <= a < self.node_count && 0 <= t < self.nbrs(
                l,
                a,
            ).len() ==> {
                &&& #[trigger] self.nbrs(l, a)[t] < self.node_count
                &&& self.nbrs(l, a)[t] != a
            }
        &&& forall|l: int, a: int, t: int, u: int|
            0 <= l < self.layers.len() && 0 <= a < self.node_count && 0 <= t < u < self.nbrs(
                l,
                a,
            ).len() ==> #[trigger] self.nbrs(l, a)[t] != #[trigger] self.nbrs(l, a)[u]
        &&& forall|l: int, a: int|
            0 <= l < self.layers.len() && 0 <= a < self.node_count ==> #[trigger] self.nbrs(
                l,
                a,
            ).len() <= self.cap(l)
        &&& self.entry_point matches Some(e) ==> e < self.node_count && self.max_level
            < self.layers.len()
        &&& self.m_max0 == 2 * self.m
    }

    /// Create an empty graph.
    ///
    /// - `m`: max connections per layer (typical: 16)
    /// - `ef_construction`: beam width during construction (typical: 200)
    pub fn new(m: usize, ef_construction: usize) -> (g: Self)
        requires
            m <= usize::MAX / 2,
        ensures
            g.wf(),
            g.node_count == 0,
            g.layers.len() == 0,
            g.m == m,
            g.m_max0 == 2 * m,
            g.ef_construction == ef_construction,
            g.entry_point is None,
            g.max_level == 0,
    {
        HnswGraph {
            layers: Vec::new(),
            node_count: 0,
            m,
            m_max0: m * 2,
            ef_construction,
            entry_point: None,
            max_level: 0,
        }
    }

    pub fn len(&self) -> (n: usize)
        ensures
            n == self.node_count,
    {
        self.node_count
    }

    pub fn is_empty(&self) -> (b: bool)
        ensures
            b == (self.node_count == 0),
    {
        self.node_count == 0
    }

    /// Neighbors of `a` in layer `l`, as node indices.
    fn neighbor_nodes(&self, l: usize, a: usize) -> (r: Vec<usize>)
        requires
            self.wf(),
            l < self.layers.len(),
            a < self.node_count,
        ensures
            r.len() == self.nbrs(l as int, a as int).len(),
            forall|t: int| 0 <= t < r.len() ==> #[trigger] r[t] == self.nbrs(l as int, a as int)[t],
    {
        assert(self.layers@[l as int].neighbors.len() == self.node_count);
        let list = &self.layers[l].neighbors[a];
        let mut r: Vec<usize> = Vec::with_capacity(list.len());
        let mut t: usize = 0;
        while t < list.len()
            invariant
                list@ == self.nbrs(l as int, a as int),
                t <= list.len(),
                r.len() == t,
                forall|u: int| 0 <= u < t ==> #[trigger] r[u] == list@[u],
            decreases list.len() - t,
        {
            r.push(list[t] as usize);
            t += 1;
        }
        r
    }
}

/// Greedy walk in one layer toward the node of highest score key.
///
/// From the current node, the neighbors are scored in order; any that beats
/// the best key so far becomes the current node. The walk ends when a round
/// over the neighbors of the current node improves nothing.
pub struct GreedySearch {
    pub layer: usize,
    pub current: usize,
    pub best: u32,
    /// Nodes whose keys are needed next, in order.
    pub pending: Vec<usize>,
    /// Whether `best` holds the key of `current` yet.
    pub scored: bool,
    pub done: bool,
    /// The key last supplied for each node.
    pub known: Ghost<Map<usize, u32>>,
}

impl GreedySearch {
    /// The walk is in a consistent state over graph `g`.
    pub open spec fn inv(&self, g: &HnswGraph) -> bool {
        &&& g.wf()
        &&& self.layer < g.layers.len()
        &&& self.current < g.node_count
        &&& forall|t: int| 0 <= t < self.pending.len() ==> #[trigger] self.pending@[t] < g.node_count
        &&& forall|t: int, u: int|
            0 <= t < u < self.pending.len() ==> #[trigger] self.pending@[t] != #[trigger] self.pending@[u]
        &&& !self.scored ==> self.pending@ == seq![self.current] && !self.done
        &&& self.scored ==> self.known@.contains_key(self.current) && self.known@[self.current]
            == self.best
        &&& self.scored && !self.done ==> self.pending.len() == g.nbrs(
            self.layer as int,
            self.current as int,
        ).len() && forall|t: int|
            0 <= t < self.pending.len() ==> #[trigger] self.pending@[t] == g.nbrs(
                self.layer as int,
                self.current as int,
            )[t]
        &&& self.done ==> self.pending.len() == 0
    }

    /// Every neighbor of the current node was scored no higher than it.
    pub open spec fn at_local_max(&self, g: &HnswGraph) -> bool {
        forall|t: int|
            0 <= t < g.nbrs(self.layer as int, self.current as int).len() ==> {
                &&& self.known@.contains_key(
                    #[trigger] g.nbrs(self.layer as int, self.current as int)[t] as usize,
                )
                &&& self.known@[g.nbrs(self.layer as int, self.current as int)[t] as usize]
                    <= self.best
            }
    }

    /// `next` is where one round of the walk leads from this state, given the
    /// keys of the pending nodes in order: the first key is taken as the
    /// current node's; after that, the current node moves to the first
    /// neighbor holding the highest key above the best so far, if any; the walk
    /// is done once a round improves nothing or the current node has no
    /// neighbors.
    pub open spec fn advances_to(&self, g: &HnswGraph, keys: Seq<u32>, next: GreedySearch) -> bool {
        &&& next.inv(g)
        &&& next.layer == self.layer
        &&& next.scored
        &&& self.scored ==> self.best <= next.best
        &&& !self.scored ==> next.current == self.current && next.best == keys[0]
        &&& self.scored && next.current != self.current ==> self.best < next.best
        &&& self.scored ==> forall|t: int| 0 <= t < keys.len() ==> #[trigger] keys[t] <= next.best
        &&& self.scored && next.current != self.current ==> exists|p: int|
            0 <= p < keys.len() && self.pending@[p] == next.current && keys[p] == next.best
                && forall|t: int| 0 <= t < p ==> #[trigger] keys[t] < next.best
        &&& self.scored && next.current == self.current ==> next.best == self.best
        &&& next.done == (g.nbrs(next.layer as int, next.current as int).len() == 0 || (self.scored
            && next.current == self.current))
        &&& forall|t: int|
            0 <= t < keys.len() ==> #[trigger] next.known@.contains_key(self.pending@[t])
                && next.known@[self.pending@[t]] == keys[t]
        &&& next.done ==> next.at_local_max(g)
    }

    /// Start a walk at `entry` in layer `layer`; the first key needed is the entry's.
    pub fn start(g: &HnswGraph, entry: usize, layer: usize) -> (s: Self)
        requires
            g.wf(),
            layer < g.layers.len(),
            entry < g.node_count,
        ensures
            s.inv(g),
            s.layer == layer,
            s.current == entry,
            !s.scored,
            !s.done,
            s.known@ == Map::<usize, u32>::empty(),
    {
        let mut pending: Vec<usize> = Vec::new();
        pending.push(entry);
        GreedySearch {
            layer,
            current: entry,
            best: 0,
            pending,
            scored: false,
            done: false,
            known: Ghost(Map::empty()),
        }
    }

    /// Take the keys of the pending nodes, in order, and advance.
    pub fn supply(&mut self, g: &HnswGraph, keys: &[u32])
        requires
            old(self).inv(g),
            !old(self).done,
            keys.len() == old(self).pending.len(),
        ensures
            old(self).advances_to(g, keys@, *final(self)),
    {
        if !self.scored {
            self.best = keys[0];
            self.known = Ghost(self.known@.insert(self.current, keys[0]));
            self.scored = true;
            self.pending = g.neighbor_nodes(self.layer, self.current);
            if self.pending.len() == 0 {
                self.done = true;
            }
        } else {
            let ghost start = self.current;
            let mut improved = false;
            let mut i: usize = 0;
            let ghost mut pos: int = -1;
            while i < keys.len()
                invariant
                    g.wf(),
                    self.layer < g.layers.len(),
                    self.current < g.node_count,
                    self.known@.contains_key(self.current),
                    self.known@[self.current] == self.best,
                    forall|t: int|
                        0 <= t < self.pending.len() ==> #[trigger] self.pending@[t] < g.node_count,
                    forall|t: int, u: int|
                        0 <= t < u < self.pending.len() ==> #[trigger] self.pending@[t]
                            != #[trigger] self.pending@[u],
                    self.layer == old(self).layer,
                    self.pending == old(self).pending,
                    keys.len() == self.pending.len(),
                    self.scored,
                    !self.done,
                    i <= keys.len(),
                    old(self).best <= self.best,
                    improved == (self.current != start),
                    improved ==> old(self).best < self.best,
                    !improved ==> self.best == old(self).best,
                    start == old(self).current,
                    start < g.node_count,
                    self.pending.len() == g.nbrs(self.layer as int, start as int).len(),
                    forall|t: int|
                        0 <= t < self.pending.len() ==> #[trigger] self.pending@[t] == g.nbrs(
                            self.layer as int,
                            start as int,
                        )[t],
                    pos == -1 ==> self.current == start,
                    pos != -1 ==> 0 <= pos < i && self.pending@[pos] == self.current
                        && keys[pos] == self.best && forall|t: int|
                        0 <= t < pos ==> #[trigger] keys[t] < self.best,
                    forall|t: int|
                        0 <= t < i ==> self.known@.contains_key(#[trigger] self.pending@[t])
                            && self.known@[self.pending@[t]] == keys[t],
                    forall|t: int| 0 <= t < i ==> #[trigger] keys[t] <= self.best,
                decreases keys.len() - i,
            {
                let n = self.pending[i];
                let s = keys[i];
                proof {
                    assert(g.nbrs(self.layer as int, start as int)[i as int] != start);
                    if pos != -1 {
                        assert(self.pending@[pos] != self.pending@[i as int]);
                    }
                }
                self.known = Ghost(self.known@.insert(n, s));
                if s > self.best {
                    self.best = s;
                    self.current = n;
                    improved = true;
                    proof {
                        pos = i as int;
                    }
                }
                proof {
                    assert forall|t: int| 0 <= t < i + 1 implies self.known@.contains_key(
                        #[trigger] self.pending@[t],
                    ) && self.known@[self.pending@[t]] == keys[t] by {
                        if t < i {
                            assert(self.pending@[t] != self.pending@[i as int]);
                        }
                    }
                }
                i += 1;
            }
            if improved {
                self.pending = g.neighbor_nodes(self.layer, self.current);
                if self.pending.len() == 0 {
                    self.done = true;
                }
            } else {
                proof {
                    assert forall|t: int|
                        0 <= t < g.nbrs(self.layer as int, self.current as int).len() implies {
                        &&& self.known@.contains_key(
                            #[trigger] g.nbrs(self.layer as int, self.current as int)[t] as usize,
                        )
                        &&& self.known@[g.nbrs(self.layer as int, self.current as int)[t] as usize]
                            <= self.best
                    } by {
                        assert(self.pending@[t] == g.nbrs(self.layer as int, start as int)[t]);
                        assert(keys[t] <= self.best);
                    }
                }
                self.pending = Vec::new();
                self.done = true;
            }
        }
    }
}

/// Beam search in one layer: returns up to `ef` of the best nodes found,
/// highest key first.
///
/// `candidates` holds nodes still to expand (best at the end); `results` holds
/// the best nodes found (worst at the end). A node is scored the first time it
/// is reached. The results never exceed `ef`, from the entry points on: with
/// more entry points than `ef` only the best `ef` of them are kept as results
/// (all of them are still expanded as candidates), and a search of width 0
/// keeps no result.
pub struct LayerSearch {
    pub layer: usize,
    pub ef: usize,
    pub visited: HashSet<usize>,
    pub candidates: Vec<Ranked>,
    pub results: Vec<Ranked>,
    /// Nodes whose keys are needed next, in order.
    pub pending: Vec<usize>,
    /// Whether the pending nodes are the entry points.
    pub seeding: bool,
    pub done: bool,
    /// The key supplied for each scored node.
    pub known: Ghost<Map<usize, u32>>,
    /// Nodes whose neighbors have been reached.
    pub expanded: Ghost<Set<usize>>,
}

/// `key` ranks no higher than any result, and at least `ef` results are held.
pub open spec fn dominated(results: Seq<Ranked>, key: u32, ef: nat) -> bool {
    all_at_least(results, key) && results.len() >= ef
}

/// Every entry of `s` is a node below `n` whose key is the one scored for it.
pub open spec fn scored_entries(s: Seq<Ranked>, known: Map<usize, u32>, n: nat) -> bool {
    forall|t: int|
        0 <= t < s.len() ==> #[trigger] s[t].item < n && known.contains_key(s[t].item)
            && known[s[t].item] == s[t].key
}

/// No scored node left out of `results` has a higher key than one in it, and
/// nodes are left out only once `ef` results are held.
pub open spec fn best_of_scored(results: Seq<Ranked>, known: Map<usize, u32>, ef: nat) -> bool {
    forall|v: usize|
        #[trigger] known.contains_key(v) && !has_item(results, v as int) ==> all_at_least(
            results,
            known[v],
        ) && results.len() >= ef
}

/// Results and candidates after the key of one scored node `x` is taken in:
/// the node is admitted while the entry points are scored, while fewer than
/// `ef` results are held, or when it beats the last (worst) result; an
/// admitted node joins the candidates and the results, and the results are
/// cut back to `ef`.
pub open spec fn take_key(
    seeding: bool,
    ef: nat,
    results: Seq<Ranked>,
    cands: Seq<Ranked>,
    x: Ranked,
) -> (Seq<Ranked>, Seq<Ranked>) {
    if seeding || results.len() < ef || (results.len() > 0 && x.key > results.last().key) {
        let r = insert_by_desc(results, x);
        (if r.len() > ef {
            r.drop_last()
        } else {
            r
        }, insert_by_asc(cands, x))
    } else {
        (results, cands)
    }
}

/// Results and candidates after the keys of the first `i` of `nodes` are
/// taken in, in order.
pub open spec fn take_keys(
    seeding: bool,
    ef: nat,
    results: Seq<Ranked>,
    cands: Seq<Ranked>,
    nodes: Seq<usize>,
    keys: Seq<u32>,
    i: int,
) -> (Seq<Ranked>, Seq<Ranked>)
    decreases i,
{
    if i <= 0 {
        (results, cands)
    } else {
        let prev = take_keys(seeding, ef, results, cands, nodes, keys, i - 1);
        take_key(seeding, ef, prev.0, prev.1, Ranked { item: nodes[i - 1], key: keys[i - 1] })
    }
}

/// The visited set and the newly reached nodes after walking the first `t`
/// of `nodes` in order: each node not yet visited is marked and reached.
pub open spec fn reach(nodes: Seq<usize>, visited: Set<usize>, t: int) -> (Set<usize>, Seq<usize>)
    decreases t,
{
    if t <= 0 {
        (visited, Seq::empty())
    } else {
        let prev = reach(nodes, visited, t - 1);
        let n = nodes[t - 1];
        if prev.0.contains(n) {
            prev
        } else {
            (prev.0.insert(n), prev.1.push(n))
        }
    }
}

/// Walking a single node from nothing visited reaches exactly that node.
proof fn lemma_reach_one(nodes: Seq<usize>, e: usize)
    requires
        nodes == seq![e],
    ensures
        reach(nodes, Set::<usize>::empty(), 1).1 == seq![e],
        forall|v: usize| #[trigger] reach(nodes, Set::<usize>::empty(), 1).0.contains(v) <==> v == e,
{
    assert(reach(nodes, Set::<usize>::empty(), 0) == (Set::<usize>::empty(), Seq::<usize>::empty()));
    assert(Seq::<usize>::empty().push(e) =~= seq![e]);
}

/// Neighbors of node `a` in layer `l` of `g`, as node indices.
pub open spec fn nbr_nodes(g: &HnswGraph, l: int, a: int) -> Seq<usize> {
    g.nbrs(l, a).map_values(|n: u32| n as usize)
}

/// Candidates, visited set, pending nodes and whether the search is over,
/// once the candidates are expanded best first from the given state: the
/// best candidate is taken off; the search ends when there is none, or when
/// that candidate is below the last result while `ef` results are held;
/// otherwise its neighbors not yet visited are reached, in adjacency order,
/// and become pending, or, when there are none, the next candidate is taken.
pub open spec fn expand(
    g: &HnswGraph,
    l: int,
    ef: nat,
    results: Seq<Ranked>,
    cands: Seq<Ranked>,
    visited: Set<usize>,
) -> (Seq<Ranked>, Set<usize>, Seq<usize>, bool)
    decreases cands.len(),
{
    if cands.len() == 0 {
        (cands, visited, Seq::empty(), true)
    } else {
        let c = cands.last();
        let rest = cands.drop_last();
        if results.len() > 0 && c.key < results.last().key && results.len() >= ef {
            (rest, visited, Seq::empty(), true)
        } else {
            let nb = nbr_nodes(g, l, c.item as int);
            let found = reach(nb, visited, nb.len() as int);
            if found.1.len() > 0 {
                (rest, found.0, found.1, false)
            } else {
                expand(g, l, ef, results, rest, found.0)
            }
        }
    }
}

impl LayerSearch {
    /// Results and candidates are sorted, hold scored nodes with their keys,
    /// and the results are the best of the scored nodes.
    pub open spec fn ranked(&self, g: &HnswGraph) -> bool {
        &&& sorted_desc(self.results@)
        &&& distinct_items(self.results@)
        &&& scored_entries(self.results@, self.known@, g.node_count as nat)
        &&& sorted_asc(self.candidates@)
        &&& distinct_items(self.candidates@)
        &&& scored_entries(self.candidates@, self.known@, g.node_count as nat)
        &&& best_of_scored(self.results@, self.known@, self.ef as nat)
    }

    /// Every reached node is scored or pending; every scored node is still a
    /// candidate, or has had its neighbors reached, or ranks no higher than the
    /// results; and once the search is over, so do the remaining candidates.
    pub open spec fn explored(&self, g: &HnswGraph) -> bool {
        &&& forall|v: usize| #[trigger]
            self.visited@.contains(v) ==> self.known@.contains_key(v) || self.pending@.contains(v)
        &&& forall|v: usize| #[trigger]
            self.known@.contains_key(v) ==> has_item(self.candidates@, v as int)
                || self.expanded@.contains(v) || dominated(
                self.results@,
                self.known@[v],
                self.ef as nat,
            )
        &&& forall|v: usize| #[trigger]
            self.expanded@.contains(v) ==> v < g.node_count && forall|u: int|
                0 <= u < g.nbrs(self.layer as int, v as int).len() ==> self.visited@.contains(
                    #[trigger] g.nbrs(self.layer as int, v as int)[u] as usize,
                )
        &&& self.done ==> forall|t: int|
            0 <= t < self.candidates.len() ==> dominated(
                self.results@,
                #[trigger] self.candidates@[t].key,
                self.ef as nat,
            )
        &&& forall|t: int|
            0 <= t < self.results.len() ==> has_item(
                self.candidates@,
                #[trigger] self.results@[t].item as int,
            ) || self.expanded@.contains(self.results@[t].item)
        &&& self.done ==> forall|t: int|
            0 <= t < self.results.len() ==> self.expanded@.contains(#[trigger] self.results@[t].item)
    }

    /// The search is in a consistent state over graph `g`.
    pub open spec fn inv(&self, g: &HnswGraph) -> bool {
        &&& g.wf()
        &&& self.layer < g.layers.len()
        &&& forall|t: int|
            0 <= t < self.pending.len() ==> {
                &&& #[trigger] self.pending@[t] < g.node_count
                &&& self.visited@.contains(self.pending@[t])
                &&& !self.known@.contains_key(self.pending@[t])
            }
        &&& forall|t: int, u: int|
            0 <= t < u < self.pending.len() ==> #[trigger] self.pending@[t] != #[trigger] self.pending@[u]
        &&& forall|v: usize| #[trigger] self.known@.contains_key(v) ==> self.visited@.contains(v)
        &&& self.ranked(g)
        &&& self.explored(g)
        &&& self.seeding ==> self.results.len() == 0 && self.candidates.len() == 0
            && self.known@ == Map::<usize, u32>::empty() && self.expanded@ == Set::<usize>::empty()
        &&& !self.seeding && self.ef > 0 ==> self.results.len() > 0
        &&& self.results.len() <= self.ef
        &&& self.done ==> self.pending.len() == 0
        &&& !self.done ==> self.pending.len() > 0
    }

    /// Start a search in layer `layer` from `entry_points`, keeping `ef` results;
    /// the first keys needed are those of the distinct entry points.
    pub fn start(g: &HnswGraph, entry_points: &[usize], ef: usize, layer: usize) -> (s: Self)
        requires
            g.wf(),
            layer < g.layers.len(),
            forall|t: int| 0 <= t < entry_points.len() ==> #[trigger] entry_points[t] < g.node_count,
        ensures
            s.inv(g),
            s.layer == layer,
            s.ef == ef,
            s.seeding,
            s.known@ == Map::<usize, u32>::empty(),
            forall|v: usize| #[trigger] s.visited@.contains(v) <==> entry_points@.contains(v),
            forall|t: int| 0 <= t < s.pending.len() ==> entry_points@.contains(#[trigger] s.pending@[t]),
            s.done == (entry_points.len() == 0),
            (s.visited@, s.pending@) == reach(entry_points@, Set::<usize>::empty(), entry_points.len() as int),
    {
        let mut visited: HashSet<usize> = HashSet::new();
        let mut pending: Vec<usize> = Vec::new();
        let mut i: usize = 0;
        while i < entry_points.len()
            invariant
                (visited@, pending@) == reach(entry_points@, Set::<usize>::empty(), i as int),
                i <= entry_points.len(),
                forall|t: int| 0 <= t < entry_points.len() ==> #[trigger] entry_points[t] < g.node_count,
                forall|v: usize| #[trigger]
                    visited@.contains(v) <==> exists|t: int| 0 <= t < i && entry_points@[t] == v,
                forall|v: usize| #[trigger] visited@.contains(v) ==> pending@.contains(v),
                forall|t: int|
                    0 <= t < pending.len() ==> #[trigger] pending@[t] < g.node_count
                        && visited@.contains(pending@[t]) && entry_points@.contains(pending@[t]),
                forall|t: int, u: int|
                    0 <= t < u < pending.len() ==> #[trigger] pending@[t] != #[trigger] pending@[u],
                i > 0 ==> pending.len() > 0,
                i == 0 ==> pending.len() == 0,
            decreases entry_points.len() - i,
        {
            let ep = entry_points[i];
            let ghost before = pending@;
            let ghost vbefore = visited@;
            if visited.insert(ep) {
                pending.push(ep);
                proof {
                    assert(pending@[pending.len() - 1] == ep);
                    assert forall|v: usize| #[trigger] visited@.contains(v) implies pending@.contains(v) by {
                        if v != ep {
                            assert(before.contains(v));
                            let t = choose|t: int| 0 <= t < before.len() && before[t] == v;
                            assert(pending@[t] == v);
                        }
                    }
                }
            }
            proof {
                assert(entry_points@[i as int] == ep);
                assert(entry_points@.contains(ep));
                if vbefore.contains(ep) {
                    assert(visited@ =~= vbefore);
                }
            }
            i += 1;
        }
        let done = pending.len() == 0;
        LayerSearch {
            layer,
            ef,
            visited,
            candidates: Vec::new(),
            results: Vec::new(),
            pending,
            seeding: true,
            done,
            known: Ghost(Map::empty()),
            expanded: Ghost(Set::empty()),
        }
    }

    /// `next` is the state one round of the search leads to from this one,
    /// given the keys of the pending nodes in order: the keys are taken in
    /// (`take_keys`), then candidates are expanded best first (`expand`) until
    /// new nodes are reached or the search ends; each pending node is scored
    /// with its key, earlier keys are kept, and nothing else is scored.
    pub open spec fn advances_to(&self, g: &HnswGraph, keys: Seq<u32>, next: LayerSearch) -> bool {
        let taken = take_keys(
            self.seeding,
            self.ef as nat,
            self.results@,
            self.candidates@,
            self.pending@,
            keys,
            keys.len() as int,
        );
        let expanded = expand(g, self.layer as int, self.ef as nat, taken.0, taken.1, self.visited@);
        &&& next.results@ == taken.0
        &&& next.candidates@ == expanded.0
        &&& next.visited@ == expanded.1
        &&& next.pending@ == expanded.2
        &&& next.done == expanded.3
        &&& next.inv(g)
        &&& next.layer == self.layer
        &&& next.ef == self.ef
        &&& !next.seeding
        &&& forall|t: int|
            0 <= t < keys.len() ==> #[trigger] next.known@.contains_key(self.pending@[t])
                && next.known@[self.pending@[t]] == keys[t]
        &&& forall|v: usize| #[trigger]
            self.known@.contains_key(v) ==> next.known@.contains_key(v) && next.known@[v]
                == self.known@[v]
        &&& forall|v: usize| #[trigger]
            next.known@.contains_key(v) ==> self.known@.contains_key(v) || self.pending@.contains(v)
    }

    /// The state between rounds: all supplied keys processed, nothing pending.
    pub open spec fn settled(&self, g: &HnswGraph) -> bool {
        &&& g.wf()
        &&& self.layer < g.layers.len()
        &&& self.pending.len() == 0
        &&& !self.seeding
        &&& !self.done
        &&& self.ef > 0 ==> self.results.len() > 0
        &&& self.results.len() <= self.ef
        &&& forall|v: usize| #[trigger] self.known@.contains_key(v) ==> self.visited@.contains(v)
        &&& self.ranked(g)
        &&& self.explored(g)
    }

    /// Take the keys of the pending nodes, in order, and advance to the next
    /// nodes to score, or to the end of the search.
    pub fn supply(&mut self, g: &HnswGraph, keys: &[u32])
        requires
            old(self).inv(g),
            !old(self).done,
            keys.len() == old(self).pending.len(),
        ensures
            old(self).advances_to(g, keys@, *final(self)),
    {
        let mut i: usize = 0;
        while i < keys.len()
            invariant
                take_keys(
                    old(self).seeding,
                    old(self).ef as nat,
                    old(self).results@,
                    old(self).candidates@,
                    old(self).pending@,
                    keys@,
                    i as int,
                ) == (self.results@, self.candidates@),
                g.wf(),
                self.layer < g.layers.len(),
                self.layer == old(self).layer,
                self.ef == old(self).ef,
                self.seeding == old(self).seeding,
                self.done == old(self).done,
                self.pending == old(self).pending,
                keys.len() == self.pending.len(),
                i <= keys.len(),
                forall|t: int|
                    0 <= t < self.pending.len() ==> {
                        &&& #[trigger] self.pending@[t] < g.node_count
                        &&& self.visited@.contains(self.pending@[t])
                    },
                forall|t: int, u: int|
                    0 <= t < u < self.pending.len() ==> #[trigger] self.pending@[t]
                        != #[trigger] self.pending@[u],
                forall|t: int|
                    i <= t < self.pending.len() ==> !self.known@.contains_key(
                        #[trigger] self.pending@[t],
                    ),
                forall|t: int|
                    0 <= t < i ==> self.known@.contains_key(#[trigger] self.pending@[t])
                        && self.known@[self.pending@[t]] == keys[t],
                forall|v: usize| #[trigger]
                    old(self).known@.contains_key(v) ==> self.known@.contains_key(v)
                        && self.known@[v] == old(self).known@[v],
                forall|v: usize| #[trigger]
                    self.known@.contains_key(v) ==> old(self).known@.contains_key(v)
                        || old(self).pending@.contains(v),
                forall|v: usize| #[trigger] self.known@.contains_key(v) ==> self.visited@.contains(v),
                sorted_desc(self.results@),
                distinct_items(self.results@),
                scored_entries(self.results@, self.known@, g.node_count as nat),
                sorted_asc(self.candidates@),
                scored_entries(self.candidates@, self.known@, g.node_count as nat),
                best_of_scored(self.results@, self.known@, self.ef as nat),
                self.seeding ==> forall|v: usize| #[trigger]
                    self.known@.contains_key(v) ==> has_item(self.candidates@, v as int),
                self.seeding ==> self.expanded@ == Set::<usize>::empty(),
                self.expanded == old(self).expanded,
                self.visited@ == old(self).visited@,
                distinct_items(self.candidates@),
                forall|t: int|
                    0 <= t < self.results.len() ==> has_item(
                        self.candidates@,
                        #[trigger] self.results@[t].item as int,
                    ) || self.expanded@.contains(self.results@[t].item),
                forall|v: usize| #[trigger]
                    self.visited@.contains(v) ==> self.known@.contains_key(v) || self.pending@.contains(v),
                forall|v: usize| #[trigger]
                    self.known@.contains_key(v) ==> has_item(self.candidates@, v as int)
                        || self.expanded@.contains(v) || dominated(
                        self.results@,
                        self.known@[v],
                        self.ef as nat,
                    ),
                forall|v: usize| #[trigger]
                    self.expanded@.contains(v) ==> v < g.node_count && forall|u: int|
                        0 <= u < g.nbrs(self.layer as int, v as int).len() ==> self.visited@.contains(
                            #[trigger] g.nbrs(self.layer as int, v as int)[u] as usize,
                        ),
                !self.seeding && self.ef > 0 ==> self.results.len() > 0,
                self.seeding && i > 0 && self.ef > 0 ==> self.results.len() > 0,
                self.results.len() <= self.ef,
                self.seeding ==> keys.len() > 0,
            decreases keys.len() - i,
        {
            let n = self.pending[i];
            let s = keys[i];
            let x = Ranked { item: n, key: s };
            let ghost k0 = self.known@;
            let ghost r0 = self.results@;
            let ghost c0 = self.candidates@;
            proof {
                assert(!k0.contains_key(n));
                assert(!has_item(r0, n as int)) by {
                    if has_item(r0, n as int) {
                        let t = choose|t: int| 0 <= t < r0.len() && #[trigger] r0[t].item == n;
                        assert(k0.contains_key(r0[t].item));
                    }
                }
            }
            self.known = Ghost(self.known@.insert(n, s));
            let rlen = self.results.len();
            let should_add = self.seeding || rlen < self.ef || (rlen > 0 && s > self.results[rlen
                - 1].key);
            if should_add {
                let jc = insert_asc(&mut self.candidates, x);
                let j = insert_desc(&mut self.results, x);
                let ghost ins = self.results@;
                if self.results.len() > self.ef {
                    self.results.pop();
                }
                proof {
                    assert(self.results@ == ins || self.results@ == ins.drop_last());
                    lemma_bounded_insert(r0, x, j as int, ins, self.results@);
                    assert forall|t: int| 0 <= t < self.candidates.len() implies #[trigger] self.candidates@[t].item
                        < g.node_count && self.known@.contains_key(self.candidates@[t].item)
                        && self.known@[self.candidates@[t].item] == self.candidates@[t].key by {
                        if t < jc {
                            assert(self.candidates@[t] == c0[t]);
                        } else if t > jc {
                            assert(self.candidates@[t] == c0[t - 1]);
                        }
                    }
                    assert forall|t: int| 0 <= t < self.candidates.len() implies #[trigger] self.candidates@[t] == (if t < jc {
                        c0[t]
                    } else if t == jc {
                        x
                    } else {
                        c0[t - 1]
                    }) by {}
                    assert(self.candidates@[jc as int] == x);
                    assert(!has_item(c0, n as int)) by {
                        if has_item(c0, n as int) {
                            let t = choose|t: int| 0 <= t < c0.len() && #[trigger] c0[t].item == n;
                            assert(k0.contains_key(c0[t].item));
                        }
                    }
                    assert forall|a: int, b: int| 0 <= a < b < self.candidates.len() implies #[trigger] self.candidates@[a].item
                        != #[trigger] self.candidates@[b].item by {
                        if a != jc && b != jc {
                            let a0 = if a < jc { a } else { a - 1 };
                            let b0 = if b < jc { b } else { b - 1 };
                            assert(self.candidates@[a] == c0[a0]);
                            assert(self.candidates@[b] == c0[b0]);
                        } else if a == jc {
                            let b0 = b - 1;
                            assert(self.candidates@[b] == c0[b0]);
                        } else {
                            assert(self.candidates@[a] == c0[a]);
                        }
                    }
                    assert forall|v: usize| #[trigger] has_item(c0, v as int) implies has_item(self.candidates@, v as int) by {
                        let t = choose|t: int| 0 <= t < c0.len() && #[trigger] c0[t].item == v;
                        let t2 = if t < jc { t } else { t + 1 };
                        assert(self.candidates@[t2].item == v);
                    }
                    assert(has_item(self.candidates@, n as int)) by {
                        assert(self.candidates@[jc as int].item == n);
                    }
                    let worst0 = if rlen > 0 { r0[rlen - 1].key } else { 0u32 };
                    assert forall|v: usize| #[trigger] self.known@.contains_key(v) implies has_item(self.candidates@, v as int)
                        || self.expanded@.contains(v) || dominated(
                        self.results@,
                        self.known@[v],
                        self.ef as nat,
                    ) by {
                        if v != n {
                            assert(k0.contains_key(v));
                            if !has_item(c0, v as int) && !self.expanded@.contains(v) {
                                assert(dominated(r0, k0[v], self.ef as nat));
                                assert(!self.seeding);
                                assert(rlen >= self.ef);
                                assert(k0[v] <= r0[rlen - 1].key);
                                assert(all_at_least(r0, k0[v]));
                            }
                        }
                    }
                    assert forall|t: int| 0 <= t < self.results.len() implies #[trigger] self.results@[t].item
                        < g.node_count && self.known@.contains_key(self.results@[t].item)
                        && self.known@[self.results@[t].item] == self.results@[t].key by {
                        if self.results@[t] != x {
                            let u = choose|u: int| 0 <= u < r0.len() && self.results@[t] == #[trigger] r0[u];
                            assert(k0.contains_key(r0[u].item));
                        }
                    }
                    assert forall|v: usize| #[trigger] self.known@.contains_key(v) && !has_item(
                        self.results@,
                        v as int,
                    ) implies all_at_least(self.results@, self.known@[v]) && self.results.len()
                        >= self.ef by {
                        if self.results@ == ins {
                            assert(self.results@[j as int].item == n);
                        }
                        if v == n {
                        } else if has_item(r0, v as int) {
                            let u = choose|u: int| 0 <= u < r0.len() && #[trigger] r0[u].item == v;
                            assert(k0[v] == r0[u].key);
                            if self.results@ == ins {
                                let t = if u < j { u } else { u + 1 };
                                assert(self.results@[t] == r0[u]);
                            }
                        } else {
                            assert(k0.contains_key(v));
                            assert(all_at_least(r0, k0[v]));
                            assert(r0.len() >= self.ef);
                            if rlen > 0 {
                                assert(k0[v] <= r0[rlen - 1].key);
                            }
                        }
                    }
                    assert forall|t: int| 0 <= t < self.results.len() implies has_item(
                        self.candidates@,
                        #[trigger] self.results@[t].item as int,
                    ) || self.expanded@.contains(self.results@[t].item) by {
                        if self.results@[t] != x {
                            let u = choose|u: int| 0 <= u < r0.len() && self.results@[t] == #[trigger] r0[u];
                            if has_item(c0, r0[u].item as int) {
                                assert(has_item(self.candidates@, r0[u].item as int));
                            }
                        }
                    }
                }
            } else {
                proof {
                    assert forall|v: usize| #[trigger] self.known@.contains_key(v) && !has_item(
                        self.results@,
                        v as int,
                    ) implies all_at_least(self.results@, self.known@[v]) && self.results.len()
                        >= self.ef by {
                        if v == n {
                            if rlen > 0 {
                                assert forall|t: int| 0 <= t < rlen implies s <= #[trigger] self.results@[t].key by {
                                    assert(self.results@[t].key >= self.results@[rlen - 1].key);
                                }
                            }
                        } else {
                            assert(k0.contains_key(v));
                        }
                    }
                    assert forall|v: usize| #[trigger] self.known@.contains_key(v) implies has_item(self.candidates@, v as int)
                        || self.expanded@.contains(v) || dominated(
                        self.results@,
                        self.known@[v],
                        self.ef as nat,
                    ) by {
                        if v == n {
                            if rlen > 0 {
                                assert forall|t: int| 0 <= t < rlen implies s <= #[trigger] self.results@[t].key by {
                                    assert(self.results@[t].key >= self.results@[rlen - 1].key);
                                }
                            }
                        } else {
                            assert(k0.contains_key(v));
                        }
                    }
                }
            }
            proof {
                assert forall|t: int| 0 <= t < i + 1 implies self.known@.contains_key(
                    #[trigger] self.pending@[t],
                ) && self.known@[self.pending@[t]] == keys[t] by {
                    if t < i {
                        assert(self.pending@[t] != self.pending@[i as int]);
                    }
                }
                assert forall|t: int| i + 1 <= t < self.pending.len() implies !self.known@.contains_key(
                    #[trigger] self.pending@[t],
                ) by {
                    assert(self.pending@[t] != self.pending@[i as int]);
                }
                assert(old(self).pending@[i as int] == n);
            }
            i += 1;
        }
        let ghost processed = self.pending@;
        self.seeding = false;
        self.pending = Vec::new();
        proof {
            assert forall|v: usize| #[trigger] self.visited@.contains(v) implies self.known@.contains_key(v)
                || self.pending@.contains(v) by {
                if processed.contains(v) {
                    let t = choose|t: int| 0 <= t < processed.len() && processed[t] == v;
                    assert(self.known@.contains_key(processed[t]));
                }
            }
        }
        self.advance(g);
    }

    /// Expand candidates, best first, until one yields unvisited neighbors to
    /// score or the search ends.
    fn advance(&mut self, g: &HnswGraph)
        requires
            old(self).settled(g),
        ensures
            final(self).inv(g),
            final(self).layer == old(self).layer,
            final(self).ef == old(self).ef,
            !final(self).seeding,
            final(self).known == old(self).known,
            final(self).results@ == old(self).results@,
            final(self).candidates@ == expand(
                g,
                old(self).layer as int,
                old(self).ef as nat,
                old(self).results@,
                old(self).candidates@,
                old(self).visited@,
            ).0,
            final(self).visited@ == expand(
                g,
                old(self).layer as int,
                old(self).ef as nat,
                old(self).results@,
                old(self).candidates@,
                old(self).visited@,
            ).1,
            final(self).pending@ == expand(
                g,
                old(self).layer as int,
                old(self).ef as nat,
                old(self).results@,
                old(self).candidates@,
                old(self).visited@,
            ).2,
            final(self).done == expand(
                g,
                old(self).layer as int,
                old(self).ef as nat,
                old(self).results@,
                old(self).candidates@,
                old(self).visited@,
            ).3,
    {
        let ghost target = expand(
            g,
            self.layer as int,
            self.ef as nat,
            self.results@,
            self.candidates@,
            self.visited@,
        );
        loop
            invariant
                self.settled(g),
                self.layer == old(self).layer,
                self.ef == old(self).ef,
                self.known == old(self).known,
                self.results@ == old(self).results@,
                target == expand(
                    g,
                    old(self).layer as int,
                    old(self).ef as nat,
                    old(self).results@,
                    old(self).candidates@,
                    old(self).visited@,
                ),
                expand(g, self.layer as int, self.ef as nat, self.results@, self.candidates@, self.visited@)
                    == target,
            decreases self.candidates.len(),
        {
            if self.candidates.len() == 0 {
                self.done = true;
                proof {
                    assert(self.pending@ =~= Seq::<usize>::empty());
                }
                return;
            }
            let ghost c0 = self.candidates@;
            let c = self.candidates.pop().unwrap();
            proof {
                assert forall|t: int| 0 <= t < self.candidates.len() implies #[trigger] self.candidates@[t] == c0[t] by {}
                assert(c == c0[c0.len() - 1]);
                assert forall|v: usize| #[trigger] has_item(c0, v as int) && v != c.item implies has_item(
                    self.candidates@,
                    v as int,
                ) by {
                    let t = choose|t: int| 0 <= t < c0.len() && #[trigger] c0[t].item == v;
                    assert(t != c0.len() - 1);
                    assert(self.candidates@[t].item == v);
                }
                assert(c.item < g.node_count && self.known@.contains_key(c.item) && self.known@[c.item] == c.key);
            }
            let ghost c1 = self.candidates@;
            let ghost vstart = self.visited@;
            proof {
                assert(c1 =~= c0.drop_last());
            }
            let rlen = self.results.len();
            if rlen > 0 && c.key < self.results[rlen - 1].key && rlen >= self.ef {
                self.done = true;
                proof {
                    assert(self.pending@ =~= Seq::<usize>::empty());
                    assert(all_at_least(self.results@, c.key)) by {
                        assert forall|w: int| 0 <= w < rlen implies c.key <= #[trigger] self.results@[w].key by {
                            assert(self.results@[w].key >= self.results@[rlen - 1].key);
                        }
                    }
                    assert forall|t: int| 0 <= t < self.candidates.len() implies dominated(
                        self.results@,
                        #[trigger] self.candidates@[t].key,
                        self.ef as nat,
                    ) by {
                        assert(c0[t].key <= c0[c0.len() - 1].key);
                    }
                    assert forall|t: int| 0 <= t < self.results.len() implies self.expanded@.contains(
                        #[trigger] self.results@[t].item,
                    ) by {
                        let r = self.results@[t];
                        if has_item(c0, r.item as int) {
                            let u = choose|u: int| 0 <= u < c0.len() && #[trigger] c0[u].item == r.item;
                            assert(c0[u].key == self.known@[r.item]);
                            assert(c0[u].key <= c0[c0.len() - 1].key);
                            assert(r.key >= self.results@[rlen - 1].key);
                        }
                    }
                }
                return;
            }
            proof {
                self.expanded = Ghost(self.expanded@.insert(c.item));
                assert forall|t: int| 0 <= t < self.results.len() implies has_item(
                    self.candidates@,
                    #[trigger] self.results@[t].item as int,
                ) || self.expanded@.contains(self.results@[t].item) by {
                    let r = self.results@[t];
                    if has_item(c0, r.item as int) {
                        let u = choose|u: int| 0 <= u < c0.len() && #[trigger] c0[u].item == r.item;
                        if u < c0.len() - 1 {
                            assert(self.candidates@[u] == c0[u]);
                        }
                    }
                }
            }
            if self.layer < g.layers.len() {
                let nb = g.neighbor_nodes(self.layer, c.item);
                proof {
                    assert(nb@ =~= nbr_nodes(g, self.layer as int, c.item as int));
                    assert(self.pending@ =~= Seq::<usize>::empty());
                }
                let mut t: usize = 0;
                while t < nb.len()
                    invariant
                        reach(nb@, vstart, t as int) == (self.visited@, self.pending@),
                        self.results@ == old(self).results@,
                        g.wf(),
                        self.layer < g.layers.len(),
                        c.item < g.node_count,
                        nb.len() == g.nbrs(self.layer as int, c.item as int).len(),
                        forall|u: int| 0 <= u < nb.len() ==> #[trigger] nb[u] == g.nbrs(self.layer as int, c.item as int)[u],
                        t <= nb.len(),
                        self.known == old(self).known,
                        self.layer == old(self).layer,
                        self.ef == old(self).ef,
                        !self.seeding,
                        !self.done,
                        self.ef > 0 ==> self.results.len() > 0,
                        self.results.len() <= self.ef,
                        self.candidates@ == c1,
                        self.ranked(g),
                        self.expanded@.contains(c.item),
                        forall|t: int|
                            0 <= t < self.results.len() ==> has_item(
                                self.candidates@,
                                #[trigger] self.results@[t].item as int,
                            ) || self.expanded@.contains(self.results@[t].item),
                        forall|v: usize| #[trigger] self.known@.contains_key(v) ==> self.visited@.contains(v),
                        forall|u: int|
                            0 <= u < self.pending.len() ==> {
                                &&& #[trigger] self.pending@[u] < g.node_count
                                &&& self.visited@.contains(self.pending@[u])
                                &&& !self.known@.contains_key(self.pending@[u])
                            },
                        forall|u: int, w: int|
                            0 <= u < w < self.pending.len() ==> #[trigger] self.pending@[u]
                                != #[trigger] self.pending@[w],
                        forall|v: usize| #[trigger]
                            self.visited@.contains(v) ==> self.known@.contains_key(v) || self.pending@.contains(v),
                        forall|v: usize| #[trigger]
                            self.known@.contains_key(v) ==> has_item(self.candidates@, v as int)
                                || self.expanded@.contains(v) || dominated(
                                self.results@,
                                self.known@[v],
                                self.ef as nat,
                            ),
                        forall|v: usize| #[trigger]
                            self.expanded@.contains(v) && v != c.item ==> v < g.node_count && forall|u: int|
                                0 <= u < g.nbrs(self.layer as int, v as int).len() ==> self.visited@.contains(
                                    #[trigger] g.nbrs(self.layer as int, v as int)[u] as usize,
                                ),
                        forall|u: int| 0 <= u < t ==> self.visited@.contains(#[trigger] nb[u]),
                    decreases nb.len() - t,
                {
                    let n = nb[t];
                    proof {
                        assert(g.nbrs(self.layer as int, c.item as int)[t as int] < g.node_count);
                    }
                    let ghost p0 = self.pending@;
                    let ghost v0 = self.visited@;
                    proof {
                        assert(nb@[t as int] == n);
                    }
                    if self.visited.insert(n) {
                        self.pending.push(n);
                        proof {
                            assert forall|u: int, w: int| 0 <= u < w < self.pending.len() implies #[trigger] self.pending@[u]
                                != #[trigger] self.pending@[w] by {
                                if w == self.pending.len() - 1 {
                                    assert(v0.contains(p0[u]));
                                }
                            }
                            assert(self.pending@[self.pending.len() - 1] == n);
                            assert forall|v: usize| #[trigger] self.visited@.contains(v) implies self.known@.contains_key(v)
                                || self.pending@.contains(v) by {
                                if v != n && !self.known@.contains_key(v) {
                                    assert(p0.contains(v));
                                    let u = choose|u: int| 0 <= u < p0.len() && p0[u] == v;
                                    assert(self.pending@[u] == v);
                                }
                            }
                        }
                    }
                    proof {
                        if v0.contains(n) {
                            assert(self.visited@ =~= v0);
                        }
                    }
                    t += 1;
                }
                proof {
                    assert(nb@.len() == t);
                    assert forall|u: int| 0 <= u < g.nbrs(self.layer as int, c.item as int).len() implies self.visited@.contains(
                        #[trigger] g.nbrs(self.layer as int, c.item as int)[u] as usize,
                    ) by {
                        assert(nb[u] == g.nbrs(self.layer as int, c.item as int)[u]);
                    }
                }
            }
            if self.pending.len() > 0 {
                return;
            }
        }
    }

    /// The results found, highest key first.
    pub fn results(&self) -> (r: &Vec<Ranked>)
        ensures
            r@ == self.results@,
    {
        &self.results
    }

    /// When the search is over, every node it returns had all its neighbors in
    /// the layer scored: no result is left unexpanded.
    pub proof fn lemma_results_expanded_when_done(&self, g: &HnswGraph)
        requires
            self.inv(g),
            self.done,
        ensures
            forall|t: int, u: int|
                0 <= t < self.results.len() && 0 <= u < g.nbrs(
                    self.layer as int,
                    self.results@[t].item as int,
                ).len() ==> self.known@.contains_key(
                    #[trigger] g.nbrs(self.layer as int, self.results@[t].item as int)[u] as usize,
                ),
    {
        assert forall|t: int, u: int|
            0 <= t < self.results.len() && 0 <= u < g.nbrs(
                self.layer as int,
                self.results@[t].item as int,
            ).len() implies self.known@.contains_key(
            #[trigger] g.nbrs(self.layer as int, self.results@[t].item as int)[u] as usize,
        ) by {
            let v = self.results@[t].item;
            assert(self.expanded@.contains(v));
            let n = g.nbrs(self.layer as int, v as int)[u] as usize;
            assert(self.visited@.contains(n));
            assert(!self.pending@.contains(n));
        }
    }

    /// When the search is over, every node it scored either had all its
    /// neighbors in the layer scored too, or ranks no higher than every result
    /// while at least `ef` results are held.
    pub proof fn lemma_closed_when_done(&self, g: &HnswGraph)
        requires
            self.inv(g),
            self.done,
        ensures
            forall|v: usize| #[trigger]
                self.known@.contains_key(v) ==> (forall|u: int|
                    0 <= u < g.nbrs(self.layer as int, v as int).len() ==> self.known@.contains_key(
                        #[trigger] g.nbrs(self.layer as int, v as int)[u] as usize,
                    )) || dominated(self.results@, self.known@[v], self.ef as nat),
    {
        assert forall|v: usize| #[trigger] self.known@.contains_key(v) implies (forall|u: int|
            0 <= u < g.nbrs(self.layer as int, v as int).len() ==> self.known@.contains_key(
                #[trigger] g.nbrs(self.layer as int, v as int)[u] as usize,
            )) || dominated(self.results@, self.known@[v], self.ef as nat) by {
            if has_item(self.candidates@, v as int) {
                let t = choose|t: int| 0 <= t < self.candidates.len() && #[trigger] self.candidates@[t].item == v;
                assert(dominated(self.results@, self.candidates@[t].key, self.ef as nat));
            } else if self.expanded@.contains(v) {
                assert forall|u: int| 0 <= u < g.nbrs(self.layer as int, v as int).len() implies self.known@.contains_key(
                    #[trigger] g.nbrs(self.layer as int, v as int)[u] as usize,
                ) by {
                    assert(self.visited@.contains(g.nbrs(self.layer as int, v as int)[u] as usize));
                }
            }
        }
    }
}

/// Connecting keeps an adjacency list within bounds, free of repeats and of
/// the node itself, and within its cap.
proof fn lemma_connected_list(list: Seq<u32>, b: u32, max: nat, n: nat, a: int)
    requires
        forall|t: int| 0 <= t < list.len() ==> #[trigger] list[t] < n && list[t] != a,
        forall|t: int, u: int| 0 <= t < u < list.len() ==> #[trigger] list[t] != #[trigger] list[u],
        list.len() <= max,
        b < n,
        b != a,
    ensures
        ({
            let r = connected_list(list, b, max);
            &&& forall|t: int| 0 <= t < r.len() ==> #[trigger] r[t] < n && r[t] != a
            &&& forall|t: int, u: int| 0 <= t < u < r.len() ==> #[trigger] r[t] != #[trigger] r[u]
            &&& r.len() <= max
            &&& forall|t: int| 0 <= t < r.len() ==> #[trigger] r[t] == b || list.contains(r[t])
        }),
{
    let r = connected_list(list, b, max);
    if !list.contains(b) {
        let p = list.push(b);
        assert forall|t: int| 0 <= t < r.len() implies r[t] == p[t] by {}
        assert forall|t: int, u: int| 0 <= t < u < r.len() implies #[trigger] r[t] != #[trigger] r[u] by {
            assert(r[t] == p[t]);
            assert(r[u] == p[u]);
            if u == list.len() {
                assert(list[t] != b);
            }
        }
        assert forall|t: int| 0 <= t < r.len() implies #[trigger] r[t] == b || list.contains(r[t]) by {
            assert(r[t] == p[t]);
            if t < list.len() {
                assert(list[t] == r[t]);
            }
        }
    } else {
        assert forall|t: int| 0 <= t < r.len() implies #[trigger] r[t] == b || list.contains(r[t]) by {
            assert(list[t] == r[t]);
        }
    }
}

impl HnswGraph {
    /// Make `b` a neighbor of `a` in layer `l`, within the layer's cap.
    fn link(&mut self, l: usize, a: usize, b: usize)
        requires
            old(self).wf(),
            l < old(self).layers.len(),
            a < old(self).node_count,
            b < old(self).node_count,
        ensures
            final(self).wf(),
            final(self).node_count == old(self).node_count,
            final(self).m == old(self).m,
            final(self).m_max0 == old(self).m_max0,
            final(self).ef_construction == old(self).ef_construction,
            final(self).entry_point == old(self).entry_point,
            final(self).max_level == old(self).max_level,
            final(self).layers.len() == old(self).layers.len(),
            forall|l2: int, x: int|
                0 <= l2 < final(self).layers.len() && 0 <= x < final(self).node_count && (l2 != l
                    || x != a) ==> #[trigger] final(self).nbrs(l2, x) == old(self).nbrs(l2, x),
            final(self).nbrs(l as int, a as int) == (if a == b {
                old(self).nbrs(l as int, a as int)
            } else {
                connected_list(old(self).nbrs(l as int, a as int), b as u32, old(self).cap(l as int))
            }),
    {
        let max_conn = if l == 0 {
            self.m_max0
        } else {
            self.m
        };
        proof {
            assert(self.layers@[l as int].neighbors.len() == self.node_count);
            assert(self.layers@[l as int].adj()[a as int] == self.nbrs(l as int, a as int));
        }
        let ghost old_adj = self.layers@[l as int].adj();
        self.layers[l].connect(a, b, max_conn);
        proof {
            let na = self.layers@[l as int].adj();
            assert(self.layers@[l as int].neighbors.len() == na.len());
            assert forall|x: int| 0 <= x < self.node_count implies #[trigger] self.nbrs(l as int, x) == na[x] by {}
            assert forall|x: int| 0 <= x < self.node_count && x != a implies #[trigger] self.nbrs(l as int, x) == old(self).nbrs(l as int, x) by {
                assert(old_adj[x] == old(self).nbrs(l as int, x));
            }
            if a != b {
                lemma_connected_list(old(self).nbrs(l as int, a as int), b as u32, max_conn as nat, self.node_count as nat, a as int);
            }
            assert forall|l2: int| 0 <= l2 < self.layers.len() implies #[trigger] self.layers@[l2].neighbors.len() == self.node_count by {
                if l2 != l {
                    assert(self.layers@[l2] == old(self).layers@[l2]);
                }
            }
            assert forall|l2: int, x: int| 0 <= l2 < self.layers.len() && 0 <= x < self.node_count && (l2 != l || x != a)
                implies #[trigger] self.nbrs(l2, x) == old(self).nbrs(l2, x) by {
                if l2 != l {
                    assert(self.layers@[l2] == old(self).layers@[l2]);
                }
            }
            assert forall|l2: int, x: int, t: int|
                0 <= l2 < self.layers.len() && 0 <= x < self.node_count && 0 <= t < self.nbrs(l2, x).len()
                implies #[trigger] self.nbrs(l2, x)[t] < self.node_count && self.nbrs(l2, x)[t] != x by {
                if l2 != l || x != a {
                    assert(self.nbrs(l2, x) == old(self).nbrs(l2, x));
                }
            }
            assert forall|l2: int, x: int, t: int, u: int|
                0 <= l2 < self.layers.len() && 0 <= x < self.node_count && 0 <= t < u < self.nbrs(l2, x).len()
                implies #[trigger] self.nbrs(l2, x)[t] != #[trigger] self.nbrs(l2, x)[u] by {
                if l2 != l || x != a {
                    assert(self.nbrs(l2, x) == old(self).nbrs(l2, x));
                }
            }
            assert forall|l2: int, x: int|
                0 <= l2 < self.layers.len() && 0 <= x < self.node_count
                implies #[trigger] self.nbrs(l2, x).len() <= self.cap(l2) by {
                if l2 != l || x != a {
                    assert(self.nbrs(l2, x) == old(self).nbrs(l2, x));
                }
            }
        }
    }
}

impl GraphLayer {
    /// Add nodes without neighbors until there are `n` nodes.
    pub fn grow_to(&mut self, n: usize)
        requires
            old(self).neighbors.len() <= n,
        ensures
            final(self).neighbors.len() == n,
            forall|a: int|
                0 <= a < old(self).neighbors.len() ==> #[trigger] final(self).neighbors@[a]@
                    == old(self).neighbors@[a]@,
            forall|a: int|
                old(self).neighbors.len() <= a < n ==> #[trigger] final(self).neighbors@[a]@.len()
                    == 0,
    {
        while self.neighbors.len() < n
            invariant
                old(self).neighbors.len() <= self.neighbors.len() <= n,
                forall|a: int|
                    0 <= a < old(self).neighbors.len() ==> #[trigger] self.neighbors@[a]@
                        == old(self).neighbors@[a]@,
                forall|a: int|
                    old(self).neighbors.len() <= a < self.neighbors.len()
                        ==> #[trigger] self.neighbors@[a]@.len() == 0,
            decreases n - self.neighbors.len(),
        {
            let ghost before = self.adj();
            assert(before.len() == self.neighbors.len());
            self.add_node();
            proof {
                assert(self.adj().len() == self.neighbors.len());
                assert forall|a: int| 0 <= a < self.neighbors.len() implies #[trigger] self.neighbors@[a]@
                    == self.adj()[a] by {}
                assert forall|a: int| 0 <= a < before.len() implies #[trigger] before[a] == self.adj()[a] by {}
            }
        }
    }
}

impl HnswGraph {
    /// Add node `node_count` with no neighbors to every layer, first adding
    /// empty layers until there is one at `level`.
    fn open_node(&mut self, level: usize)
        requires
            old(self).wf(),
            old(self).node_count < u32::MAX,
            level < usize::MAX,
        ensures
            final(self).wf_shape(),
            final(self).node_count > 0,
            final(self).node_count == old(self).node_count + 1,
            final(self).m == old(self).m,
            final(self).m_max0 == old(self).m_max0,
            final(self).ef_construction == old(self).ef_construction,
            final(self).entry_point == old(self).entry_point,
            final(self).max_level == old(self).max_level,
            final(self).layers.len() == (if level < old(self).layers.len() {
                old(self).layers.len() as int
            } else {
                level + 1
            }),
            forall|l: int, a: int|
                0 <= l < old(self).layers.len() && 0 <= a < old(self).node_count
                    ==> #[trigger] final(self).nbrs(l, a) == old(self).nbrs(l, a),
            forall|l: int, a: int|
                0 <= l < final(self).layers.len() && 0 <= a < final(self).node_count && (l
                    >= old(self).layers.len() || a == old(self).node_count)
                    ==> #[trigger] final(self).nbrs(l, a).len() == 0,
    {
        let node = self.node_count;
        let ghost old_len = self.layers.len();
        while self.layers.len() <= level
            invariant
                self.node_count == node,
                node == old(self).node_count,
                self.m == old(self).m,
                self.m_max0 == old(self).m_max0,
                self.ef_construction == old(self).ef_construction,
                self.entry_point == old(self).entry_point,
                self.max_level == old(self).max_level,
                old_len == old(self).layers.len(),
                old_len <= self.layers.len(),
                self.layers.len() <= (if level < old_len {
                    old_len as int
                } else {
                    level + 1
                }),
                forall|l: int| 0 <= l < old_len ==> #[trigger] self.layers@[l] == old(self).layers@[l],
                forall|l: int| old_len <= l < self.layers.len() ==> #[trigger] self.layers@[l].neighbors.len() == 0,
            decreases level + 1 - self.layers.len(),
        {
            let fresh = GraphLayer::new();
            proof {
                assert(fresh.neighbors.len() == fresh.adj().len());
            }
            self.layers.push(fresh);
        }
        self.node_count = node + 1;
        let mut l: usize = 0;
        while l < self.layers.len()
            invariant
                self.node_count == node + 1,
                node == old(self).node_count,
                node < u32::MAX,
                old(self).wf(),
                self.m == old(self).m,
                self.m_max0 == old(self).m_max0,
                self.ef_construction == old(self).ef_construction,
                self.entry_point == old(self).entry_point,
                self.max_level == old(self).max_level,
                old_len == old(self).layers.len(),
                old_len <= self.layers.len(),
                self.layers.len() == (if level < old_len {
                    old_len as int
                } else {
                    level + 1
                }),
                l <= self.layers.len(),
                forall|l2: int| 0 <= l2 < l ==> #[trigger] self.layers@[l2].neighbors.len() == node + 1,
                forall|l2: int| 0 <= l2 < old_len && l <= l2 ==> #[trigger] self.layers@[l2] == old(self).layers@[l2],
                forall|l2: int| old_len <= l2 < self.layers.len() && l <= l2 ==> #[trigger] self.layers@[l2].neighbors.len() == 0,
                forall|l2: int, a: int|
                    0 <= l2 < l && 0 <= a <= node ==> #[trigger] self.nbrs(l2, a) == (if l2 < old_len && a < node { old(self).nbrs(l2, a) } else { Seq::<u32>::empty() }),
            decreases self.layers.len() - l,
        {
            proof {
                if l < old_len {
                    assert(old(self).layers@[l as int].neighbors.len() == node);
                }
            }
            let ghost before = self.layers@[l as int];
            let ghost all_before = self.layers@;
            let ghost pre = *self;
            self.layers[l].grow_to(node + 1);
            proof {
                assert forall|l2: int| 0 <= l2 < self.layers.len() && l2 != l implies #[trigger] self.layers@[l2] == all_before[l2] by {}
                assert forall|a: int| 0 <= a <= node implies #[trigger] self.nbrs(l as int, a) == (if l < old_len && a < node { old(self).nbrs(l as int, a) } else { Seq::<u32>::empty() }) by {
                    if l < old_len && a < node {
                        assert(before == old(self).layers@[l as int]);
                    }
                }
                assert forall|l2: int, a: int|
                    0 <= l2 < l + 1 && 0 <= a <= node implies #[trigger] self.nbrs(l2, a) == (if l2 < old_len && a < node { old(self).nbrs(l2, a) } else { Seq::<u32>::empty() }) by {
                    if l2 < l {
                        assert(pre.nbrs(l2, a) == (if l2 < old_len && a < node { old(self).nbrs(l2, a) } else { Seq::<u32>::empty() }));
                        assert(self.layers@[l2] == all_before[l2]);
                    } else {
                        if l < old_len && a < node {
                            assert(before == old(self).layers@[l as int]);
                        } else {
                            assert(self.nbrs(l2, a) =~= Seq::<u32>::empty());
                        }
                    }
                }
            }
            l += 1;
        }
        proof {
            assert forall|l2: int, a: int|
                0 <= l2 < self.layers.len() && 0 <= a < self.node_count
                implies #[trigger] self.nbrs(l2, a) == (if l2 < old_len && a < node { old(self).nbrs(l2, a) } else { Seq::<u32>::empty() }) by {}
            assert forall|l2: int, a: int, t: int|
                0 <= l2 < self.layers.len() && 0 <= a < self.node_count && 0 <= t < self.nbrs(l2, a).len()
                implies #[trigger] self.nbrs(l2, a)[t] < self.node_count && self.nbrs(l2, a)[t] != a by {
                assert(self.nbrs(l2, a) == (if l2 < old_len && a < node { old(self).nbrs(l2, a) } else { Seq::<u32>::empty() }));
            }
            assert forall|l2: int, a: int, t: int, u: int|
                0 <= l2 < self.layers.len() && 0 <= a < self.node_count && 0 <= t < u < self.nbrs(l2, a).len()
                implies #[trigger] self.nbrs(l2, a)[t] != #[trigger] self.nbrs(l2, a)[u] by {
                assert(self.nbrs(l2, a) == (if l2 < old_len && a < node { old(self).nbrs(l2, a) } else { Seq::<u32>::empty() }));
            }
            assert forall|l2: int, a: int|
                0 <= l2 < self.layers.len() && 0 <= a < self.node_count
                implies #[trigger] self.nbrs(l2, a).len() <= self.cap(l2) by {
                assert(self.nbrs(l2, a) == (if l2 < old_len && a < node { old(self).nbrs(l2, a) } else { Seq::<u32>::empty() }));
            }
        }
    }
}

/// Copy of a list of nodes.
fn copy_nodes(v: &Vec<usize>) -> (r: Vec<usize>)
    ensures
        r@ == v@,
{
    let mut r: Vec<usize> = Vec::with_capacity(v.len());
    let mut t: usize = 0;
    while t < v.len()
        invariant
            t <= v.len(),
            r@ == v@.subrange(0, t as int),
        decreases v.len() - t,
    {
        r.push(v[t]);
        t += 1;
    }
    r
}

/// The nodes of a ranked list, in order.
fn items_of(v: &Vec<Ranked>) -> (r: Vec<usize>)
    ensures
        r.len() == v.len(),
        forall|t: int| 0 <= t < r.len() ==> #[trigger] r[t] == v[t].item,
{
    let mut r: Vec<usize> = Vec::with_capacity(v.len());
    let mut t: usize = 0;
    while t < v.len()
        invariant
            t <= v.len(),
            r.len() == t,
            forall|u: int| 0 <= u < t ==> #[trigger] r[u] == v[u].item,
        decreases v.len() - t,
    {
        r.push(v[t].item);
        t += 1;
    }
    r
}

/// The graph differs from `g0` at most by `node` being connected to other
/// nodes in layer `l`.
pub open spec fn only_linked_to(g: &HnswGraph, g0: &HnswGraph, node: int, l: int) -> bool {
    forall|l2: int, a: int|
        0 <= l2 < g.layers.len() && 0 <= a < g.node_count && a != node ==> #[trigger] g.nbrs(l2, a)
            == g0.nbrs(l2, a) || (l2 == l && g.nbrs(l2, a) == connected_list(
            g0.nbrs(l2, a),
            node as u32,
            g0.cap(l2),
        ))
}

/// The graph's scalar settings and shape are those of `g0`.
pub open spec fn same_frame(g: &HnswGraph, g0: &HnswGraph) -> bool {
    &&& g.node_count == g0.node_count
    &&& g.m == g0.m
    &&& g.m_max0 == g0.m_max0
    &&& g.ef_construction == g0.ef_construction
    &&& g.layers.len() == g0.layers.len()
}

/// The first `k` items of `r`.
pub open spec fn first_items(r: Seq<Ranked>, k: int) -> Seq<usize> {
    Seq::new(k as nat, |i: int| r[i].item)
}

/// Adjacency `list` of `node` after connecting it to each of `items` in turn.
pub open spec fn link_all(list: Seq<u32>, items: Seq<usize>, node: usize, cap: nat) -> Seq<u32>
    decreases items.len(),
{
    if items.len() == 0 {
        list
    } else {
        let prev = link_all(list, items.drop_last(), node, cap);
        if items.last() == node {
            prev
        } else {
            connected_list(prev, items.last() as u32, cap)
        }
    }
}

/// Adjacency of `a` in layer `l` of `g0` once `node` has been linked both
/// ways with each of `items` there.
pub open spec fn linked_nbrs(g0: &HnswGraph, l: int, a: int, node: usize, items: Seq<usize>) -> Seq<u32> {
    if a == node {
        link_all(g0.nbrs(l, a), items, node, g0.cap(l))
    } else if items.contains(a as usize) {
        connected_list(g0.nbrs(l, a), node as u32, g0.cap(l))
    } else {
        g0.nbrs(l, a)
    }
}

impl HnswGraph {
    /// Connect `node` with the first `m` of `results` in layer `l`, both ways.
    fn link_results(&mut self, node: usize, l: usize, results: &Vec<Ranked>)
        requires
            old(self).wf(),
            l < old(self).layers.len(),
            node < old(self).node_count,
            forall|t: int| 0 <= t < results.len() ==> #[trigger] results[t].item < old(self).node_count,
            distinct_items(results@),
        ensures
            final(self).wf(),
            same_frame(final(self), old(self)),
            final(self).entry_point == old(self).entry_point,
            final(self).max_level == old(self).max_level,
            forall|l2: int, a: int|
                0 <= l2 < final(self).layers.len() && 0 <= a < final(self).node_count
                    ==> #[trigger] final(self).nbrs(l2, a) == (if l2 == l {
                    linked_nbrs(
                        old(self),
                        l as int,
                        a,
                        node,
                        first_items(
                            results@,
                            if results.len() < old(self).m {
                                results.len() as int
                            } else {
                                old(self).m as int
                            },
                        ),
                    )
                } else {
                    old(self).nbrs(l2, a)
                }),
    {
        let take = if results.len() < self.m {
            results.len()
        } else {
            self.m
        };
        let mut i: usize = 0;
        while i < take
            invariant
                self.wf(),
                same_frame(self, old(self)),
                self.entry_point == old(self).entry_point,
                self.max_level == old(self).max_level,
                l < self.layers.len(),
                node < self.node_count,
                take <= results.len(),
                i <= take,
                forall|t: int| 0 <= t < results.len() ==> #[trigger] results[t].item < old(self).node_count,
                distinct_items(results@),
                forall|l2: int, a: int|
                    0 <= l2 < self.layers.len() && 0 <= a < self.node_count ==> #[trigger] self.nbrs(
                        l2,
                        a,
                    ) == (if l2 == l {
                        linked_nbrs(old(self), l as int, a, node, first_items(results@, i as int))
                    } else {
                        old(self).nbrs(l2, a)
                    }),
            decreases take - i,
        {
            let nb = results[i].item;
            let ghost g1 = *self;
            let ghost items = first_items(results@, i as int);
            let ghost items2 = first_items(results@, i + 1);
            proof {
                assert(items2.drop_last() =~= items);
                assert(items2.last() == nb);
                assert forall|x: usize| #[trigger] items2.contains(x) == (items.contains(x) || x == nb) by {
                    if items2.contains(x) {
                        let t = choose|t: int| 0 <= t < items2.len() && items2[t] == x;
                        if t < i {
                            assert(items[t] == x);
                        }
                    }
                    if items.contains(x) {
                        let t = choose|t: int| 0 <= t < items.len() && items[t] == x;
                        assert(items2[t] == x);
                    }
                    if x == nb {
                        assert(items2[i as int] == x);
                    }
                }
                assert(!items.contains(nb)) by {
                    if items.contains(nb) {
                        let t = choose|t: int| 0 <= t < items.len() && items[t] == nb;
                        assert(results@[t].item != results@[i as int].item);
                    }
                }
            }
            self.link(l, node, nb);
            let ghost g2 = *self;
            self.link(l, nb, node);
            proof {
                assert forall|l2: int, a: int|
                    0 <= l2 < self.layers.len() && 0 <= a < self.node_count implies #[trigger] self.nbrs(l2, a)
                        == (if l2 == l {
                        linked_nbrs(old(self), l as int, a, node, items2)
                    } else {
                        old(self).nbrs(l2, a)
                    }) by {
                    assert(g1.nbrs(l2, a) == (if l2 == l {
                        linked_nbrs(old(self), l as int, a, node, items)
                    } else {
                        old(self).nbrs(l2, a)
                    }));
                }
            }
            i += 1;
        }
    }
}

/// Stage of an insertion.
pub enum InsertStage {
    /// Greedy descent through a layer above the new node's level.
    Descend(GreedySearch),
    /// Beam search in a layer at or below the new node's level; its results
    /// become the new node's neighbors there.
    Link(LayerSearch),
    Finished,
}

/// Insertion of one node into the graph, run as a step machine.
pub struct HnswInsert {
    pub node: usize,
    pub level: usize,
    /// Level of the entry point before this insertion.
    pub prior_max: usize,
    /// Entry point before this insertion.
    pub prior_entry: Option<usize>,
    pub stage: InsertStage,
    /// The graph once the node was added, before it was linked anywhere.
    pub opened: Ghost<HnswGraph>,
    /// For each layer whose search is over: the nodes the new node was linked with.
    pub links: Ghost<Map<int, Seq<usize>>>,
    /// For each layer whose search is over: that search's results.
    pub found_at: Ghost<Map<int, Seq<Ranked>>>,
    /// For each layer whose search is over: the keys supplied in that search.
    pub scored_at: Ghost<Map<int, Map<usize, u32>>>,
}

/// What a finished beam search in layer `l` of `g0` left: its results are
/// sorted, distinct, nonempty scored nodes, the best of the scored ones, and
/// every scored node had all its neighbors scored or ranks no higher than
/// every result while `ef` results are held.
pub open spec fn layer_outcome(
    g0: &HnswGraph,
    l: int,
    ef: nat,
    r: Seq<Ranked>,
    known: Map<usize, u32>,
) -> bool {
    &&& ef > 0 ==> r.len() > 0
    &&& r.len() <= ef
    &&& sorted_desc(r)
    &&& distinct_items(r)
    &&& scored_entries(r, known, g0.node_count as nat)
    &&& best_of_scored(r, known, ef)
    &&& forall|v: usize| #[trigger]
        known.contains_key(v) ==> (forall|u: int|
            0 <= u < g0.nbrs(l, v as int).len() ==> known.contains_key(
                #[trigger] g0.nbrs(l, v as int)[u] as usize,
            )) || dominated(r, known[v], ef)
}

impl HnswInsert {
    /// Level and entry point once the insertion is over: the new node becomes
    /// the entry point when the graph was empty or its level is above all others.
    pub open spec fn final_top(&self, g: &HnswGraph) -> bool {
        if self.prior_entry is None || self.level > self.prior_max {
            g.max_level == self.level && g.entry_point == Some(self.node)
        } else {
            g.max_level == self.prior_max && g.entry_point == self.prior_entry
        }
    }

    /// Highest layer the node is linked in: its level, or the entry point's
    /// level when that is lower.
    pub open spec fn top(&self) -> int {
        if self.level < self.prior_max {
            self.level as int
        } else {
            self.prior_max as int
        }
    }

    /// The graph is the opened graph with the new node linked, in each layer
    /// whose search is over, both ways with the first `m` results of that
    /// search; those searches left what `layer_outcome` says.
    pub open spec fn linked_so_far(&self, g: &HnswGraph) -> bool {
        let g0 = self.opened@;
        &&& same_frame(g, &g0)
        &&& forall|l: int, a: int|
            0 <= l < g.layers.len() && 0 <= a < g.node_count ==> #[trigger] g.nbrs(l, a) == (if self.links@.contains_key(l) {
                linked_nbrs(&g0, l, a, self.node, self.links@[l])
            } else {
                g0.nbrs(l, a)
            })
        &&& forall|l: int| #[trigger]
            self.links@.contains_key(l) ==> {
                &&& self.found_at@.contains_key(l)
                &&& self.scored_at@.contains_key(l)
                &&& layer_outcome(&g0, l, g0.ef_construction as nat, self.found_at@[l], self.scored_at@[l])
                &&& self.links@[l] == first_items(
                    self.found_at@[l],
                    if self.found_at@[l].len() < g0.m {
                        self.found_at@[l].len() as int
                    } else {
                        g0.m as int
                    },
                )
            }
    }

    /// The insertion is in a consistent state over graph `g`.
    pub open spec fn inv(&self, g: &HnswGraph) -> bool {
        &&& g.wf()
        &&& g.node_count == self.node + 1
        &&& self.level < g.layers.len()
        &&& self.linked_so_far(g)
        &&& forall|l: int| 0 <= l < g.layers.len() ==> #[trigger] self.opened@.nbrs(l, self.node as int).len() == 0
        &&& match self.stage {
            InsertStage::Descend(gs) => {
                &&& forall|l: int| !#[trigger] self.links@.contains_key(l)
                &&& gs.inv(g)
                &&& !gs.done
                &&& self.level < gs.layer <= self.prior_max
                &&& g.max_level == self.prior_max
                &&& g.entry_point == self.prior_entry
                &&& self.prior_entry is Some
            },
            InsertStage::Link(ls) => {
                &&& forall|l: int| #[trigger] self.links@.contains_key(l) <==> ls.layer < l <= self.top()
                &&& ls.inv(g)
                &&& !ls.done
                &&& ls.layer <= self.level
                &&& ls.layer <= self.prior_max
                &&& ls.ef == g.ef_construction
                &&& g.max_level == self.prior_max
                &&& g.entry_point == self.prior_entry
                &&& self.prior_entry is Some
            },
            InsertStage::Finished => {
                &&& self.final_top(g)
                &&& forall|l: int| #[trigger]
                    self.links@.contains_key(l) <==> (self.prior_entry is Some && 0 <= l <= self.top())
            },
        }
    }

    pub open spec fn is_finished(&self) -> bool {
        self.stage is Finished
    }

    /// The stage that follows a round of the descent that ended at `walk`:
    /// the same walk while it goes on; once it is done, a fresh walk from its
    /// node one layer down while that layer is above `level`, and otherwise a
    /// fresh beam search of width `ef` one layer down from its node.
    pub open spec fn stage_after_walk(walk: GreedySearch, level: usize, ef: usize, stage: InsertStage) -> bool {
        if !walk.done {
            stage == InsertStage::Descend(walk)
        } else if walk.layer - 1 > level {
            &&& stage matches InsertStage::Descend(next)
            &&& next.layer == walk.layer - 1
            &&& next.current == walk.current
            &&& !next.scored
            &&& !next.done
            &&& next.known@ == Map::<usize, u32>::empty()
        } else {
            &&& stage matches InsertStage::Link(next)
            &&& next.layer == walk.layer - 1
            &&& next.ef == ef
            &&& next.seeding
            &&& next.pending@ == seq![walk.current]
            &&& next.known@ == Map::<usize, u32>::empty()
            &&& forall|v: usize| #[trigger] next.visited@.contains(v) <==> v == walk.current
        }
    }

    /// What follows the end of the beam search `beam` in its layer, taking
    /// graph `g0` to `g`: `node` is linked both ways with the first `m`
    /// results there and nothing else changes in the layers; after the bottom
    /// layer, or when the search found nothing (width 0), the insertion is
    /// finished and the node becomes the entry point when `level` is above the
    /// graph's top level; otherwise a fresh beam search starts one layer down
    /// from all the results.
    pub open spec fn stage_after_beam(
        beam: LayerSearch,
        node: usize,
        level: usize,
        g0: &HnswGraph,
        g: &HnswGraph,
        stage: InsertStage,
    ) -> bool {
        &&& same_frame(g, g0)
        &&& forall|l: int, a: int|
            0 <= l < g.layers.len() && 0 <= a < g.node_count ==> #[trigger] g.nbrs(l, a) == (if l
                == beam.layer {
                linked_nbrs(
                    g0,
                    l,
                    a,
                    node,
                    first_items(beam.results@, first_count(beam.results.len(), g0.m)),
                )
            } else {
                g0.nbrs(l, a)
            })
        &&& if beam.layer == 0 || beam.results.len() == 0 {
            &&& stage is Finished
            &&& if level > g0.max_level {
                g.entry_point == Some(node) && g.max_level == level
            } else {
                g.entry_point == g0.entry_point && g.max_level == g0.max_level
            }
        } else {
            &&& g.entry_point == g0.entry_point
            &&& g.max_level == g0.max_level
            &&& stage matches InsertStage::Link(next)
            &&& next.layer == beam.layer - 1
            &&& next.ef == g0.ef_construction
            &&& next.seeding
            &&& next.known@ == Map::<usize, u32>::empty()
            &&& (next.visited@, next.pending@) == reach(
                first_items(beam.results@, beam.results.len() as int),
                Set::<usize>::empty(),
                beam.results.len() as int,
            )
        }
    }

    /// Once an insertion is over, the graph's top level is the highest level
    /// inserted so far: the new node's level when the graph was empty or that
    /// level is above the previous top, and the new node is then the entry
    /// point; otherwise the top level and the entry point are as before.
    pub proof fn lemma_top_level_after_insert(&self, g: &HnswGraph)
        requires
            self.inv(g),
            self.is_finished(),
        ensures
            g.max_level >= self.level,
            self.prior_entry is Some ==> g.max_level >= self.prior_max,
            g.max_level == self.level || (self.prior_entry is Some && g.max_level == self.prior_max),
            self.prior_entry is None || self.level > self.prior_max ==> g.entry_point == Some(
                self.node,
            ),
            self.prior_entry is Some && self.level <= self.prior_max ==> g.entry_point
                == self.prior_entry,
    {
    }

    /// A round of the descent leads, in the same layer, to where the walk
    /// went on; once the walk is done, it leads one layer down from the node it
    /// ended at: to a fresh walk while that layer is above the new node's
    /// level, and at the node's level to the beam search that links it.
    pub proof fn lemma_descent_goes_layer_by_layer(
        &self,
        g: &HnswGraph,
        keys: Seq<u32>,
        after: HnswInsert,
    )
        requires
            self.inv(g),
            self.stage matches InsertStage::Descend(walk) && exists|next: GreedySearch|
                #[trigger] walk.advances_to(g, keys, next) && Self::stage_after_walk(
                    next,
                    self.level,
                    g.ef_construction,
                    after.stage,
                ),
        ensures
            self.stage matches InsertStage::Descend(walk) && exists|next: GreedySearch|
                #[trigger] walk.advances_to(g, keys, next) && {
                    ||| !next.done && after.stage == InsertStage::Descend(next)
                    ||| (after.stage matches InsertStage::Descend(w) && next.done && walk.layer - 1
                        > self.level && w.layer == walk.layer - 1 && w.current == next.current
                        && !w.scored)
                    ||| (after.stage matches InsertStage::Link(b) && next.done && walk.layer - 1
                        == self.level && b.layer == self.level && b.seeding && b.pending@ == seq![
                        next.current,
                    ])
                },
    {
        if let InsertStage::Descend(walk) = self.stage {
            let next = choose|next: GreedySearch|
                #[trigger] walk.advances_to(g, keys, next) && Self::stage_after_walk(
                    next,
                    self.level,
                    g.ef_construction,
                    after.stage,
                );
            assert(walk.advances_to(g, keys, next));
        }
    }

    /// Every node the new node was linked with lists the new node in that
    /// layer, unless its list was already full before the insertion.
    pub proof fn lemma_linked_back(&self, g: &HnswGraph)
        requires
            self.inv(g),
        ensures
            forall|l: int, t: int|
                #![trigger self.links@[l][t]]
                self.links@.contains_key(l) && 0 <= t < self.links@[l].len() && self.links@[l][t]
                    != self.node ==> g.nbrs(l, self.links@[l][t] as int).contains(self.node as u32)
                    || self.opened@.nbrs(l, self.links@[l][t] as int).len() >= self.opened@.cap(l),
    {
        let g0 = self.opened@;
        assert forall|l: int, t: int|
            #![trigger self.links@[l][t]]
            self.links@.contains_key(l) && 0 <= t < self.links@[l].len() && self.links@[l][t]
                != self.node implies g.nbrs(l, self.links@[l][t] as int).contains(self.node as u32)
                || g0.nbrs(l, self.links@[l][t] as int).len() >= g0.cap(l) by {
            let x = self.links@[l][t];
            let r = self.found_at@[l];
            assert(x == r[t].item);
            assert(r[t].item < g0.node_count);
            assert(self.links@[l].contains(x));
            if 0 <= l < g.layers.len() {
                assert(g.nbrs(l, x as int) == connected_list(g0.nbrs(l, x as int), self.node as u32, g0.cap(l)));
                let list = g0.nbrs(l, x as int);
                if !list.contains(self.node as u32) && list.len() + 1 <= g0.cap(l) {
                    assert(list.push(self.node as u32)[list.len() as int] == self.node as u32);
                }
            }
        }
    }

    /// Nodes whose keys against the new node's vector are needed next.
    pub open spec fn pending_nodes(&self) -> Seq<usize> {
        match self.stage {
            InsertStage::Descend(gs) => gs.pending@,
            InsertStage::Link(ls) => ls.pending@,
            InsertStage::Finished => Seq::empty(),
        }
    }

    /// Begin inserting a node at `level`: the node is added to every layer
    /// (layers are added up to `level`) with no neighbors. Into an empty graph
    /// it becomes the entry point and the insertion is finished. Otherwise the
    /// insertion starts from the entry point: with a greedy walk in the top
    /// layer when `level` is below it, else with a beam search there. With a
    /// construction width of 0 a beam search keeps no result, so the node is
    /// linked to nothing and the insertion finishes after the first search.
    pub fn start(g: &mut HnswGraph, level: usize) -> (ins: Self)
        requires
            old(g).wf(),
            old(g).node_count < u32::MAX,
            level < usize::MAX,
        ensures
            ins.inv(final(g)),
            ins.node == old(g).node_count,
            ins.level == level,
            ins.prior_max == old(g).max_level,
            ins.prior_entry == old(g).entry_point,
            ins.is_finished() == (old(g).entry_point is None),
            old(g).entry_point matches Some(e) ==> if level < old(g).max_level {
                &&& ins.stage matches InsertStage::Descend(walk)
                &&& walk.layer == old(g).max_level
                &&& walk.current == e
                &&& !walk.scored
                &&& !walk.done
                &&& walk.known@ == Map::<usize, u32>::empty()
            } else {
                &&& ins.stage matches InsertStage::Link(beam)
                &&& beam.layer == old(g).max_level
                &&& beam.ef == old(g).ef_construction
                &&& beam.seeding
                &&& beam.pending@ == seq![e]
                &&& beam.known@ == Map::<usize, u32>::empty()
                &&& forall|v: usize| #[trigger] beam.visited@.contains(v) <==> v == e
            },
            old(g).entry_point is None ==> final(g).entry_point == Some(ins.node) && final(g).max_level
                == level,
            final(g).node_count == old(g).node_count + 1,
            final(g).m == old(g).m,
            final(g).m_max0 == old(g).m_max0,
            final(g).ef_construction == old(g).ef_construction,
            final(g).layers.len() == (if level < old(g).layers.len() {
                old(g).layers.len() as int
            } else {
                level + 1
            }),
            forall|l: int, a: int|
                0 <= l < old(g).layers.len() && 0 <= a < old(g).node_count
                    ==> #[trigger] final(g).nbrs(l, a) == old(g).nbrs(l, a),
            forall|l: int| 0 <= l < final(g).layers.len() ==> #[trigger] final(g).nbrs(l, ins.node as int).len() == 0,
    {
        let node = g.node_count;
        let prior_max = g.max_level;
        let prior_entry = g.entry_point;
        g.open_node(level);
        let ghost opened = *g;
        let links = Ghost(Map::<int, Seq<usize>>::empty());
        let found_at = Ghost(Map::<int, Seq<Ranked>>::empty());
        let scored_at = Ghost(Map::<int, Map<usize, u32>>::empty());
        match prior_entry {
            None => {
                g.entry_point = Some(node);
                g.max_level = level;
                HnswInsert {
                    node,
                    level,
                    prior_max,
                    prior_entry,
                    stage: InsertStage::Finished,
                    opened: Ghost(opened),
                    links,
                    found_at,
                    scored_at,
                }
            },
            Some(e) => {
                let stage = if level < prior_max {
                    InsertStage::Descend(GreedySearch::start(g, e, prior_max))
                } else {
                    let eps = vec![e];
                    let beam = LayerSearch::start(g, &eps, g.ef_construction, prior_max);
                    proof {
                        assert(eps@ == seq![e]);
                        lemma_reach_one(eps@, e);
                    }
                    InsertStage::Link(beam)
                };
                HnswInsert {
                    node,
                    level,
                    prior_max,
                    prior_entry,
                    stage,
                    opened: Ghost(opened),
                    links,
                    found_at,
                    scored_at,
                }
            },
        }
    }

    /// Nodes whose keys against the new node's vector are needed next.
    pub fn pending(&self) -> (r: Vec<usize>)
        ensures
            r@ == self.pending_nodes(),
    {
        match &self.stage {
            InsertStage::Descend(gs) => copy_nodes(&gs.pending),
            InsertStage::Link(ls) => copy_nodes(&ls.pending),
            InsertStage::Finished => Vec::new(),
        }
    }

    pub fn finished(&self) -> (b: bool)
        ensures
            b == self.is_finished(),
    {
        match &self.stage {
            InsertStage::Finished => true,
            _ => false,
        }
    }

    /// Take the keys of the pending nodes, in order, and advance. When a beam
    /// search ends, the new node is connected both ways with the first `m` of
    /// its results; after the bottom layer the entry point is updated.
    pub fn supply(&mut self, g: &mut HnswGraph, keys: &[u32])
        requires
            old(self).inv(old(g)),
            !old(self).is_finished(),
            keys.len() == old(self).pending_nodes().len(),
        ensures
            final(self).inv(final(g)),
            final(self).node == old(self).node,
            final(self).level == old(self).level,
            final(self).prior_max == old(self).prior_max,
            final(self).prior_entry == old(self).prior_entry,
            same_frame(final(g), old(g)),
            exists|l: int| only_linked_to(final(g), old(g), old(self).node as int, l),
            old(self).stage matches InsertStage::Descend(walk) ==> *final(g) == *old(g) && exists|
                next: GreedySearch,
            |
                #[trigger] walk.advances_to(old(g), keys@, next) && Self::stage_after_walk(
                    next,
                    old(self).level,
                    old(g).ef_construction,
                    final(self).stage,
                ),
            old(self).stage matches InsertStage::Link(beam) ==> exists|next: LayerSearch|
                #[trigger] beam.advances_to(old(g), keys@, next) && (if next.done {
                    Self::stage_after_beam(
                        next,
                        old(self).node,
                        old(self).level,
                        old(g),
                        final(g),
                        final(self).stage,
                    )
                } else {
                    final(self).stage == InsertStage::Link(next) && *final(g) == *old(g)
                }),
    {
        let mut stage = InsertStage::Finished;
        std::mem::swap(&mut stage, &mut self.stage);
        match stage {
            InsertStage::Descend(mut gs) => {
                let ghost walk = gs;
                gs.supply(g, keys);
                if gs.done {
                    let next = gs.layer - 1;
                    let cur = gs.current;
                    if next > self.level {
                        self.stage = InsertStage::Descend(GreedySearch::start(g, cur, next));
                    } else {
                        let eps = vec![cur];
                        let ls = LayerSearch::start(g, &eps, g.ef_construction, next);
                        proof {
                            assert(eps@ == seq![cur]);
                            assert forall|t: int| 0 <= t < ls.pending.len() implies #[trigger] ls.pending@[t]
                                == cur by {
                                assert(eps@.contains(ls.pending@[t]));
                            }
                            if ls.pending.len() > 1 {
                                assert(ls.pending@[0] != ls.pending@[1]);
                            }
                            assert(ls.pending@ == seq![cur]);
                            assert forall|v: usize| #[trigger] ls.visited@.contains(v) <==> v == cur by {
                                if v == cur {
                                    assert(eps@[0] == cur);
                                }
                            }
                        }
                        self.stage = InsertStage::Link(ls);
                    }
                } else {
                    self.stage = InsertStage::Descend(gs);
                }
                proof {
                    assert(walk.advances_to(old(g), keys@, gs));
                }
                assert(only_linked_to(g, old(g), self.node as int, 0));
                assert(self.inv(g));
            },
            InsertStage::Link(mut ls) => {
                let ghost beam = ls;
                ls.supply(g, keys);
                proof {
                    assert(beam.advances_to(old(g), keys@, ls));
                }
                if ls.done {
                    let l = ls.layer;
                    proof {
                        ls.lemma_closed_when_done(g);
                    }
                    let ghost g_before = *g;
                    g.link_results(self.node, l, &ls.results);
                    proof {
                        let g0 = self.opened@;
                        let take = if ls.results.len() < g0.m {
                            ls.results.len() as int
                        } else {
                            g0.m as int
                        };
                        let items = first_items(ls.results@, take);
                        assert(!self.links@.contains_key(l as int));
                        assert forall|v: usize| #[trigger] ls.known@.contains_key(v) implies (forall|u: int|
                            0 <= u < g0.nbrs(l as int, v as int).len() ==> ls.known@.contains_key(
                                #[trigger] g0.nbrs(l as int, v as int)[u] as usize,
                            )) || dominated(ls.results@, ls.known@[v], g0.ef_construction as nat) by {
                            if v < g0.node_count {
                                assert(g_before.nbrs(l as int, v as int) == g0.nbrs(l as int, v as int));
                            }
                        }
                        self.links = Ghost(self.links@.insert(l as int, items));
                        self.found_at = Ghost(self.found_at@.insert(l as int, ls.results@));
                        self.scored_at = Ghost(self.scored_at@.insert(l as int, ls.known@));
                        assert forall|l2: int, a: int|
                            0 <= l2 < g.layers.len() && 0 <= a < g.node_count implies #[trigger] g.nbrs(l2, a) == (if self.links@.contains_key(l2) {
                                linked_nbrs(&g0, l2, a, self.node, self.links@[l2])
                            } else {
                                g0.nbrs(l2, a)
                            }) by {
                            if l2 == l {
                                assert(g_before.nbrs(l2, a) == g0.nbrs(l2, a));
                                if a != self.node {
                                    assert(g_before.nbrs(l2, self.node as int) == g0.nbrs(l2, self.node as int));
                                }
                            }
                        }
                    }
                    if l == 0 || ls.results.len() == 0 {
                        if l > 0 {
                            proof {
                                let g0 = self.opened@;
                                assert(g0.ef_construction == 0);
                                let nothing = first_items(Seq::<Ranked>::empty(), 0);
                                assert(nothing =~= Seq::<usize>::empty());
                                self.links = Ghost(self.links@.union_prefer_right(
                                    Map::new(|l2: int| 0 <= l2 < l, |l2: int| Seq::<usize>::empty()),
                                ));
                                self.found_at = Ghost(self.found_at@.union_prefer_right(
                                    Map::new(|l2: int| 0 <= l2 < l, |l2: int| Seq::<Ranked>::empty()),
                                ));
                                self.scored_at = Ghost(self.scored_at@.union_prefer_right(
                                    Map::new(|l2: int| 0 <= l2 < l, |l2: int| Map::<usize, u32>::empty()),
                                ));
                            }
                        }
                        if self.level > g.max_level {
                            g.entry_point = Some(self.node);
                            g.max_level = self.level;
                        }
                        self.stage = InsertStage::Finished;
                    } else {
                        let eps = items_of(&ls.results);
                        let next = LayerSearch::start(g, &eps, g.ef_construction, l - 1);
                        proof {
                            assert(eps@ =~= first_items(ls.results@, ls.results.len() as int));
                        }
                        self.stage = InsertStage::Link(next);
                    }
                    assert(only_linked_to(g, old(g), self.node as int, l as int));
                } else {
                    self.stage = InsertStage::Link(ls);
                    assert(only_linked_to(g, old(g), self.node as int, 0));
                }
            },
            InsertStage::Finished => {
                assert(false);
            },
        }
    }
}

/// Stage of a search.
pub enum SearchStage {
    /// Greedy descent through a layer above the bottom one.
    Descend(GreedySearch),
    /// Beam search in the bottom layer.
    Bottom(LayerSearch),
    Finished,
}

/// How many of `n` results a search for `top_k` keeps.
pub open spec fn first_count(n: usize, top_k: usize) -> int {
    if n < top_k {
        n as int
    } else {
        top_k as int
    }
}

/// Search for the nodes of highest score key, run as a step machine.
pub struct HnswSearch {
    pub top_k: usize,
    /// Beam width of the bottom-layer search; at least `top_k`.
    pub ef: usize,
    pub stage: SearchStage,
    /// The nodes found, highest key first, once finished.
    pub found: Vec<Ranked>,
    /// Keys supplied during the bottom-layer search.
    pub scored: Ghost<Map<usize, u32>>,
}

impl HnswSearch {
    /// The search is in a consistent state over graph `g`.
    pub open spec fn inv(&self, g: &HnswGraph) -> bool {
        &&& g.wf()
        &&& self.top_k <= self.ef
        &&& match self.stage {
            SearchStage::Descend(gs) => gs.inv(g) && !gs.done && gs.layer >= 1,
            SearchStage::Bottom(ls) => ls.inv(g) && !ls.done && ls.layer == 0 && ls.ef == self.ef,
            SearchStage::Finished => self.found_best(g),
        }
    }

    /// `found` holds at most `top_k` distinct nodes (at least one when the
    /// graph has nodes and `top_k > 0`), highest key first, each
    /// with the key supplied for it; no node scored in the bottom layer and left
    /// out has a higher key than one found, and nodes are left out only when
    /// `top_k` are found; the search stopped only where every scored node had
    /// all its bottom-layer neighbors scored, or ranks no higher than every
    /// node found while `top_k` are found; and every node found had all its
    /// bottom-layer neighbors scored.
    pub open spec fn found_best(&self, g: &HnswGraph) -> bool {
        &&& self.found.len() <= self.top_k
        &&& g.node_count > 0 && self.top_k > 0 ==> self.found.len() > 0
        &&& sorted_desc(self.found@)
        &&& distinct_items(self.found@)
        &&& scored_entries(self.found@, self.scored@, g.node_count as nat)
        &&& forall|v: usize|
            #[trigger] self.scored@.contains_key(v) && !has_item(self.found@, v as int)
                ==> all_at_least(self.found@, self.scored@[v]) && self.found.len() == self.top_k
        &&& forall|v: usize| #[trigger]
            self.scored@.contains_key(v) ==> (forall|u: int|
                0 <= u < g.nbrs(0, v as int).len() ==> self.scored@.contains_key(
                    #[trigger] g.nbrs(0, v as int)[u] as usize,
                )) || (all_at_least(self.found@, self.scored@[v]) && self.found.len() == self.top_k)
        &&& forall|t: int, u: int|
            0 <= t < self.found.len() && 0 <= u < g.nbrs(0, self.found@[t].item as int).len()
                ==> self.scored@.contains_key(
                #[trigger] g.nbrs(0, self.found@[t].item as int)[u] as usize,
            )
    }

    pub open spec fn is_finished(&self) -> bool {
        self.stage is Finished
    }

    /// A round of the descent leads, in the same layer, to where the walk
    /// went on; once the walk is done, it leads one layer down from the node it
    /// ended at: to a fresh walk in every layer above the bottom one, and from
    /// layer 1 to the bottom-layer beam search.
    pub proof fn lemma_descent_goes_layer_by_layer(
        &self,
        g: &HnswGraph,
        keys: Seq<u32>,
        after: HnswSearch,
    )
        requires
            self.inv(g),
            self.stage matches SearchStage::Descend(walk) && exists|next: GreedySearch|
                #[trigger] walk.advances_to(g, keys, next) && Self::stage_after_walk(
                    next,
                    self.ef,
                    after.stage,
                ),
        ensures
            self.stage matches SearchStage::Descend(walk) && exists|next: GreedySearch|
                #[trigger] walk.advances_to(g, keys, next) && {
                    ||| !next.done && after.stage == SearchStage::Descend(next)
                    ||| (after.stage matches SearchStage::Descend(w) && next.done && walk.layer >= 2
                        && w.layer == walk.layer - 1 && w.current == next.current && !w.scored)
                    ||| (after.stage matches SearchStage::Bottom(b) && next.done && walk.layer == 1
                        && b.layer == 0 && b.seeding && b.pending@ == seq![next.current])
                },
    {
        if let SearchStage::Descend(walk) = self.stage {
            let next = choose|next: GreedySearch|
                #[trigger] walk.advances_to(g, keys, next) && Self::stage_after_walk(
                    next,
                    self.ef,
                    after.stage,
                );
            assert(walk.advances_to(g, keys, next));
        }
    }

    /// The stage that follows a round of the walk that ended at `walk`: the
    /// same walk while it goes on; once it is done, a fresh walk from its node
    /// one layer down, or, from layer 1, a fresh beam search of width `ef` in
    /// the bottom layer from its node.
    pub open spec fn stage_after_walk(walk: GreedySearch, ef: usize, stage: SearchStage) -> bool {
        if !walk.done {
            stage == SearchStage::Descend(walk)
        } else if walk.layer > 1 {
            &&& stage matches SearchStage::Descend(next)
            &&& next.layer == walk.layer - 1
            &&& next.current == walk.current
            &&& !next.scored
            &&& !next.done
            &&& next.known@ == Map::<usize, u32>::empty()
        } else {
            &&& stage matches SearchStage::Bottom(next)
            &&& next.layer == 0
            &&& next.ef == ef
            &&& next.seeding
            &&& next.pending@ == seq![walk.current]
            &&& next.known@ == Map::<usize, u32>::empty()
            &&& forall|v: usize| #[trigger] next.visited@.contains(v) <==> v == walk.current
        }
    }

    /// Nodes whose keys against the query are needed next.
    pub open spec fn pending_nodes(&self) -> Seq<usize> {
        match self.stage {
            SearchStage::Descend(gs) => gs.pending@,
            SearchStage::Bottom(ls) => ls.pending@,
            SearchStage::Finished => Seq::empty(),
        }
    }

    /// Begin a search for `top_k` nodes with beam width `ef` (raised to
    /// `top_k` when below it). Over an empty graph it is finished at once,
    /// with nothing found.
    pub fn start(g: &HnswGraph, top_k: usize, ef: usize) -> (s: Self)
        requires
            g.wf(),
        ensures
            s.inv(g),
            s.top_k == top_k,
            s.ef == (if ef < top_k { top_k } else { ef }),
            s.is_finished() == (g.node_count == 0),
            g.node_count == 0 ==> s.found.len() == 0,
            g.entry_point matches Some(e) ==> if g.max_level >= 1 {
                &&& s.stage matches SearchStage::Descend(walk)
                &&& walk.layer == g.max_level
                &&& walk.current == e
                &&& !walk.scored
                &&& !walk.done
                &&& walk.known@ == Map::<usize, u32>::empty()
            } else {
                &&& s.stage matches SearchStage::Bottom(beam)
                &&& beam.layer == 0
                &&& beam.ef == s.ef
                &&& beam.seeding
                &&& beam.pending@ == seq![e]
                &&& beam.known@ == Map::<usize, u32>::empty()
                &&& forall|v: usize| #[trigger] beam.visited@.contains(v) <==> v == e
            },
    {
        let ef = if ef < top_k {
            top_k
        } else {
            ef
        };
        match g.entry_point {
            None => HnswSearch {
                top_k,
                ef,
                stage: SearchStage::Finished,
                found: Vec::new(),
                scored: Ghost(Map::empty()),
            },
            Some(e) => {
                let stage = if g.max_level >= 1 {
                    SearchStage::Descend(GreedySearch::start(g, e, g.max_level))
                } else {
                    let eps = vec![e];
                    let beam = LayerSearch::start(g, &eps, ef, 0);
                    proof {
                        assert(eps@ == seq![e]);
                        lemma_reach_one(eps@, e);
                    }
                    SearchStage::Bottom(beam)
                };
                HnswSearch { top_k, ef, stage, found: Vec::new(), scored: Ghost(Map::empty()) }
            },
        }
    }

    /// Nodes whose keys against the query are needed next.
    pub fn pending(&self) -> (r: Vec<usize>)
        ensures
            r@ == self.pending_nodes(),
    {
        match &self.stage {
            SearchStage::Descend(gs) => copy_nodes(&gs.pending),
            SearchStage::Bottom(ls) => copy_nodes(&ls.pending),
            SearchStage::Finished => Vec::new(),
        }
    }

    pub fn finished(&self) -> (b: bool)
        ensures
            b == self.is_finished(),
    {
        match &self.stage {
            SearchStage::Finished => true,
            _ => false,
        }
    }

    /// Take the keys of the pending nodes, in order, and advance. When the
    /// bottom-layer search ends, the first `top_k` of its results are found.
    pub fn supply(&mut self, g: &HnswGraph, keys: &[u32])
        requires
            old(self).inv(g),
            !old(self).is_finished(),
            keys.len() == old(self).pending_nodes().len(),
        ensures
            final(self).inv(g),
            final(self).top_k == old(self).top_k,
            final(self).ef == old(self).ef,
            old(self).stage matches SearchStage::Descend(walk) ==> exists|next: GreedySearch|
                #[trigger] walk.advances_to(g, keys@, next) && Self::stage_after_walk(
                    next,
                    old(self).ef,
                    final(self).stage,
                ),
            old(self).stage matches SearchStage::Bottom(beam) ==> exists|next: LayerSearch|
                #[trigger] beam.advances_to(g, keys@, next) && (if next.done {
                    &&& final(self).stage is Finished
                    &&& final(self).found@ == next.results@.subrange(
                        0,
                        first_count(next.results.len(), old(self).top_k),
                    )
                    &&& final(self).scored@ == next.known@
                } else {
                    final(self).stage == SearchStage::Bottom(next)
                }),
            !final(self).is_finished() ==> final(self).found@ == old(self).found@
                && final(self).scored@ == old(self).scored@,
    {
        let mut stage = SearchStage::Finished;
        std::mem::swap(&mut stage, &mut self.stage);
        match stage {
            SearchStage::Descend(mut gs) => {
                let ghost walk = gs;
                gs.supply(g, keys);
                if gs.done {
                    let cur = gs.current;
                    if gs.layer > 1 {
                        self.stage = SearchStage::Descend(GreedySearch::start(g, cur, gs.layer - 1));
                    } else {
                        let eps = vec![cur];
                        let ls = LayerSearch::start(g, &eps, self.ef, 0);
                        proof {
                            assert(eps@ == seq![cur]);
                            assert forall|t: int| 0 <= t < ls.pending.len() implies #[trigger] ls.pending@[t]
                                == cur by {
                                assert(eps@.contains(ls.pending@[t]));
                            }
                            if ls.pending.len() > 1 {
                                assert(ls.pending@[0] != ls.pending@[1]);
                            }
                            assert(ls.pending@ == seq![cur]);
                            assert forall|v: usize| #[trigger] ls.visited@.contains(v) <==> v == cur by {
                                if v == cur {
                                    assert(eps@[0] == cur);
                                }
                            }
                        }
                        self.stage = SearchStage::Bottom(ls);
                    }
                } else {
                    self.stage = SearchStage::Descend(gs);
                }
                proof {
                    assert(walk.advances_to(g, keys@, gs));
                }
            },
            SearchStage::Bottom(mut ls) => {
                let ghost beam = ls;
                ls.supply(g, keys);
                proof {
                    assert(beam.advances_to(g, keys@, ls));
                }
                if ls.done {
                    let take = if ls.results.len() < self.top_k {
                        ls.results.len()
                    } else {
                        self.top_k
                    };
                    let mut found: Vec<Ranked> = Vec::with_capacity(take);
                    let mut t: usize = 0;
                    while t < take
                        invariant
                            take <= ls.results.len(),
                            t <= take,
                            found@ == ls.results@.subrange(0, t as int),
                        decreases take - t,
                    {
                        found.push(ls.results[t]);
                        t += 1;
                    }
                    self.found = found;
                    self.scored = Ghost(ls.known@);
                    self.stage = SearchStage::Finished;
                    proof {
                        ls.lemma_closed_when_done(g);
                        ls.lemma_results_expanded_when_done(g);
                        let r = ls.results@;
                        assert forall|t: int, u: int|
                            0 <= t < self.found.len() && 0 <= u < g.nbrs(0, self.found@[t].item as int).len()
                                implies self.scored@.contains_key(
                            #[trigger] g.nbrs(0, self.found@[t].item as int)[u] as usize,
                        ) by {
                            assert(self.found@[t] == r[t]);
                        }
                        assert forall|v: usize| #[trigger] self.scored@.contains_key(v) && all_at_least(r, self.scored@[v]) && r.len() >= self.ef
                            implies all_at_least(self.found@, self.scored@[v]) && self.found.len() == self.top_k by {
                            assert forall|w: int| 0 <= w < self.found.len() implies self.scored@[v] <= #[trigger] self.found@[w].key by {
                                assert(self.found@[w] == r[w]);
                            }
                        }
                        assert forall|v: usize|
                            #[trigger] self.scored@.contains_key(v) && !has_item(self.found@, v as int)
                                implies all_at_least(self.found@, self.scored@[v]) && self.found.len() == self.top_k by {
                            if has_item(r, v as int) {
                                let u = choose|u: int| 0 <= u < r.len() && #[trigger] r[u].item == v;
                                if u < take {
                                    assert(self.found@[u].item == v);
                                }
                                assert forall|w: int| 0 <= w < self.found.len() implies self.scored@[v] <= #[trigger] self.found@[w].key by {
                                    assert(r[w].key >= r[u].key);
                                }
                            } else {
                                assert forall|w: int| 0 <= w < self.found.len() implies self.scored@[v] <= #[trigger] self.found@[w].key by {
                                    assert(self.found@[w] == r[w]);
                                }
                            }
                        }
                    }
                } else {
                    self.stage = SearchStage::Bottom(ls);
                }
            },
            SearchStage::Finished => {
                assert(false);
            },
        }
    }

    /// The nodes found, highest key first.
    pub fn results(&self) -> (r: &Vec<Ranked>)
        ensures
            r@ == self.found@,
    {
        &self.found
    }
}

} // verus!
