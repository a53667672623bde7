//! Graphs in the bipartite form, where the vertices of valency 2 stand for
//! edges: repeated rows (multiple edges), and the passage back to ordinary
//! graphs and multigraphs.
use vstd::prelude::*;
use vstd::std_specs::bits::*;
use crate::bits::{bit, bit_positions, bits_seq, count_ones, lemma_bits_seq, popcount};
use crate::fx::{mask_set_insert, new_mask_set, new_pair_map, pair_map_get, pair_map_insert, pair_map_into_vec};
use crate::graph::{Graph, edge_joins};
use crate::perm::{edges_within, permute_edge, permute_edges, permute_indexed_edges};
use crate::sort::{sort_by_key, sorted_by_key};

verus! {

broadcast use vstd::seq_lib::group_to_multiset_ensures;

/// Row `k` repeats an earlier row.
pub open spec fn repeats_earlier(adj: Seq<u64>, k: int) -> bool {
    exists|i: int| 0 <= i < k && adj[i] == adj[k]
}

/// The number of rows among the first `k` that repeat an earlier row.
pub open spec fn repeated_rows(adj: Seq<u64>, k: int) -> nat
    decreases k,
{
    if k <= 0 {
        0
    } else {
        repeated_rows(adj, k - 1) + (if repeats_earlier(adj, k - 1) {
            1nat
        } else {
            0nat
        })
    }
}

proof fn lemma_repeated_rows_bound(adj: Seq<u64>, k: int)
    requires
        k >= 0,
    ensures
        repeated_rows(adj, k) <= k,
    decreases k,
{
    if k > 0 {
        lemma_repeated_rows_bound(adj, k - 1);
    }
}

/// The two positions of a mask with two positions.
pub open spec fn two_ends(a: u64) -> (u8, u8) {
    (bits_seq(a)[0] as u8, bits_seq(a)[1] as u8)
}

/// The vertices that stay vertices when those of valency 2 become edges.
pub open spec fn stays_vertex(adj: Seq<u64>, x: int) -> bool {
    popcount(adj[x]) != 2
}

/// The number of staying vertices below `x`.
pub open spec fn rank_below(adj: Seq<u64>, x: int) -> nat
    decreases x,
{
    if x <= 0 {
        0
    } else {
        rank_below(adj, x - 1) + (if stays_vertex(adj, x - 1) {
            1nat
        } else {
            0nat
        })
    }
}

/// The new number of a staying vertex; the others keep theirs.
pub open spec fn simplify_perm(adj: Seq<u64>, x: int) -> u8 {
    if stays_vertex(adj, x) {
        rank_below(adj, x) as u8
    } else {
        x as u8
    }
}

/// For the rows `0..k` of valency 2, their pair of ends mapped to the first
/// such row and the number of such rows.
pub open spec fn pair_rows(adj: Seq<u64>, k: int) -> Map<(u8, u8), (u8, u8)>
    decreases k,
{
    if k <= 0 {
        Map::empty()
    } else {
        let m = pair_rows(adj, k - 1);
        let a = adj[k - 1];
        if popcount(a) == 2 {
            let key = two_ends(a);
            if m.contains_key(key) {
                m.insert(key, (m[key].0, (m[key].1 + 1) as u8))
            } else {
                m.insert(key, ((k - 1) as u8, 1u8))
            }
        } else {
            m
        }
    }
}

/// An entry of the simplified graph: the renumbered pair of ends of a row of
/// valency 2, with the first such row; kept when multiple edges are retained or
/// the pair occurs once.
pub open spec fn simplified_entry(adj: Seq<u64>, retain: bool, x: ((u8, u8), u8)) -> bool {
    let m = pair_rows(adj, adj.len() as int);
    exists|k: (u8, u8)| #[trigger] m.contains_key(k) && (retain || m[k].1 == 1)
        && x == (permute_edge(k, Seq::new(adj.len(), |y: int| simplify_perm(adj, y))), m[k].0)
}

/// The renumbered ends of the kept entries lie below the number of staying vertices.
pub open spec fn simplify_fits(adj: Seq<u64>, retain: bool) -> bool {
    let m = pair_rows(adj, adj.len() as int);
    forall|k: (u8, u8)| #[trigger] m.contains_key(k) && (retain || m[k].1 == 1) ==>
        simplify_perm(adj, k.0 as int) < rank_below(adj, adj.len() as int)
        && simplify_perm(adj, k.1 as int) < rank_below(adj, adj.len() as int)
}

impl Graph {
    /// Whether two rows of the adjacency agree: in the bipartite form, two
    /// edge vertices with the same ends, a multiple edge.
    pub fn is_multigraph(&self) -> (r: bool)
        ensures
            r == exists|k: int| 0 <= k < self.adj@.len() && #[trigger] repeats_earlier(self.adj@, k),
    {
        let mut seen = new_mask_set();
        let mut k: usize = 0;
        while k < self.adj.len()
            invariant
                k <= self.adj@.len(),
                seen@ == self.adj@.take(k as int).to_set(),
                forall|j: int| 0 <= j < k ==> !#[trigger] repeats_earlier(self.adj@, j),
            decreases self.adj@.len() - k,
        {
            let a = self.adj[k];
            let fresh = mask_set_insert(&mut seen, a);
            proof {
                assert(self.adj@.take(k as int + 1) =~= self.adj@.take(k as int).push(a));
                assert(self.adj@.take(k as int + 1).to_set() =~= self.adj@.take(k as int).to_set().insert(a)) by {
                    let t = self.adj@.take(k as int);
                    assert forall|x: u64| t.push(a).contains(x) <==> (t.contains(x) || x == a) by {
                        if t.push(a).contains(x) {
                            let i = choose|i: int| 0 <= i < t.push(a).len() && t.push(a)[i] == x;
                            if i < t.len() {
                                assert(t[i] == x);
                            }
                        }
                        if t.contains(x) {
                            let i = choose|i: int| 0 <= i < t.len() && t[i] == x;
                            assert(t.push(a)[i] == x);
                        }
                        if x == a {
                            assert(t.push(a)[t.len() as int] == x);
                        }
                    }
                }
                if self.adj@.take(k as int).contains(a) {
                    let i = choose|i: int| 0 <= i < k && self.adj@.take(k as int)[i] == a;
                    assert(self.adj@[i] == self.adj@[k as int]);
                    assert(repeats_earlier(self.adj@, k as int));
                } else {
                    assert forall|i: int| 0 <= i < k implies self.adj@[i] != self.adj@[k as int] by {
                        assert(self.adj@.take(k as int)[i] == self.adj@[i]);
                    }
                }
            }
            if !fresh {
                return true;
            }
            k = k + 1;
        }
        false
    }

    /// The number of rows that repeat an earlier row: in the bipartite form,
    /// the number of double edges, where no edge is more than double.
    pub fn count_double_edges(&self) -> (c: u8)
        requires
            self.adj@.len() <= 255,
        ensures
            c == repeated_rows(self.adj@, self.adj@.len() as int),
    {
        let mut i: u8 = 0;
        let mut seen = new_mask_set();
        let mut k: usize = 0;
        while k < self.adj.len()
            invariant
                self.adj@.len() <= 255,
                k <= self.adj@.len(),
                seen@ == self.adj@.take(k as int).to_set(),
                i == repeated_rows(self.adj@, k as int),
            decreases self.adj@.len() - k,
        {
            let a = self.adj[k];
            let fresh = mask_set_insert(&mut seen, a);
            proof {
                lemma_repeated_rows_bound(self.adj@, k as int);
                assert(self.adj@.take(k as int + 1) =~= self.adj@.take(k as int).push(a));
                assert(self.adj@.take(k as int + 1).to_set() =~= self.adj@.take(k as int).to_set().insert(a)) by {
                    let t = self.adj@.take(k as int);
                    assert forall|x: u64| t.push(a).contains(x) <==> (t.contains(x) || x == a) by {
                        if t.push(a).contains(x) {
                            let i = choose|i: int| 0 <= i < t.push(a).len() && t.push(a)[i] == x;
                            if i < t.len() {
                                assert(t[i] == x);
                            }
                        }
                        if t.contains(x) {
                            let i = choose|i: int| 0 <= i < t.len() && t[i] == x;
                            assert(t.push(a)[i] == x);
                        }
                        if x == a {
                            assert(t.push(a)[t.len() as int] == x);
                        }
                    }
                }
                if self.adj@.take(k as int).contains(a) {
                    let j = choose|j: int| 0 <= j < k && self.adj@.take(k as int)[j] == a;
                    assert(self.adj@[j] == self.adj@[k as int]);
                } else {
                    assert forall|j: int| 0 <= j < k implies self.adj@[j] != self.adj@[k as int] by {
                        assert(self.adj@.take(k as int)[j] == self.adj@[j]);
                    }
                }
            }
            if !fresh {
                i = i + 1;
            }
            k = k + 1;
        }
        i
    }

    /// Turn the vertices of valency 2 into edges between their two ends; the
    /// other vertices are renumbered in order. Returns the graph with the list
    /// of its edges, each with the vertex it came from (the first, for a
    /// multiple edge), sorted by edge. A multiple edge becomes a single edge when
    /// `retain_multiedges`, and disappears otherwise.
    pub fn simplify(&self, retain_multiedges: bool) -> (res: (Graph, Vec<((u8, u8), u8)>))
        requires
            self.wf(),
            simplify_fits(self.adj@, retain_multiedges),
        ensures
            res.0.built_from(rank_below(self.adj@, self.adj@.len() as int), res.1@.map_values(|e: ((u8, u8), u8)| e.0)),
            sorted_by_key(res.1@),
            forall|x: ((u8, u8), u8)| #[trigger] res.1@.contains(x) <==> simplified_entry(self.adj@, retain_multiedges, x),
            res.1@.no_duplicates(),
    {
        let n = self.num_vertices;
        let mut new_edges = new_pair_map();
        let mut perm: Vec<u8> = Vec::new();
        let mut new_v: u8 = 0;
        let mut i: usize = 0;
        while i < self.adj.len()
            invariant
                self.wf(),
                n == self.num_vertices,
                i <= self.adj@.len(),
                new_edges@ == pair_rows(self.adj@, i as int),
                new_v == rank_below(self.adj@, i as int),
                new_v <= i,
                perm@ == Seq::new(i as nat, |y: int| simplify_perm(self.adj@, y)),
                forall|key: (u8, u8)| #[trigger] new_edges@.contains_key(key) ==> new_edges@[key].1 <= i,
            decreases self.adj@.len() - i,
        {
            let a = self.adj[i];
            if count_ones(a) == 2 {
                let ends = bit_positions(a);
                proof {
                    lemma_bits_seq(a);
                }
                let key = (ends[0] as u8, ends[1] as u8);
                match pair_map_get(&new_edges, key) {
                    Some((first, c)) => {
                        pair_map_insert(&mut new_edges, key, (first, c + 1));
                    },
                    None => {
                        pair_map_insert(&mut new_edges, key, (i as u8, 1));
                    },
                }
                perm.push(i as u8);
            } else {
                perm.push(new_v);
                new_v = new_v + 1;
            }
            proof {
                assert(perm@ =~= Seq::new((i + 1) as nat, |y: int| simplify_perm(self.adj@, y)));
            }
            i = i + 1;
        }
        let entries = pair_map_into_vec(new_edges);
        let ghost m = pair_rows(self.adj@, self.adj@.len() as int);
        let mut kept: Vec<((u8, u8), u8)> = Vec::new();
        let mut k: usize = 0;
        while k < entries.len()
            invariant
                self.wf(),
                k <= entries@.len(),
                forall|j: int| 0 <= j < entries@.len() ==> m.contains_key(#[trigger] entries@[j].0) && m[entries@[j].0] == entries@[j].1,
                forall|x: ((u8, u8), u8)| #[trigger] kept@.contains(x) <==> exists|j: int| 0 <= j < k
                    && #[trigger] entries@[j].0 == x.0 && entries@[j].1.0 == x.1 && (retain_multiedges || entries@[j].1.1 == 1),
                forall|a: int, b: int| 0 <= a < kept@.len() && 0 <= b < kept@.len() && #[trigger] kept@[a].0 == #[trigger] kept@[b].0 ==> a == b,
                forall|a: int| #![trigger kept@[a]] 0 <= a < kept@.len() ==> exists|j: int| 0 <= j < k && #[trigger] entries@[j].0 == kept@[a].0,
                forall|i: int, j: int| 0 <= i < entries@.len() && 0 <= j < entries@.len() && #[trigger] entries@[i].0 == #[trigger] entries@[j].0 ==> i == j,
            decreases entries@.len() - k,
        {
            let (key, (first, c)) = entries[k];
            if retain_multiedges || c == 1 {
                let ghost before = kept@;
                kept.push((key, first));
                proof {
                    assert forall|x: ((u8, u8), u8)| #[trigger] kept@.contains(x) <==> exists|j: int| 0 <= j < k + 1
                        && #[trigger] entries@[j].0 == x.0 && entries@[j].1.0 == x.1 && (retain_multiedges || entries@[j].1.1 == 1) by {
                        if kept@.contains(x) {
                            let a = choose|a: int| 0 <= a < kept@.len() && kept@[a] == x;
                            if a < before.len() {
                                assert(before[a] == x);
                                assert(before.contains(x));
                            } else {
                                assert(entries@[k as int].0 == x.0);
                            }
                        }
                        if exists|j: int| 0 <= j < k + 1 && #[trigger] entries@[j].0 == x.0 && entries@[j].1.0 == x.1
                            && (retain_multiedges || entries@[j].1.1 == 1) {
                            let j = choose|j: int| 0 <= j < k + 1 && #[trigger] entries@[j].0 == x.0 && entries@[j].1.0 == x.1
                                && (retain_multiedges || entries@[j].1.1 == 1);
                            if j < k {
                                assert(before.contains(x));
                                let a = choose|a: int| 0 <= a < before.len() && before[a] == x;
                                assert(kept@[a] == x);
                            } else {
                                assert(kept@[before.len() as int] == x);
                            }
                        }
                    }
                    assert forall|a: int| #![trigger kept@[a]] 0 <= a < kept@.len() implies exists|j: int| 0 <= j < k + 1 && #[trigger] entries@[j].0 == kept@[a].0 by {
                        if a < before.len() {
                            assert(kept@[a] == before[a]);
                        } else {
                            assert(entries@[k as int].0 == kept@[a].0);
                        }
                    }
                    assert forall|a: int, b: int| 0 <= a < kept@.len() && 0 <= b < kept@.len() && #[trigger] kept@[a].0 == #[trigger] kept@[b].0 implies a == b by {
                        if a < before.len() && b < before.len() {
                            assert(kept@[a] == before[a] && kept@[b] == before[b]);
                        } else if a < before.len() {
                            assert(kept@[a] == before[a]);
                            let j = choose|j: int| 0 <= j < k && #[trigger] entries@[j].0 == before[a].0;
                            assert(entries@[j].0 == entries@[k as int].0);
                        } else if b < before.len() {
                            assert(kept@[b] == before[b]);
                            let j = choose|j: int| 0 <= j < k && #[trigger] entries@[j].0 == before[b].0;
                            assert(entries@[j].0 == entries@[k as int].0);
                        }
                    }
                }
            } else {
                proof {
                    assert forall|x: ((u8, u8), u8)| #[trigger] kept@.contains(x) <==> exists|j: int| 0 <= j < k + 1
                        && #[trigger] entries@[j].0 == x.0 && entries@[j].1.0 == x.1 && (retain_multiedges || entries@[j].1.1 == 1) by {
                        if exists|j: int| 0 <= j < k + 1 && #[trigger] entries@[j].0 == x.0 && entries@[j].1.0 == x.1
                            && (retain_multiedges || entries@[j].1.1 == 1) {
                            let j = choose|j: int| 0 <= j < k + 1 && #[trigger] entries@[j].0 == x.0 && entries@[j].1.0 == x.1
                                && (retain_multiedges || entries@[j].1.1 == 1);
                            assert(j != k);
                        }
                    }
                    assert forall|a: int| #![trigger kept@[a]] 0 <= a < kept@.len() implies exists|j: int| 0 <= j < k + 1 && #[trigger] entries@[j].0 == kept@[a].0 by {
                        let j = choose|j: int| 0 <= j < k && #[trigger] entries@[j].0 == kept@[a].0;
                    }
                }
            }
            k = k + 1;
        }
        proof {
            assert forall|x: ((u8, u8), u8)| #[trigger] kept@.contains(x) <==> (m.contains_key(x.0) && m[x.0].0 == x.1
                && (retain_multiedges || m[x.0].1 == 1)) by {
                if kept@.contains(x) {
                    let j = choose|j: int| 0 <= j < entries@.len() && #[trigger] entries@[j].0 == x.0 && entries@[j].1.0 == x.1
                        && (retain_multiedges || entries@[j].1.1 == 1);
                }
                if m.contains_key(x.0) && m[x.0].0 == x.1 && (retain_multiedges || m[x.0].1 == 1) {
                    let j = choose|j: int| 0 <= j < entries@.len() && #[trigger] entries@[j].0 == x.0;
                    assert(entries@[j].1 == m[x.0]);
                }
            }
            assert forall|j: int| 0 <= j < kept@.len() implies #[trigger] kept@[j].0.0 < perm@.len() && kept@[j].0.1 < perm@.len() by {
                assert(kept@.contains(kept@[j]));
                lemma_pair_rows_ends(self, self.adj@.len() as int, kept@[j].0);
            }
        }
        let mut perm_edges = permute_indexed_edges(kept.as_slice(), perm.as_slice());
        let ghost unsorted = perm_edges@;
        sort_by_key(&mut perm_edges);
        proof {
            let pm = Seq::new(self.adj@.len(), |y: int| simplify_perm(self.adj@, y));
            assert(perm@ == pm);
            assert forall|y: ((u8, u8), u8)| #[trigger] perm_edges@.contains(y) <==> simplified_entry(self.adj@, retain_multiedges, y) by {
                assert(perm_edges@.to_multiset().count(y) == unsorted.to_multiset().count(y));
                if unsorted.contains(y) {
                    let a = choose|a: int| 0 <= a < unsorted.len() && unsorted[a] == y;
                    assert(kept@.contains(kept@[a]));
                    assert(m.contains_key(kept@[a].0));
                }
                if simplified_entry(self.adj@, retain_multiedges, y) {
                    let key = choose|key: (u8, u8)| #[trigger] m.contains_key(key) && (retain_multiedges || m[key].1 == 1)
                        && y == (permute_edge(key, pm), m[key].0);
                    assert(kept@.contains((key, m[key].0)));
                    let a = choose|a: int| 0 <= a < kept@.len() && kept@[a] == (key, m[key].0);
                    assert(unsorted[a] == y);
                }
            }
            assert forall|j: int| 0 <= j < perm_edges@.len() implies #[trigger] perm_edges@[j].0.0 < new_v && perm_edges@[j].0.1 < new_v by {
                let y = perm_edges@[j];
                assert(perm_edges@.contains(y));
                let key = choose|key: (u8, u8)| #[trigger] m.contains_key(key) && (retain_multiedges || m[key].1 == 1)
                    && y == (permute_edge(key, pm), m[key].0);
                lemma_pair_rows_ends(self, self.adj@.len() as int, key);
                assert(pm[key.0 as int] == simplify_perm(self.adj@, key.0 as int));
                assert(pm[key.1 as int] == simplify_perm(self.adj@, key.1 as int));
            }
        }
        proof {
            // the entries are distinct: distinct pairs of ends have distinct first rows
            assert forall|a: int, b: int| 0 <= a < unsorted.len() && 0 <= b < unsorted.len() && a != b
                implies unsorted[a] != unsorted[b] by {
                assert(kept@.contains(kept@[a]) && kept@.contains(kept@[b]));
                let ka = kept@[a].0;
                let kb = kept@[b].0;
                assert(m.contains_key(ka) && m[ka].0 == kept@[a].1);
                assert(m.contains_key(kb) && m[kb].0 == kept@[b].1);
                if unsorted[a] == unsorted[b] {
                    lemma_pair_rows_first(self.adj@, self.adj@.len() as int, ka);
                    lemma_pair_rows_first(self.adj@, self.adj@.len() as int, kb);
                    assert(ka == kb);
                }
            }
            assert(unsorted.no_duplicates());
            unsorted.lemma_multiset_has_no_duplicates();
            assert forall|x: ((u8, u8), u8)| perm_edges@.to_multiset().contains(x) implies perm_edges@.to_multiset().count(x) == 1 by {
                assert(unsorted.to_multiset().contains(x));
            }
            perm_edges@.lemma_multiset_has_no_duplicates_conv();
        }
        let mut es: Vec<(u8, u8)> = Vec::new();
        let mut k: usize = 0;
        while k < perm_edges.len()
            invariant
                k <= perm_edges@.len(),
                es@ == perm_edges@.map_values(|e: ((u8, u8), u8)| e.0).take(k as int),
            decreases perm_edges@.len() - k,
        {
            es.push(perm_edges[k].0);
            assert(es@ =~= perm_edges@.map_values(|e: ((u8, u8), u8)| e.0).take(k as int + 1));
            k = k + 1;
        }
        assert(perm_edges@.map_values(|e: ((u8, u8), u8)| e.0).take(perm_edges@.len() as int)
            =~= perm_edges@.map_values(|e: ((u8, u8), u8)| e.0));
        proof {
            assert forall|j: int| 0 <= j < es@.len() implies #[trigger] es@[j].0 < new_v && es@[j].1 < new_v by {
                assert(es@[j] == perm_edges@[j].0);
            }
        }
        let g = Graph::new(new_v, es);
        (g, perm_edges)
    }
}

/// The first row recorded for a pair of ends is a row of valency 2 with
/// those ends.
proof fn lemma_pair_rows_first(adj: Seq<u64>, k: int, key: (u8, u8))
    requires
        0 <= k <= adj.len(),
        adj.len() <= 256,
        pair_rows(adj, k).contains_key(key),
    ensures
        0 <= pair_rows(adj, k)[key].0 < k,
        popcount(adj[pair_rows(adj, k)[key].0 as int]) == 2,
        two_ends(adj[pair_rows(adj, k)[key].0 as int]) == key,
    decreases k,
{
    if k > 0 {
        let m = pair_rows(adj, k - 1);
        let a = adj[k - 1];
        if popcount(a) == 2 && two_ends(a) == key {
            if m.contains_key(key) {
                lemma_pair_rows_first(adj, k - 1, key);
            }
        } else {
            lemma_pair_rows_first(adj, k - 1, key);
        }
    }
}

/// The keys of the pair map are pairs of vertices of the graph.
proof fn lemma_pair_rows_ends(g: &Graph, k: int, key: (u8, u8))
    requires
        g.wf(),
        0 <= k <= g.adj@.len(),
        pair_rows(g.adj@, k).contains_key(key),
    ensures
        key.0 < g.num_vertices && key.1 < g.num_vertices,
    decreases k,
{
    if k > 0 {
        let a = g.adj@[k - 1];
        if popcount(a) == 2 && two_ends(a) == key {
            lemma_bits_seq(a);
            assert(bit(a, bits_seq(a)[0]) && bit(a, bits_seq(a)[1]));
            lemma_row_within(g, k - 1, bits_seq(a)[0]);
            lemma_row_within(g, k - 1, bits_seq(a)[1]);
        } else {
            lemma_pair_rows_ends(g, k - 1, key);
        }
    }
}

/// The neighbours of a vertex are vertices.
pub proof fn lemma_row_within(g: &Graph, u: int, v: int)
    requires
        g.wf(),
        0 <= u < g.num_vertices,
        bit(g.adj@[u], v),
    ensures
        0 <= v < g.num_vertices,
{
    assert(g@.adjacent(u, v));
    let k = choose|k: int| 0 <= k < g.edges@.len() && #[trigger] edge_joins(g.edges@[k], u, v);
    assert(g.edges@[k].0 < g.num_vertices && g.edges@[k].1 < g.num_vertices);
}


/// The vertices that stay vertices when those of valency 1 become loops and
/// those of valency 2 edges.
pub open spec fn stays_multi(adj: Seq<u64>, x: int) -> bool {
    popcount(adj[x]) != 1 && popcount(adj[x]) != 2
}

/// The number of staying vertices below `x`.
pub open spec fn rank_multi(adj: Seq<u64>, x: int) -> nat
    decreases x,
{
    if x <= 0 {
        0
    } else {
        rank_multi(adj, x - 1) + (if stays_multi(adj, x - 1) {
            1nat
        } else {
            0nat
        })
    }
}

/// The new number of a staying vertex; the others keep theirs.
pub open spec fn multi_perm(adj: Seq<u64>, x: int) -> u8 {
    if stays_multi(adj, x) {
        rank_multi(adj, x) as u8
    } else {
        x as u8
    }
}

/// The edges given by the rows `0..k`: a loop at the neighbour of a vertex of
/// valency 1, an edge between the neighbours of a vertex of valency 2.
pub open spec fn multi_edges(adj: Seq<u64>, k: int) -> Seq<(u8, u8)>
    decreases k,
{
    if k <= 0 {
        Seq::empty()
    } else {
        let rest = multi_edges(adj, k - 1);
        let a = adj[k - 1];
        if popcount(a) == 1 {
            rest.push((bits_seq(a)[0] as u8, bits_seq(a)[0] as u8))
        } else if popcount(a) == 2 {
            rest.push(two_ends(a))
        } else {
            rest
        }
    }
}

/// The renumbered edges lie below the number of staying vertices.
pub open spec fn multigraph_fits(adj: Seq<u64>) -> bool {
    let es = multi_edges(adj, adj.len() as int);
    forall|j: int| 0 <= j < es.len() ==>
        multi_perm(adj, #[trigger] es[j].0 as int) < rank_multi(adj, adj.len() as int)
        && multi_perm(adj, es[j].1 as int) < rank_multi(adj, adj.len() as int)
}

proof fn lemma_multi_edges_within(g: &Graph, k: int)
    requires
        g.wf(),
        0 <= k <= g.adj@.len(),
    ensures
        edges_within(multi_edges(g.adj@, k), g.num_vertices as int),
    decreases k,
{
    if k > 0 {
        lemma_multi_edges_within(g, k - 1);
        let a = g.adj@[k - 1];
        let rest = multi_edges(g.adj@, k - 1);
        if popcount(a) == 1 || popcount(a) == 2 {
            lemma_bits_seq(a);
            assert(bit(a, bits_seq(a)[0]));
            lemma_row_within(g, k - 1, bits_seq(a)[0]);
            if popcount(a) == 2 {
                assert(bit(a, bits_seq(a)[1]));
                lemma_row_within(g, k - 1, bits_seq(a)[1]);
            }
            let r = multi_edges(g.adj@, k);
            assert forall|j: int| 0 <= j < r.len() implies #[trigger] r[j].0 < g.num_vertices && r[j].1 < g.num_vertices by {
                if j < rest.len() {
                    assert(r[j] == rest[j]);
                }
            }
        }
    }
}

impl Graph {
    /// Convert the graph to a multigraph: a vertex of valency 2 becomes an edge
    /// between its neighbours, one of valency 1 a loop at its neighbour, and the
    /// other vertices are renumbered in order.
    pub fn to_multigraph(&self) -> (g: Graph)
        requires
            self.wf(),
            multigraph_fits(self.adj@),
        ensures
            g.built_from(
                rank_multi(self.adj@, self.adj@.len() as int),
                multi_edges(self.adj@, self.adj@.len() as int).map_values(
                    |e: (u8, u8)| permute_edge(e, Seq::new(self.adj@.len(), |y: int| multi_perm(self.adj@, y))),
                ),
            ),
    {
        let mut new_edges: Vec<(u8, u8)> = Vec::new();
        let mut perm: Vec<u8> = Vec::new();
        let mut new_v: u8 = 0;
        let mut i: usize = 0;
        while i < self.adj.len()
            invariant
                self.wf(),
                i <= self.adj@.len(),
                new_v == rank_multi(self.adj@, i as int),
                new_v <= i,
                perm@ == Seq::new(i as nat, |y: int| multi_perm(self.adj@, y)),
                new_edges@ == multi_edges(self.adj@, i as int),
            decreases self.adj@.len() - i,
        {
            let a = self.adj[i];
            let c = count_ones(a);
            if c == 1 {
                proof {
                    lemma_bits_seq(a);
                    crate::bits::lemma_clear_lowest_smaller(a);
                    assert(bits_seq(a)[0] == u64_trailing_zeros(a) as int);
                }
                let v = a.trailing_zeros() as u8;
                new_edges.push((v, v));
                perm.push(i as u8);
            } else if c == 2 {
                let ends = bit_positions(a);
                proof {
                    lemma_bits_seq(a);
                }
                new_edges.push((ends[0] as u8, ends[1] as u8));
                perm.push(i as u8);
            } else {
                perm.push(new_v);
                new_v = new_v + 1;
            }
            proof {
                assert(perm@ =~= Seq::new((i + 1) as nat, |y: int| multi_perm(self.adj@, y)));
            }
            i = i + 1;
        }
        proof {
            lemma_multi_edges_within(self, self.adj@.len() as int);
        }
        let pe = permute_edges(new_edges.as_slice(), perm.as_slice());
        proof {
            let es = multi_edges(self.adj@, self.adj@.len() as int);
            assert forall|j: int| 0 <= j < pe@.len() implies #[trigger] pe@[j].0 < new_v && pe@[j].1 < new_v by {
                assert(pe@[j] == permute_edge(es[j], perm@));
                assert(multi_perm(self.adj@, es[j].0 as int) < new_v);
            }
        }
        Graph::new(new_v, pe)
    }
}

} // verus!
