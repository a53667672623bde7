//! Contracting an edge, or the neighbourhood of a vertex.
use vstd::prelude::*;
use vstd::std_specs::bits::*;
use crate::bits::{
    bit, bit_positions, bits_seq, count_below, count_ones, lemma_bits_all, lemma_bits_seq, lemma_count_below_high,
    lemma_count_below_lowest, lemma_count_below_popcount, lemma_count_below_step, popcount,
};
use crate::graph::{Graph, GraphView, adjacent_in, edge_joins, normalized};
use crate::perm::{compose, compose_spec, edges_within};

verus! {

broadcast use vstd::seq_lib::group_to_multiset_ensures;

/// The new number of vertex `a` when the edge `(u, w)`, `u <= w`, is contracted:
/// `w` becomes `u`, and the vertices above `w` move down by one.
pub open spec fn merged_vertex(a: int, u: int, w: int) -> int {
    if a == w {
        u
    } else if a > w {
        a - 1
    } else {
        a
    }
}

/// The edges other than copies of `(u, w)` and `(w, u)`, renumbered.
pub open spec fn contracted_edges(edges: Seq<(u8, u8)>, u: int, w: int) -> Seq<(u8, u8)>
    decreases edges.len(),
{
    if edges.len() == 0 {
        Seq::empty()
    } else {
        let rest = contracted_edges(edges.drop_last(), u, w);
        let e = edges.last();
        if (e.0 == u && e.1 == w) || (e.0 == w && e.1 == u) {
            rest
        } else {
            rest.push((merged_vertex(e.0 as int, u, w) as u8, merged_vertex(e.1 as int, u, w) as u8))
        }
    }
}

/// The contracted edges stay below the new number of vertices.
proof fn lemma_contracted_within(edges: Seq<(u8, u8)>, u: int, w: int, n: int)
    requires
        edges_within(edges, n),
        0 <= u <= w < n,
        u == w ==> w + 1 < n || forall|k: int| 0 <= k < edges.len() && (#[trigger] edges[k].0 == w || edges[k].1 == w)
            ==> edges[k].0 == w && edges[k].1 == w,
        n <= 256,
    ensures
        edges_within(contracted_edges(edges, u, w), n - 1),
    decreases edges.len(),
{
    if edges.len() > 0 {
        let d = edges.drop_last();
        assert forall|k: int| 0 <= k < d.len() implies #[trigger] d[k].0 < n && d[k].1 < n by {
            assert(d[k] == edges[k]);
        }
        assert forall|k: int| 0 <= k < d.len() && (#[trigger] d[k].0 == w || d[k].1 == w) implies
            (u == w && w + 1 >= n ==> d[k].0 == w && d[k].1 == w) by {
            assert(d[k] == edges[k]);
        }
        lemma_contracted_within(d, u, w, n);
        let e = edges.last();
        assert(e == edges[edges.len() - 1]);
        let rest = contracted_edges(d, u, w);
        if !((e.0 == u && e.1 == w) || (e.0 == w && e.1 == u)) {
            let r = rest.push((merged_vertex(e.0 as int, u, w) as u8, merged_vertex(e.1 as int, u, w) as u8));
            assert forall|k: int| 0 <= k < r.len() implies #[trigger] r[k].0 < n - 1 && r[k].1 < n - 1 by {
                if k < rest.len() {
                    assert(r[k] == rest[k]);
                }
            }
        }
    }
}

impl Graph {
    /// Contracts the given edge: all its copies are removed, its larger end is
    /// merged into its smaller one, and the vertices above it move down by one.
    pub fn contract_edge(&self, edge: (u8, u8)) -> (g: Graph)
        requires
            self.wf(),
            self.edges@.contains(edge),
            edge.0 != edge.1 || edge.0 + 1 < self.num_vertices || forall|k: int| 0 <= k < self.edges@.len()
                && (#[trigger] self.edges@[k].0 == edge.0 || self.edges@[k].1 == edge.0) ==> self.edges@[k] == edge,
        ensures
            ({
                let u = if edge.0 < edge.1 { edge.0 } else { edge.1 };
                let w = if edge.0 < edge.1 { edge.1 } else { edge.0 };
                g.built_from((self.num_vertices - 1) as nat, contracted_edges(self.edges@, u as int, w as int))
            }),
    {
        let ghost i = choose|i: int| 0 <= i < self.edges@.len() && self.edges@[i] == edge;
        proof {
            assert(self.edges@[i].0 < self.num_vertices && self.edges@[i].1 < self.num_vertices);
        }
        let (u, w) = if edge.0 < edge.1 { (edge.0, edge.1) } else { (edge.1, edge.0) };
        let mut edges: Vec<(u8, u8)> = Vec::new();
        let mut k: usize = 0;
        while k < self.edges.len()
            invariant
                self.wf(),
                u <= w < self.num_vertices,
                k <= self.edges@.len(),
                edges@ == contracted_edges(self.edges@.take(k as int), u as int, w as int),
            decreases self.edges@.len() - k,
        {
            let (a, b) = self.edges[k];
            assert(self.edges@.take(k as int + 1).drop_last() =~= self.edges@.take(k as int));
            if !((a == u && b == w) || (a == w && b == u)) {
                let a2 = if a == w { u } else if a > w { a - 1 } else { a };
                let b2 = if b == w { u } else if b > w { b - 1 } else { b };
                edges.push((a2, b2));
            }
            k = k + 1;
        }
        assert(self.edges@.take(self.edges@.len() as int) =~= self.edges@);
        proof {
            lemma_contracted_within(self.edges@, u as int, w as int, self.num_vertices as int);
        }
        Graph::new(self.num_vertices - 1, edges)
    }
}


/// A vertex and its neighbours.
pub open spec fn neighbourhood(adj: Seq<u64>, v: int) -> u64 {
    adj[v] | (1u64 << (v as u64))
}

/// The pair `{u, w}` with its smaller end first.
pub open spec fn vertex_pair(u: int, w: int) -> (u8, u8) {
    if u < w {
        (u as u8, w as u8)
    } else {
        (w as u8, u as u8)
    }
}

/// The sequence without its first element.
pub open spec fn tail(s: Seq<int>) -> Seq<int> {
    if s.len() == 0 {
        s
    } else {
        s.subrange(1, s.len() as int)
    }
}

/// The edges that would become parallel: for each of the rows `0..w`, the
/// pairs from the row's vertex to its neighbours in `neigh`, all but the lowest.
pub open spec fn double_pairs(adj: Seq<u64>, neigh: u64, w: int) -> Seq<(u8, u8)>
    decreases w,
{
    if w <= 0 {
        Seq::empty()
    } else {
        double_pairs(adj, neigh, w - 1) + tail(bits_seq(neigh & adj[w - 1])).map_values(
            |u: int| vertex_pair(u, w - 1),
        )
    }
}

/// The first index at or after `i` that holds `e`, or -1.
pub open spec fn first_index_from(s: Seq<(u8, u8)>, e: (u8, u8), i: int) -> int
    decreases s.len() - i,
{
    if i < 0 || i >= s.len() {
        -1
    } else if s[i] == e {
        i
    } else {
        first_index_from(s, e, i + 1)
    }
}

/// Remove the first copy of `e`, moving the last element into its place.
pub open spec fn swap_drop(s: Seq<(u8, u8)>, e: (u8, u8)) -> Seq<(u8, u8)> {
    let i = first_index_from(s, e, 0);
    if i >= 0 {
        s.update(i, s.last()).drop_last()
    } else {
        s
    }
}

/// Remove a copy of each of the pairs in turn.
pub open spec fn swap_drop_all(s: Seq<(u8, u8)>, pairs: Seq<(u8, u8)>) -> Seq<(u8, u8)>
    decreases pairs.len(),
{
    if pairs.len() == 0 {
        s
    } else {
        swap_drop(swap_drop_all(s, pairs.drop_last()), pairs.last())
    }
}

/// The new number of vertex `a` when the neighbourhood `neigh` is contracted onto
/// its lowest vertex, the other vertices moving down over the merged ones.
pub open spec fn nbhd_map(neigh: u64, a: int) -> u8 {
    let t = u64_trailing_zeros(neigh) as int;
    if bit(neigh, a) {
        t as u8
    } else if a > t {
        (a - count_below(neigh, a) + 1) as u8
    } else {
        a as u8
    }
}

/// The edges that avoid `v`, renumbered by `m`.
pub open spec fn nbhd_edges(edges: Seq<(u8, u8)>, v: int, m: Seq<u8>) -> Seq<(u8, u8)>
    decreases edges.len(),
{
    if edges.len() == 0 {
        Seq::empty()
    } else {
        let rest = nbhd_edges(edges.drop_last(), v, m);
        let e = edges.last();
        if e.0 != v && e.1 != v {
            rest.push((m[e.0 as int], m[e.1 as int]))
        } else {
            rest
        }
    }
}

proof fn lemma_first_index(s: Seq<(u8, u8)>, e: (u8, u8), j: int, i: int)
    requires
        0 <= j <= i,
        forall|k: int| j <= k < i ==> s[k] != e,
        i == s.len() || (i < s.len() && s[i] == e),
    ensures
        first_index_from(s, e, j) == (if i < s.len() { i } else { -1 }),
    decreases i - j,
{
    if j < i {
        lemma_first_index(s, e, j + 1, i);
    }
}

/// Removing elements keeps the edges within the vertices.
proof fn lemma_swap_drop_within(s: Seq<(u8, u8)>, e: (u8, u8), n: int)
    requires
        edges_within(s, n),
    ensures
        edges_within(swap_drop(s, e), n),
{
    let i = first_index_from(s, e, 0);
    if i >= 0 {
        lemma_first_index_range(s, e, 0);
        let r = s.update(i, s.last()).drop_last();
        assert(s[s.len() - 1].0 < n && s[s.len() - 1].1 < n);
        assert forall|k: int| 0 <= k < r.len() implies #[trigger] r[k].0 < n && r[k].1 < n by {
            if k == i {
                assert(r[k] == s[s.len() - 1]);
            } else {
                assert(r[k] == s[k]);
                assert(s[k].0 < n && s[k].1 < n);
            }
        }
    }
}

proof fn lemma_first_index_range(s: Seq<(u8, u8)>, e: (u8, u8), j: int)
    requires
        0 <= j,
    ensures
        first_index_from(s, e, j) == -1 || (j <= first_index_from(s, e, j) < s.len()),
    decreases s.len() - j,
{
    if j < s.len() {
        lemma_first_index_range(s, e, j + 1);
    }
}

/// The renumbered edges avoiding `v` stay below `bound`.
proof fn lemma_nbhd_edges_within(edges: Seq<(u8, u8)>, v: int, m: Seq<u8>, n: int, bound: int)
    requires
        edges_within(edges, n),
        m.len() == n,
        forall|a: int| 0 <= a < n && a != v ==> #[trigger] m[a] < bound,
    ensures
        edges_within(nbhd_edges(edges, v, m), bound),
    decreases edges.len(),
{
    if edges.len() > 0 {
        let d = edges.drop_last();
        assert forall|k: int| 0 <= k < d.len() implies #[trigger] d[k].0 < n && d[k].1 < n by {
            assert(d[k] == edges[k]);
        }
        lemma_nbhd_edges_within(d, v, m, n, bound);
        let e = edges.last();
        assert(e == edges[edges.len() - 1]);
        let rest = nbhd_edges(d, v, m);
        if e.0 != v && e.1 != v {
            let r = rest.push((m[e.0 as int], m[e.1 as int]));
            assert forall|k: int| 0 <= k < r.len() implies #[trigger] r[k].0 < bound && r[k].1 < bound by {
                if k < rest.len() {
                    assert(r[k] == rest[k]);
                }
            }
        }
    }
}

/// The renumbering sends the vertices below `n` below `n - |neigh| + 1`.
proof fn lemma_nbhd_map_bound(neigh: u64, n: int, a: int)
    requires
        neigh != 0,
        0 <= a < n <= 64,
        forall|i: int| #[trigger] bit(neigh, i) ==> i < n,
    ensures
        nbhd_map(neigh, a) < n - popcount(neigh) + 1,
        popcount(neigh) <= n,
{
    let t = u64_trailing_zeros(neigh) as int;
    lemma_count_below_popcount(neigh);
    lemma_count_below_high(neigh, n, 64);
    lemma_count_below_lowest(neigh);
    crate::bits::lemma_clear_lowest(neigh);
    lemma_count_below_step(neigh, t + 1, n);
    lemma_count_below_step(neigh, 0, t);
    if bit(neigh, a) {
    } else if a > t {
        lemma_count_below_step(neigh, a + 1, n);
        lemma_count_below_step(neigh, t + 1, a);
        assert(count_below(neigh, a + 1) == count_below(neigh, a));
    } else {
    }
}

/// `h` and `m` are the contraction of the neighbourhood of `v` in `g`, with
/// the renumbering of the vertices.
pub open spec fn is_nbhd_contraction(g: Graph, v: int, h: Graph, m: Seq<u8>) -> bool {
    let neigh = neighbourhood(g.adj@, v);
    &&& m == Seq::new(g.num_vertices as nat, |a: int| nbhd_map(neigh, a))
    &&& h.built_from(
        (g.num_vertices - popcount(neigh) + 1) as nat,
        nbhd_edges(swap_drop_all(g.edges@, double_pairs(g.adj@, neigh, g.num_vertices as int)), v, m),
    )
}

/// Successive contractions: graph `gs[i + 1]` contracts in `gs[i]` the
/// neighbourhood of the last vertex of `vs[i]`, and `vs[i + 1]` is the rest of
/// `vs[i]` renumbered.
pub open spec fn contraction_chain(gs: Seq<Graph>, ms: Seq<Seq<u8>>, vs: Seq<Seq<u8>>) -> bool {
    &&& gs.len() == vs.len()
    &&& ms.len() + 1 == vs.len()
    &&& forall|i: int| 0 <= i < ms.len() ==> #[trigger] chain_step(gs, ms, vs, i)
}

/// Step `i` of a chain of contractions.
pub open spec fn chain_step(gs: Seq<Graph>, ms: Seq<Seq<u8>>, vs: Seq<Seq<u8>>, i: int) -> bool {
    &&& vs[i].len() >= 1
    &&& is_nbhd_contraction(gs[i], vs[i].last() as int, gs[i + 1], ms[i])
    &&& vs[i + 1] == compose_spec(vs[i].drop_last(), ms[i])
}

impl Graph {
    /// Contract the neighbourhood of a vertex: the vertex and its edges go, its
    /// neighbours are merged into the lowest vertex of the neighbourhood, and the
    /// edges that would become parallel are dropped first. Returns the contracted
    /// graph, along with the map from old vertices to new ones.
    pub fn contract_neighborhood(&self, v: u8) -> (res: (Graph, Vec<u8>))
        requires
            self.wf(),
            v < self.num_vertices,
        ensures
            is_nbhd_contraction(*self, v as int, res.0, res.1@),
            forall|a: int| 0 <= a < self.num_vertices ==> #[trigger] res.1@[a] < res.0.num_vertices,
    {
        let n = self.num_vertices;
        let neigh = self.adj[v as usize] | (1u64 << v);
        let ghost gneigh = neighbourhood(self.adj@, v as int);
        let size = count_ones(neigh);
        proof {
            lemma_bits_all();
            crate::bits::lemma_bit_single(v as u64);
            assert forall|i: int| #[trigger] bit(neigh, i) implies i < n by {
                if bit(self.adj@[v as int], i) {
                    assert(self@.adjacent(v as int, i));
                    let k = choose|k: int| 0 <= k < self.edges@.len() && #[trigger] edge_joins(self.edges@[k], v as int, i);
                    assert(self.edges@[k].0 < n && self.edges@[k].1 < n);
                }
            }
            assert(bit(neigh, v as int));
            crate::bits::lemma_bit_zero();
            assert(neigh != 0);
        }
        // drop the edges that would become parallel
        let mut edges: Vec<(u8, u8)> = Vec::with_capacity(self.edges.len());
        let mut k: usize = 0;
        while k < self.edges.len()
            invariant
                k <= self.edges@.len(),
                edges@ == self.edges@.take(k as int),
            decreases self.edges@.len() - k,
        {
            edges.push(self.edges[k]);
            assert(edges@ =~= self.edges@.take(k as int + 1));
            k = k + 1;
        }
        assert(self.edges@.take(self.edges@.len() as int) =~= self.edges@);
        let mut w: u8 = 0;
        while w < n
            invariant
                self.wf(),
                n == self.num_vertices,
                neigh == gneigh,
                w <= n,
                edges@ == swap_drop_all(self.edges@, double_pairs(self.adj@, neigh, w as int)),
            decreases n - w,
        {
            let us = bit_positions(neigh & self.adj[w as usize]);
            let ghost row = bits_seq(neigh & self.adj@[w as int]);
            let ghost done = double_pairs(self.adj@, neigh, w as int);
            let ghost rp = tail(row).map_values(|u: int| vertex_pair(u, w as int));
            let mut idx: usize = 1;
            proof {
                assert(rp.take(0) =~= Seq::<(u8, u8)>::empty());
                assert(done + rp.take(0) =~= done);
            }
            while idx < us.len()
                invariant
                    self.wf(),
                    n == self.num_vertices,
                    neigh == gneigh,
                    w < n,
                    row == bits_seq(neigh & self.adj@[w as int]),
                    done == double_pairs(self.adj@, neigh, w as int),
                    us@.len() == row.len(),
                    forall|s: int| 0 <= s < us@.len() ==> #[trigger] us@[s] as int == row[s],
                    rp == tail(row).map_values(|u: int| vertex_pair(u, w as int)),
                    1 <= idx,
                    idx <= us@.len() || idx == 1,
                    edges@ == swap_drop_all(self.edges@, done + rp.take(idx - 1)),
                decreases us@.len() - idx,
            {
                proof {
                    lemma_bits_seq(neigh & self.adj@[w as int]);
                    assert(us@[idx as int] < 64);
                }
                let u = us[idx] as u8;
                let pair: (u8, u8) = if (u as usize) < (w as usize) { (u, w) } else { (w, u) };
                proof {
                    assert(row[idx as int] < 64) by {
                        lemma_bits_seq(neigh & self.adj@[w as int]);
                    }
                    assert(tail(row)[idx - 1] == row[idx as int]);
                    assert(pair == rp[idx - 1]);
                    assert((done + rp.take(idx as int)).drop_last() =~= done + rp.take(idx - 1));
                    assert((done + rp.take(idx as int)).last() == pair);
                }
                let ghost before = edges@;
                let mut i: usize = 0;
                while i < edges.len() && !(edges[i].0 == pair.0 && edges[i].1 == pair.1)
                    invariant
                        edges@ == before,
                        i <= edges@.len(),
                        forall|x: int| 0 <= x < i ==> edges@[x] != pair,
                    decreases edges@.len() - i,
                {
                    i = i + 1;
                }
                proof {
                    lemma_first_index(before, pair, 0, i as int);
                }
                if i < edges.len() {
                    edges.swap_remove(i);
                }
                idx = idx + 1;
            }
            proof {
                if us@.len() == 0 {
                    assert(tail(row).len() == 0);
                    assert(idx == 1);
                } else {
                    assert(idx == us@.len());
                    assert(tail(row).len() == row.len() - 1);
                }
                assert(rp.take(idx as int - 1) =~= rp);
                assert(double_pairs(self.adj@, neigh, w as int + 1) =~= done + rp);
                assert(done + rp.take(idx as int - 1) =~= double_pairs(self.adj@, neigh, w as int + 1));
            }
            w = w + 1;
        }
        proof {
            let pairs = double_pairs(self.adj@, neigh, n as int);
            lemma_swap_drop_all_within(self.edges@, pairs, n as int);
        }
        // the renumbering
        let t = neigh.trailing_zeros() as usize;
        proof {
            lemma_count_below_lowest(neigh);
        }
        let mut morphism: Vec<u8> = Vec::new();
        let mut c: usize = 0;
        let mut a: usize = 0;
        while a < n as usize
            invariant
                n == self.num_vertices,
                n <= 64,
                neigh != 0,
                t == u64_trailing_zeros(neigh),
                a <= n,
                c == count_below(neigh, a as int),
                c <= a,
                morphism@ == Seq::new(a as nat, |x: int| nbhd_map(neigh, x)),
            decreases n - a,
        {
            let is_in = (neigh >> a as u64) & 1 == 1;
            let m: u8 = if is_in {
                t as u8
            } else if a > t {
                (a - c + 1) as u8
            } else {
                a as u8
            };
            proof {
                assert(is_in == bit(neigh, a as int));
                assert(m == nbhd_map(neigh, a as int));
            }
            morphism.push(m);
            if is_in {
                c = c + 1;
            }
            assert(morphism@ =~= Seq::new((a + 1) as nat, |x: int| nbhd_map(neigh, x)));
            a = a + 1;
        }
        // keep the edges avoiding v, renumbered
        let mut new_edges: Vec<(u8, u8)> = Vec::new();
        let ghost kept = edges@;
        let mut k: usize = 0;
        while k < edges.len()
            invariant
                edges@ == kept,
                edges_within(kept, n as int),
                morphism@.len() == n,
                k <= kept.len(),
                new_edges@ == nbhd_edges(kept.take(k as int), v as int, morphism@),
            decreases kept.len() - k,
        {
            let (x, y) = edges[k];
            assert(kept.take(k as int + 1).drop_last() =~= kept.take(k as int));
            proof {
                assert(kept[k as int].0 < n && kept[k as int].1 < n);
            }
            if x != v && y != v {
                new_edges.push((morphism[x as usize], morphism[y as usize]));
            }
            k = k + 1;
        }
        assert(kept.take(kept.len() as int) =~= kept);
        proof {
            assert forall|x: int| 0 <= x < n && x != v implies #[trigger] morphism@[x] < n - popcount(neigh) + 1 by {
                lemma_nbhd_map_bound(neigh, n as int, x);
            }
            lemma_nbhd_map_bound(neigh, n as int, 0);
            lemma_nbhd_edges_within(kept, v as int, morphism@, n as int, n - popcount(neigh) + 1);
            assert forall|x: int| 0 <= x < n implies #[trigger] morphism@[x] < n - popcount(neigh) + 1 by {
                lemma_nbhd_map_bound(neigh, n as int, x);
            }
        }
        let g = Graph::new(n - size as u8 + 1, new_edges);
        (g, morphism)
    }
}

proof fn lemma_swap_drop_all_within(s: Seq<(u8, u8)>, pairs: Seq<(u8, u8)>, n: int)
    requires
        edges_within(s, n),
    ensures
        edges_within(swap_drop_all(s, pairs), n),
    decreases pairs.len(),
{
    if pairs.len() > 0 {
        lemma_swap_drop_all_within(s, pairs.drop_last(), n);
        lemma_swap_drop_within(swap_drop_all(s, pairs.drop_last()), pairs.last(), n);
    }
}


impl Graph {
    /// Contracts the neighbourhoods of the given vertices, last first; after
    /// each contraction the remaining vertices are renumbered.
    pub fn contract_multiple_neighborhoods(&self, vertices: &[u8]) -> (g: Graph)
        requires
            self.wf(),
            forall|i: int| 0 <= i < vertices@.len() ==> #[trigger] vertices@[i] < self.num_vertices,
        ensures
            g.wf(),
            exists|gs: Seq<Graph>, ms: Seq<Seq<u8>>, vs: Seq<Seq<u8>>| {
                &&& #[trigger] contraction_chain(gs, ms, vs)
                &&& vs.len() == vertices@.len() + 1
                &&& vs[0] == vertices@
                &&& gs[0]@ == self@ && gs[0].adj@ == self.adj@ && gs[0].num_vertices == self.num_vertices
                &&& gs.last() == g
            },
    {
        let mut vert: Vec<u8> = Vec::new();
        let mut k: usize = 0;
        while k < vertices.len()
            invariant
                k <= vertices@.len(),
                vert@ == vertices@.take(k as int),
            decreases vertices@.len() - k,
        {
            vert.push(vertices[k]);
            assert(vert@ =~= vertices@.take(k as int + 1));
            k = k + 1;
        }
        assert(vertices@.take(vertices@.len() as int) =~= vertices@);
        let mut g = self.copy();
        let ghost mut gs: Seq<Graph> = seq![g];
        let ghost mut ms: Seq<Seq<u8>> = Seq::empty();
        let ghost mut vs: Seq<Seq<u8>> = seq![vert@];
        proof {
            assert(g@ == self@);
        }
        while vert.len() > 0
            invariant
                g.wf(),
                forall|i: int| 0 <= i < vert@.len() ==> #[trigger] vert@[i] < g.num_vertices,
                contraction_chain(gs, ms, vs),
                vs.len() + vert@.len() == vertices@.len() + 1,
                vs[0] == vertices@,
                gs[0]@ == self@ && gs[0].adj@ == self.adj@ && gs[0].num_vertices == self.num_vertices,
                gs.last() == g,
                vs.last() == vert@,
            decreases vert@.len(),
        {
            let ghost before = vert@;
            let v = vert.pop().unwrap();
            proof {
                assert(before.last() == v);
                assert(vert@ == before.drop_last());
                assert(v < g.num_vertices);
            }
            let (gr, map) = g.contract_neighborhood(v);
            proof {
                assert forall|i: int| 0 <= i < vert@.len() implies #[trigger] vert@[i] < map@.len() by {
                    assert(vert@[i] == before[i]);
                }
            }
            let nv = compose(vert.as_slice(), map.as_slice());
            proof {
                assert(gs.last() == g && vs.last() == before && before.last() == v);
                lemma_chain_push(gs, ms, vs, gr, map@, nv@);
                gs = gs.push(gr);
                ms = ms.push(map@);
                vs = vs.push(nv@);
                assert forall|i: int| 0 <= i < nv@.len() implies #[trigger] nv@[i] < gr.num_vertices by {
                    assert(nv@[i] == map@[vert@[i] as int]);
                    assert(vert@[i] < g.num_vertices);
                }
            }
            vert = nv;
            g = gr;
        }
        proof {
            assert(contraction_chain(gs, ms, vs));
        }
        g
    }
}


/// A chain extended by one more contraction.
proof fn lemma_chain_push(gs: Seq<Graph>, ms: Seq<Seq<u8>>, vs: Seq<Seq<u8>>, g2: Graph, m2: Seq<u8>, v2: Seq<u8>)
    requires
        contraction_chain(gs, ms, vs),
        vs.len() >= 1,
        vs.last().len() >= 1,
        is_nbhd_contraction(gs.last(), vs.last().last() as int, g2, m2),
        v2 == compose_spec(vs.last().drop_last(), m2),
    ensures
        contraction_chain(gs.push(g2), ms.push(m2), vs.push(v2)),
{
    let gs2 = gs.push(g2);
    let ms2 = ms.push(m2);
    let vs2 = vs.push(v2);
    assert forall|i: int| 0 <= i < ms2.len() implies #[trigger] chain_step(gs2, ms2, vs2, i) by {
        if i < ms.len() {
            assert(gs2[i] == gs[i] && gs2[i + 1] == gs[i + 1] && vs2[i] == vs[i] && vs2[i + 1] == vs[i + 1] && ms2[i] == ms[i]);
            assert(chain_step(gs, ms, vs, i));
        } else {
            assert(gs2[i] == gs.last() && vs2[i] == vs.last() && gs2[i + 1] == g2 && ms2[i] == m2);
        }
    }
}

} // verus!
