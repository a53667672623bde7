//! Graphs on at most 64 vertices, with an edge list and bit-packed adjacency rows.
use vstd::prelude::*;
use crate::bits::{
    bit, bit_positions, bits_seq, count_ones, lemma_bits_all, lemma_bits_ext, lemma_bits_seq,
    mask_set, popcount,
};
use crate::perm::{edges_within, norm_pair};
use crate::sort::{sort_by_key, sorted_by_key, SortKey};
use crate::reach::{reachable, symmetric, lemma_reach_refl, lemma_reach_step, lemma_reach_sym, lemma_reach_trans, lemma_closed_labels};

pub use crate::bits::BitPositions;
pub use crate::perm::{
    compose, inverse, permute_edges, permute_indexed_edges, permute_mask, sign, sign_subset,
};
pub use crate::ktuples::get_ktuples;

verus! {

broadcast use vstd::seq_lib::group_to_multiset_ensures;

/// A graph: its vertices are `0..num_vertices`, `edges` lists its edges (a pair may
/// occur several times, and `(v, v)` is a loop), and `adj[v]` is the mask of the
/// neighbours of `v`.
#[derive(Clone)]
pub struct Graph {
    pub num_vertices: u8,
    pub edges: Vec<(u8, u8)>,
    pub adj: Vec<u64>,
}

/// A graph on `0..num_vertices` given by lists of neighbours.
#[derive(Clone)]
pub struct BigGraph {
    pub num_vertices: usize,
    pub neighbours: Vec<Vec<usize>>,
}

/// The abstract graph: a number of vertices and a list of edges.
pub struct GraphView {
    pub n: nat,
    pub edges: Seq<(u8, u8)>,
}

/// The edge `e` joins `u` and `v` (in either direction).
pub open spec fn edge_joins(e: (u8, u8), u: int, v: int) -> bool {
    (e.0 == u && e.1 == v) || (e.0 == v && e.1 == u)
}

/// Some edge of the list joins `u` and `v`.
pub open spec fn adjacent_in(edges: Seq<(u8, u8)>, u: int, v: int) -> bool {
    exists|k: int| 0 <= k < edges.len() && #[trigger] edge_joins(edges[k], u, v)
}

impl GraphView {
    /// Some edge joins `u` and `v`.
    pub open spec fn adjacent(self, u: int, v: int) -> bool {
        adjacent_in(self.edges, u, v)
    }

    /// The adjacency relation.
    pub open spec fn adj_rel(self) -> spec_fn(int, int) -> bool {
        |a: int, b: int| self.adjacent(a, b)
    }

    /// `v` can be reached from `u`.
    pub open spec fn reachable(self, u: int, v: int) -> bool {
        reachable(self.adj_rel(), self.n as int, u, v)
    }

    /// Every vertex can be reached from every other.
    pub open spec fn connected(self) -> bool {
        forall|u: int, v: int| 0 <= u < self.n && 0 <= v < self.n ==> #[trigger] self.reachable(u, v)
    }
}

impl View for Graph {
    type V = GraphView;

    open spec fn view(&self) -> GraphView {
        GraphView { n: self.num_vertices as nat, edges: self.edges@ }
    }
}

/// Each edge with its smaller end first.
pub open spec fn normalized(edges: Seq<(u8, u8)>) -> Seq<(u8, u8)> {
    edges.map_values(|e: (u8, u8)| norm_pair(e.0, e.1))
}

impl Graph {
    /// The adjacency rows agree with the edge list, and every vertex is below 64.
    pub open spec fn wf(&self) -> bool {
        &&& self.num_vertices <= 64
        &&& self.adj@.len() == self.num_vertices
        &&& edges_within(self.edges@, self.num_vertices as int)
        &&& forall|u: int, v: int|
            0 <= u < self.num_vertices ==> (#[trigger] bit(self.adj@[u], v) <==> self@.adjacent(
                u,
                v,
            ))
    }

    /// The graph that `Graph::new(n, edges)` builds: `n` vertices, and the edges
    /// written with their smaller end first, in sorted order.
    pub open spec fn built_from(&self, n: nat, edges: Seq<(u8, u8)>) -> bool {
        &&& self.wf()
        &&& self.num_vertices == n
        &&& sorted_by_key(self.edges@)
        &&& self.edges@.to_multiset() == normalized(edges).to_multiset()
    }

    /// The number of neighbours of `v` (a loop counts once).
    pub open spec fn valency(&self, v: int) -> nat {
        popcount(self.adj@[v])
    }

    /// Build a graph from its edges; each edge is stored with its smaller end first,
    /// and the list is sorted.
    pub fn new(num_vertices: u8, edges: Vec<(u8, u8)>) -> (g: Self)
        requires
            num_vertices <= 64,
            edges_within(edges@, num_vertices as int),
        ensures
            g.built_from(num_vertices as nat, edges@),
    {
        let mut es: Vec<(u8, u8)> = Vec::with_capacity(edges.len());
        let mut i: usize = 0;
        while i < edges.len()
            invariant
                i <= edges@.len(),
                es@ =~= normalized(edges@).take(i as int),
            decreases edges@.len() - i,
        {
            let (a, b) = edges[i];
            if a < b {
                es.push((a, b));
            } else {
                es.push((b, a));
            }
            i = i + 1;
        }
        assert(normalized(edges@).take(edges@.len() as int) =~= normalized(edges@));
        proof {
            assert forall|k: int| 0 <= k < es@.len() implies #[trigger] es@[k].0 < num_vertices
                && es@[k].1 < num_vertices by {
                assert(es@[k] == norm_pair(edges@[k].0, edges@[k].1));
            }
        }
        let ghost unsorted = es@;
        sort_by_key(&mut es);
        proof {
            assert forall|k: int| 0 <= k < es@.len() implies #[trigger] es@[k].0 < num_vertices
                && es@[k].1 < num_vertices by {
                assert(es@.to_multiset().count(es@[k]) > 0);
                assert(unsorted.to_multiset().count(es@[k]) > 0);
                assert(unsorted.contains(es@[k]));
            }
        }
        let adj = adjacency(num_vertices, &es);
        Graph { num_vertices, edges: es, adj }
    }

    /// A copy of the graph.
    pub fn copy(&self) -> (g: Graph)
        ensures
            g.num_vertices == self.num_vertices,
            g.edges@ == self.edges@,
            g.adj@ == self.adj@,
    {
        let mut edges: Vec<(u8, u8)> = Vec::with_capacity(self.edges.len());
        let mut k: usize = 0;
        while k < self.edges.len()
            invariant
                k <= self.edges@.len(),
                edges@ =~= self.edges@.take(k as int),
            decreases self.edges@.len() - k,
        {
            edges.push(self.edges[k]);
            k = k + 1;
        }
        let mut adj: Vec<u64> = Vec::with_capacity(self.adj.len());
        let mut k: usize = 0;
        while k < self.adj.len()
            invariant
                k <= self.adj@.len(),
                adj@ =~= self.adj@.take(k as int),
            decreases self.adj@.len() - k,
        {
            adj.push(self.adj[k]);
            k = k + 1;
        }
        assert(self.edges@.take(self.edges@.len() as int) =~= self.edges@);
        assert(self.adj@.take(self.adj@.len() as int) =~= self.adj@);
        Graph { num_vertices: self.num_vertices, edges, adj }
    }

    /// Whether vertex `vertex` has exactly two neighbours.
    pub fn has_valency2(&self, vertex: u8) -> (r: bool)
        requires
            vertex < self.adj@.len(),
        ensures
            r == (self.valency(vertex as int) == 2),
    {
        count_ones(self.adj[vertex as usize]) == 2
    }

    /// Whether vertex `vertex` has exactly three neighbours.
    pub fn has_valency3(&self, vertex: u8) -> (r: bool)
        requires
            vertex < self.adj@.len(),
        ensures
            r == (self.valency(vertex as int) == 3),
    {
        count_ones(self.adj[vertex as usize]) == 3
    }

    /// Whether vertex `vertex` has at least `min` and at most `max` neighbours.
    pub fn has_valency(&self, vertex: u8, min: u8, max: u8) -> (r: bool)
        requires
            vertex < self.adj@.len(),
        ensures
            r == (min <= self.valency(vertex as int) <= max),
    {
        let c = count_ones(self.adj[vertex as usize]);
        c >= min as u32 && c <= max as u32
    }

    /// All vertices with at least `min` and at most `max` neighbours, in increasing order.
    pub fn vertices_valency(&self, min: u8, max: u8) -> (res: Vec<u8>)
        requires
            self.adj@.len() >= self.num_vertices,
        ensures
            res@ == vertices_with_valency(self, min as nat, max as nat, self.num_vertices as int),
    {
        let mut res: Vec<u8> = Vec::new();
        let mut i: u8 = 0;
        while i < self.num_vertices
            invariant
                i <= self.num_vertices,
                self.adj@.len() >= self.num_vertices,
                res@ == vertices_with_valency(self, min as nat, max as nat, i as int),
            decreases self.num_vertices - i,
        {
            if self.has_valency(i, min, max) {
                res.push(i);
            }
            i = i + 1;
        }
        res
    }

    /// All vertices with exactly two neighbours, in increasing order.
    pub fn vertices_valency2(&self) -> (res: Vec<u8>)
        requires
            self.adj@.len() >= self.num_vertices,
        ensures
            res@ == vertices_with_valency(self, 2, 2, self.num_vertices as int),
    {
        self.vertices_valency(2, 2)
    }

    /// All vertices with exactly three neighbours, in increasing order.
    pub fn vertices_valency3(&self) -> (res: Vec<u8>)
        requires
            self.adj@.len() >= self.num_vertices,
        ensures
            res@ == vertices_with_valency(self, 3, 3, self.num_vertices as int),
    {
        self.vertices_valency(3, 3)
    }

    /// Whether some vertex has a single neighbour, which in the bipartite form
    /// is a loop.
    pub fn contains_loop(&self) -> (r: bool)
        requires
            self.adj@.len() >= self.num_vertices,
        ensures
            r == exists|v: int| 0 <= v < self.num_vertices && #[trigger] self.valency(v) == 1,
    {
        let vs = self.vertices_valency(1, 1);
        proof {
            lemma_vertices_with_valency(self, 1, 1, self.num_vertices as int);
            if exists|v: int| 0 <= v < self.num_vertices && #[trigger] self.valency(v) == 1 {
                let v = choose|v: int| 0 <= v < self.num_vertices && #[trigger] self.valency(v) == 1;
                assert(vs@.contains(v as u8));
            }
            if vs@.len() != 0 {
                assert(vs@.contains(vs@[0]));
            }
        }
        vs.len() != 0
    }
}

/// The vertices below `upto` with valency between `min` and `max`, in increasing order.
pub open spec fn vertices_with_valency(g: &Graph, min: nat, max: nat, upto: int) -> Seq<u8>
    decreases upto,
{
    if upto <= 0 {
        Seq::empty()
    } else {
        let rest = vertices_with_valency(g, min, max, upto - 1);
        if min <= g.valency(upto - 1) <= max {
            rest.push((upto - 1) as u8)
        } else {
            rest
        }
    }
}

/// The list of vertices with a valency in range holds exactly those vertices,
/// in increasing order.
pub proof fn lemma_vertices_with_valency(g: &Graph, min: nat, max: nat, upto: int)
    requires
        0 <= upto <= 256,
    ensures
        forall|v: u8| #[trigger]
            vertices_with_valency(g, min, max, upto).contains(v) <==> (v < upto && min
                <= g.valency(v as int) <= max),
        forall|a: int, b: int|
            0 <= a < b < vertices_with_valency(g, min, max, upto).len() ==> #[trigger] vertices_with_valency(
                g,
                min,
                max,
                upto,
            )[a] < #[trigger] vertices_with_valency(g, min, max, upto)[b],
        vertices_with_valency(g, min, max, upto).len() <= upto,
    decreases upto,
{
    if upto > 0 {
        lemma_vertices_with_valency(g, min, max, upto - 1);
        let rest = vertices_with_valency(g, min, max, upto - 1);
        if min <= g.valency(upto - 1) <= max {
            let s = rest.push((upto - 1) as u8);
            assert forall|v: u8| #[trigger] s.contains(v) <==> (v < upto && min <= g.valency(
                v as int,
            ) <= max) by {
                if s.contains(v) && v != (upto - 1) as u8 {
                    let k = choose|k: int| 0 <= k < s.len() && s[k] == v;
                    assert(rest[k] == v);
                    assert(rest.contains(v));
                }
                if v == (upto - 1) as u8 {
                    assert(s[rest.len() as int] == v);
                }
                if v < upto && v != upto - 1 && min <= g.valency(v as int) <= max {
                    assert(rest.contains(v));
                    let k = choose|k: int| 0 <= k < rest.len() && rest[k] == v;
                    assert(s[k] == v);
                }
            }
            assert forall|a: int, b: int| 0 <= a < b < s.len() implies #[trigger] s[a] < #[trigger] s[b] by {
                if b == rest.len() {
                    assert(rest.contains(rest[a]));
                }
            }
        }
    }
}

/// The adjacency rows of the edges `es` on `n` vertices.
pub(crate) fn adjacency(n: u8, es: &Vec<(u8, u8)>) -> (adj: Vec<u64>)
    requires
        n <= 64,
        edges_within(es@, n as int),
    ensures
        adj@.len() == n,
        forall|u: int, v: int|
            0 <= u < n ==> (#[trigger] bit(adj@[u], v) <==> adjacent_in(es@, u, v)),
{
    let mut adj: Vec<u64> = vec![0u64; n as usize];
    let mut k: usize = 0;
    proof {
        lemma_bits_all();
    }
    while k < es.len()
        invariant
            n <= 64,
            k <= es@.len(),
            edges_within(es@, n as int),
            adj@.len() == n,
            forall|u: int, v: int|
                0 <= u < n ==> (#[trigger] bit(adj@[u], v) <==> adjacent_in(es@.take(k as int), u, v)),
        decreases es@.len() - k,
    {
        let (u, v) = es[k];
        let ghost old_adj = adj@;
        let a = adj[u as usize] | (1u64 << v);
        adj.set(u as usize, a);
        let b = adj[v as usize] | (1u64 << u);
        adj.set(v as usize, b);
        proof {
            lemma_bits_all();
            let prev = GraphView { n: n as nat, edges: es@.take(k as int) };
            let next = GraphView { n: n as nat, edges: es@.take(k as int + 1) };
            assert forall|x: int, y: int| 0 <= x < n implies (#[trigger] bit(adj@[x], y)
                <==> next.adjacent(x, y)) by {
                assert forall|j: int| 0 <= j < k implies #[trigger] next.edges[j] == prev.edges[j] by {}
                assert(next.edges[k as int] == (u, v));
                if prev.adjacent(x, y) {
                    let j = choose|j: int| 0 <= j < prev.edges.len() && #[trigger] edge_joins(prev.edges[j], x, y);
                    assert(edge_joins(next.edges[j], x, y));
                }
                if next.adjacent(x, y) {
                    let j = choose|j: int| 0 <= j < next.edges.len() && #[trigger] edge_joins(next.edges[j], x, y);
                    if j < k {
                        assert(edge_joins(prev.edges[j], x, y));
                    }
                }
                if edge_joins(next.edges[k as int], x, y) {
                    assert(next.adjacent(x, y));
                }
            }
        }
        k = k + 1;
    }
    assert(es@.take(es@.len() as int) =~= es@);
    adj
}


/// The new number of a vertex `w` once vertex `v` is removed.
pub open spec fn dec_vertex(w: int, v: int) -> int {
    if w < v {
        w
    } else {
        w - 1
    }
}

/// The old number of a vertex `w` of the graph with vertex `v` removed.
pub open spec fn inc_vertex(w: int, v: int) -> int {
    if w < v {
        w
    } else {
        w + 1
    }
}

/// The edges that avoid `v`, renumbered.
pub open spec fn removed_edges(edges: Seq<(u8, u8)>, v: int) -> Seq<(u8, u8)>
    decreases edges.len(),
{
    if edges.len() == 0 {
        Seq::empty()
    } else {
        let rest = removed_edges(edges.drop_last(), v);
        let e = edges.last();
        if e.0 != v && e.1 != v {
            rest.push((dec_vertex(e.0 as int, v) as u8, dec_vertex(e.1 as int, v) as u8))
        } else {
            rest
        }
    }
}

impl GraphView {
    /// The graph with vertex `v` and its edges removed, the later vertices renumbered.
    pub open spec fn remove_vertex(self, v: int) -> GraphView {
        GraphView { n: (self.n - 1) as nat, edges: removed_edges(self.edges, v) }
    }
}

pub proof fn lemma_adjacent_push(s: Seq<(u8, u8)>, e: (u8, u8), a: int, b: int)
    ensures
        adjacent_in(s.push(e), a, b) <==> (adjacent_in(s, 
            a,
            b,
        ) || edge_joins(e, a, b)),
{
    let g1 = GraphView { n: 0, edges: s.push(e) };
    let g0 = GraphView { n: 0, edges: s };
    if g0.adjacent(a, b) {
        let k = choose|k: int| 0 <= k < s.len() && #[trigger] edge_joins(s[k], a, b);
        assert(edge_joins(g1.edges[k], a, b));
    }
    if edge_joins(e, a, b) {
        assert(edge_joins(g1.edges[s.len() as int], a, b));
    }
    if g1.adjacent(a, b) {
        let k = choose|k: int| 0 <= k < g1.edges.len() && #[trigger] edge_joins(g1.edges[k], a, b);
        if k < s.len() {
            assert(edge_joins(g0.edges[k], a, b));
        }
    }
}

/// Adjacency depends on the edge list only.
pub proof fn lemma_adjacent_edges(g: GraphView, h: GraphView, a: int, b: int)
    requires
        g.edges == h.edges,
    ensures
        g.adjacent(a, b) == h.adjacent(a, b),
{
}

/// After removing `v`, two other vertices are adjacent exactly when they were before.
pub proof fn lemma_removed_adjacent(edges: Seq<(u8, u8)>, v: int, x: int, y: int)
    requires
        x != v,
        y != v,
        0 <= x < 256,
        0 <= y < 256,
        0 <= v < 256,
        forall|k: int| 0 <= k < edges.len() ==> #[trigger] edges[k].0 < 256 && edges[k].1 < 256,
    ensures
        adjacent_in(removed_edges(edges, v), dec_vertex(x, v), dec_vertex(y, v))
            <==> adjacent_in(edges, x, y),
    decreases edges.len(),
{
    if edges.len() == 0 {
    } else {
        let e = edges.last();
        lemma_removed_adjacent(edges.drop_last(), v, x, y);
        lemma_adjacent_push(edges.drop_last(), e, x, y);
        assert(edges.drop_last().push(e) =~= edges);
        let rest = removed_edges(edges.drop_last(), v);
        if e.0 != v && e.1 != v {
            let e2 = (dec_vertex(e.0 as int, v) as u8, dec_vertex(e.1 as int, v) as u8);
            lemma_adjacent_push(rest, e2, dec_vertex(x, v), dec_vertex(y, v));
        }
    }
}

/// Removing a vertex: bit `j` of the new row is bit `j` of the old one below `v`,
/// and bit `j + 1` from `v` on.
proof fn lemma_squeeze_bit(a: u64, v: u64, j: u64)
    requires
        v < 64,
        j < 64,
    ensures
        (1u64 << v) >= 1,
        (((a & ((1u64 << v) - 1) as u64) | ((a >> 1u64) & !(((1u64 << v) - 1) as u64))) >> j) & 1u64
            == 1u64 <==> (if j < v {
            (a >> j) & 1u64 == 1u64
        } else {
            j < 63 && (a >> ((j + 1) as u64)) & 1u64 == 1u64
        }),
{
    assert(v < 64 ==> (1u64 << v) >= 1) by (bit_vector);
    assert(v < 64 && j < 64 ==> ((((a & ((1u64 << v) - 1) as u64) | ((a >> 1u64) & !(((1u64 << v)
        - 1) as u64))) >> j) & 1u64 == 1u64 <==> (if j < v {
        (a >> j) & 1u64 == 1u64
    } else {
        j < 63 && (a >> ((j + 1) as u64)) & 1u64 == 1u64
    }))) by (bit_vector);
}

/// The row `a` with position `v` squeezed out.
pub open spec fn squeeze(a: u64, v: u64) -> u64 {
    (a & ((1u64 << v) - 1) as u64) | ((a >> 1u64) & !(((1u64 << v) - 1) as u64))
}

impl Graph {
    /// Removes the given vertex, renumbering the later ones.
    pub fn remove_vertex(&self, v: u8) -> (g: Graph)
        requires
            self.wf(),
            v < self.num_vertices,
        ensures
            g.wf(),
            g@ == self@.remove_vertex(v as int),
    {
        let n = self.num_vertices;
        let mut edges: Vec<(u8, u8)> = Vec::new();
        let mut k: usize = 0;
        while k < self.edges.len()
            invariant
                self.wf(),
                v < n,
                n == self.num_vertices,
                k <= self.edges@.len(),
                edges@ == removed_edges(self.edges@.take(k as int), v as int),
            decreases self.edges@.len() - k,
        {
            let (a, b) = self.edges[k];
            assert(self.edges@.take(k as int + 1).drop_last() =~= self.edges@.take(k as int));
            if a != v && b != v {
                let a2 = if a < v { a } else { a - 1 };
                let b2 = if b < v { b } else { b - 1 };
                edges.push((a2, b2));
            }
            k = k + 1;
        }
        assert(self.edges@.take(self.edges@.len() as int) =~= self.edges@);
        proof {
            lemma_squeeze_bit(0, v as u64, 0);
        }
        let mask: u64 = (1u64 << v) - 1;
        let mut adj: Vec<u64> = Vec::new();
        let mut u: u8 = 0;
        while u < n
            invariant
                self.wf(),
                v < n,
                n == self.num_vertices,
                u <= n,
                mask == ((1u64 << v) - 1) as u64,
                adj@.len() == (if u <= v { u as int } else { u - 1 }),
                forall|w: int| 0 <= w < adj@.len() ==> #[trigger] adj@[w] == squeeze(self.adj@[inc_vertex(w, v as int)], v as u64),
            decreases n - u,
        {
            if u != v {
                let a = self.adj[u as usize];
                adj.push((a & mask) | ((a >> 1) & !mask));
            }
            u = u + 1;
        }
        let g = Graph { num_vertices: n - 1, edges, adj };
        proof {
            let old_g = self@;
            let new_g = g@;
            assert forall|k: int| 0 <= k < self.edges@.len() implies #[trigger] self.edges@[k].0 < 256 && self.edges@[k].1 < 256 by {}
            lemma_removed_edges_within(self.edges@, v as int, n as int);
            assert forall|x: int, j: int| 0 <= x < n - 1 implies (#[trigger] bit(g.adj@[x], j) <==> new_g.adjacent(x, j)) by {
                let ox = inc_vertex(x, v as int);
                if 0 <= j < 64 {
                    lemma_squeeze_bit(self.adj@[ox], v as u64, j as u64);
                    let oj = inc_vertex(j, v as int);
                    assert(bit(g.adj@[x], j) <==> bit(self.adj@[ox], oj));
                    assert(bit(self.adj@[ox], oj) <==> old_g.adjacent(ox, oj));
                    lemma_removed_adjacent(self.edges@, v as int, ox, oj);
                    lemma_adjacent_edges(new_g, GraphView { n: 0, edges: removed_edges(self.edges@, v as int) }, x, j);
                    lemma_adjacent_edges(old_g, GraphView { n: 0, edges: self.edges@ }, ox, oj);
                    assert(dec_vertex(ox, v as int) == x);
                    assert(dec_vertex(oj, v as int) == j);
                } else {
                    if new_g.adjacent(x, j) {
                        let k = choose|k: int| 0 <= k < new_g.edges.len() && #[trigger] edge_joins(new_g.edges[k], x, j);
                        assert(edge_joins(new_g.edges[k], x, j));
                    }
                }
            }
        }
        g
    }
}

/// The renumbered edges stay below the new number of vertices.
proof fn lemma_removed_edges_within(edges: Seq<(u8, u8)>, v: int, n: int)
    requires
        edges_within(edges, n),
        0 <= v < n,
        n <= 256,
    ensures
        edges_within(removed_edges(edges, v), n - 1),
    decreases edges.len(),
{
    if edges.len() > 0 {
        lemma_removed_edges_within(edges.drop_last(), v, n);
        assert(edges_within(edges.drop_last(), n)) by {
            assert forall|k: int| 0 <= k < edges.drop_last().len() implies #[trigger] edges.drop_last()[k].0 < n
                && edges.drop_last()[k].1 < n by {
                assert(edges.drop_last()[k] == edges[k]);
            }
        }
        let e = edges.last();
        assert(e == edges[edges.len() - 1]);
        let rest = removed_edges(edges.drop_last(), v);
        if e.0 != v && e.1 != v {
            let r = rest.push((dec_vertex(e.0 as int, v) as u8, dec_vertex(e.1 as int, v) as u8));
            assert forall|k: int| 0 <= k < r.len() implies #[trigger] r[k].0 < n - 1 && r[k].1 < n - 1 by {
                if k < rest.len() {
                    assert(r[k] == rest[k]);
                }
            }
        }
    }
}


/// The edges of the bipartite form: the `i`-th edge `(a, b)` becomes a vertex `n + i`
/// joined to `a` and to `b` (once, for a loop).
pub open spec fn bipartite_edges(edges: Seq<(u8, u8)>, n: int) -> Seq<(u8, u8)>
    decreases edges.len(),
{
    if edges.len() == 0 {
        Seq::empty()
    } else {
        let rest = bipartite_edges(edges.drop_last(), n);
        let e = edges.last();
        let x = (n + edges.len() - 1) as u8;
        if e.1 != e.0 {
            rest.push((e.0, x)).push((e.1, x))
        } else {
            rest.push((e.0, x))
        }
    }
}

proof fn lemma_bipartite_edges_within(edges: Seq<(u8, u8)>, n: int)
    requires
        edges_within(edges, n),
        n + edges.len() <= 64,
    ensures
        edges_within(bipartite_edges(edges, n), n + edges.len()),
    decreases edges.len(),
{
    if edges.len() > 0 {
        assert(edges_within(edges.drop_last(), n)) by {
            assert forall|k: int| 0 <= k < edges.drop_last().len() implies #[trigger] edges.drop_last()[k].0 < n
                && edges.drop_last()[k].1 < n by {
                assert(edges.drop_last()[k] == edges[k]);
            }
        }
        lemma_bipartite_edges_within(edges.drop_last(), n);
        let rest = bipartite_edges(edges.drop_last(), n);
        let e = edges.last();
        assert(e == edges[edges.len() - 1]);
        let r = bipartite_edges(edges, n);
        assert forall|k: int| 0 <= k < r.len() implies #[trigger] r[k].0 < n + edges.len() && r[k].1 < n + edges.len() by {
            if k < rest.len() {
                if e.1 != e.0 {
                    assert(r[k] == rest[k]);
                } else {
                    assert(r[k] == rest[k]);
                }
            }
        }
    }
}

/// In the bipartite list of edges, the vertex that stands for edge `k` is
/// joined to exactly the ends of that edge.
proof fn lemma_bipartite_neighbours(edges: Seq<(u8, u8)>, n: int, k: int, w: int)
    requires
        edges_within(edges, n),
        0 <= n,
        n + edges.len() <= 64,
        0 <= k < edges.len(),
    ensures
        adjacent_in(bipartite_edges(edges, n), n + k, w) <==> (w == edges[k].0 || w == edges[k].1),
    decreases edges.len(),
{
    let e = edges.len() as int;
    let init = edges.drop_last();
    assert(edges_within(init, n)) by {
        assert forall|j: int| 0 <= j < init.len() implies #[trigger] init[j].0 < n && init[j].1 < n by {
            assert(init[j] == edges[j]);
        }
    }
    let rest = bipartite_edges(init, n);
    let last = edges.last();
    assert(last == edges[e - 1]);
    let x = (n + e - 1) as u8;
    assert(x as int == n + e - 1);
    let bip = bipartite_edges(edges, n);
    let a = (last.0, x);
    let b = (last.1, x);
    if last.1 != last.0 {
        assert(bip == rest.push(a).push(b));
        lemma_adjacent_push(rest.push(a), b, n + k, w);
        lemma_adjacent_push(rest, a, n + k, w);
    } else {
        assert(bip == rest.push(a));
        lemma_adjacent_push(rest, a, n + k, w);
    }
    if k < e - 1 {
        lemma_bipartite_neighbours(init, n, k, w);
        assert(init[k] == edges[k]);
    } else {
        lemma_bipartite_edges_within(init, n);
        if adjacent_in(rest, n + k, w) {
            let j = choose|j: int| 0 <= j < rest.len() && #[trigger] edge_joins(rest[j], n + k, w);
            assert(rest[j].0 < n + e - 1 && rest[j].1 < n + e - 1);
        }
    }
}

/// In the bipartite form of a graph, the vertex that stands for edge `k` has
/// the ends of that edge as its neighbours and no others; so a loop becomes
/// a vertex with a single neighbour, which `contains_loop` finds.
pub proof fn lemma_bipartite_edge_vertex(g: Graph, b: Graph, k: int)
    requires
        g.wf(),
        g.num_vertices + g.edges@.len() <= 64,
        b.built_from((g.num_vertices + g.edges@.len()) as nat, bipartite_edges(g.edges@, g.num_vertices as int)),
        0 <= k < g.edges@.len(),
    ensures
        forall|w: int| #[trigger] b@.adjacent(g.num_vertices + k, w) <==> (w == g.edges@[k].0 || w == g.edges@[k].1),
        g.edges@[k].0 == g.edges@[k].1 ==> b.valency(g.num_vertices + k) == 1,
{
    let n = g.num_vertices as int;
    let bip = bipartite_edges(g.edges@, n);
    assert forall|w: int| #[trigger] b@.adjacent(n + k, w) <==> (w == g.edges@[k].0 || w == g.edges@[k].1) by {
        lemma_bipartite_neighbours(g.edges@, n, k, w);
        crate::canon::lemma_same_edges_adjacent(b.edges@, normalized(bip), n + k, w);
        lemma_normalized_adjacent(bip, n + k, w);
    }
    if g.edges@[k].0 == g.edges@[k].1 {
        let v = g.edges@[k].0 as int;
        let x = n + k;
        let m = b.adj@[x];
        lemma_bits_seq(m);
        assert(mask_set(m) =~= set![v]) by {
            assert forall|i: int| mask_set(m).contains(i) <==> set![v].contains(i) by {
                assert(bit(m, i) <==> b@.adjacent(x, i));
            }
        }
        bits_seq(m).unique_seq_to_set();
        assert(set![v].len() == 1);
    }
}

/// Writing each edge with its smaller end first keeps which pairs are joined.
proof fn lemma_normalized_adjacent(s: Seq<(u8, u8)>, a: int, b: int)
    ensures
        adjacent_in(normalized(s), a, b) <==> adjacent_in(s, a, b),
{
    if adjacent_in(s, a, b) {
        let k = choose|k: int| 0 <= k < s.len() && #[trigger] edge_joins(s[k], a, b);
        assert(edge_joins(normalized(s)[k], a, b));
    }
    if adjacent_in(normalized(s), a, b) {
        let k = choose|k: int| 0 <= k < normalized(s).len() && #[trigger] edge_joins(normalized(s)[k], a, b);
        assert(edge_joins(s[k], a, b));
    }
}

impl Graph {
    /// Returns the given graph in the form of a bipartite graph, where the vertices
    /// after the original ones stand for the edges, in order.
    pub fn to_bipartite(&self) -> (g: Graph)
        requires
            self.wf(),
            self.num_vertices + self.edges@.len() <= 64,
        ensures
            g.built_from(
                (self.num_vertices + self.edges@.len()) as nat,
                bipartite_edges(self.edges@, self.num_vertices as int),
            ),
    {
        let n = self.num_vertices;
        let mut i: u8 = 0;
        let mut edges: Vec<(u8, u8)> = Vec::new();
        let mut k: usize = 0;
        while k < self.edges.len()
            invariant
                self.wf(),
                n == self.num_vertices,
                n + self.edges@.len() <= 64,
                k <= self.edges@.len(),
                i == k,
                edges@ == bipartite_edges(self.edges@.take(k as int), n as int),
            decreases self.edges@.len() - k,
        {
            let (v1, v2) = self.edges[k];
            assert(self.edges@.take(k as int + 1).drop_last() =~= self.edges@.take(k as int));
            edges.push((v1, n + i));
            if v2 != v1 {
                edges.push((v2, n + i));
            }
            i = i + 1;
            k = k + 1;
        }
        assert(self.edges@.take(self.edges@.len() as int) =~= self.edges@);
        proof {
            lemma_bipartite_edges_within(self.edges@, n as int);
        }
        Graph::new(n + i, edges)
    }

    /// Add a new vertex with a single edge, to `v`.
    pub fn add_unary_vertex(&mut self, v: u8)
        requires
            old(self).wf(),
            v < old(self).num_vertices,
            old(self).num_vertices < 64,
        ensures
            final(self).wf(),
            final(self)@ == (GraphView {
                n: (old(self).num_vertices + 1) as nat,
                edges: old(self).edges@.push((v, old(self).num_vertices)),
            }),
    {
        let ghost old_g = *self;
        let new = self.num_vertices;
        self.num_vertices = self.num_vertices + 1;
        self.edges.push((v, new));
        let a = self.adj[v as usize] | (1u64 << new);
        self.adj.set(v as usize, a);
        self.adj.push(1u64 << v);
        proof {
            lemma_bits_all();
            assert forall|k: int| 0 <= k < self.edges@.len() implies #[trigger] self.edges@[k].0 < self.num_vertices
                && self.edges@[k].1 < self.num_vertices by {
                if k < old_g.edges@.len() {
                    assert(self.edges@[k] == old_g.edges@[k]);
                }
            }
            assert forall|u: int, j: int| 0 <= u < self.num_vertices implies (#[trigger] bit(self.adj@[u], j)
                <==> self@.adjacent(u, j)) by {
                lemma_adjacent_push(old_g.edges@, (v, new), u, j);
                if u < new {
                    assert(old_g@.adjacent(u, j) <==> bit(old_g.adj@[u], j));
                } else {
                    assert(!old_g@.adjacent(u, j)) by {
                        if old_g@.adjacent(u, j) {
                            let k = choose|k: int| 0 <= k < old_g.edges@.len() && #[trigger] edge_joins(old_g.edges@[k], u, j);
                            assert(old_g.edges@[k].0 < new && old_g.edges@[k].1 < new);
                        }
                    }
                }
            }
        }
    }
}

} // verus!
