//! What an isomorphism keeps: valencies, and with them the shape of the
//! bipartite form.
use vstd::prelude::*;
use crate::bits::{bit, bits_seq, lemma_bits_seq, mask_set, popcount};
use crate::canon::maps_onto;
use crate::graph::Graph;
use crate::multi::{
    lemma_row_within, pair_rows, rank_below, simplify_fits, simplify_perm, stays_vertex, two_ends,
};
use crate::perm::{compose_spec, identity, inverse_entry, is_perm, lemma_inverse_of_perm};

verus! {

/// The number of positions of a mask is the size of its set of positions.
pub proof fn lemma_popcount_set(m: u64)
    ensures
        mask_set(m).finite(),
        popcount(m) == mask_set(m).len(),
{
    lemma_bits_seq(m);
    bits_seq(m).unique_seq_to_set();
}

/// An isomorphism keeps the valency of every vertex.
pub proof fn lemma_valency_kept(g: &Graph, p: Seq<u8>, h: &Graph, v: int)
    requires
        g.wf(),
        h.wf(),
        maps_onto(g@, p, h@),
        0 <= v < g.num_vertices,
    ensures
        popcount(h.adj@[p[v] as int]) == popcount(g.adj@[v]),
{
    let n = g.num_vertices as int;
    let pv = p[v] as int;
    lemma_inverse_of_perm(p);
    let inv = Seq::new(p.len(), |j: int| inverse_entry(p, j));
    let f = |w: int| p[w] as int;
    let src = mask_set(g.adj@[v]);
    let dst = mask_set(h.adj@[pv]);
    lemma_popcount_set(g.adj@[v]);
    lemma_popcount_set(h.adj@[pv]);
    assert forall|x: int| dst.contains(x) <==> src.map(f).contains(x) by {
        if dst.contains(x) {
            assert(bit(h.adj@[pv], x));
            lemma_row_within(h, pv, x);
            let w = inv[x] as int;
            assert(compose_spec(inv, p)[x] == identity(p.len())[x]);
            assert(p[w] == x);
            assert(h@.adjacent(pv, x));
            assert(g@.adjacent(v, w));
            assert(bit(g.adj@[v], w));
            assert(src.contains(w) && f(w) == x);
        }
        if src.map(f).contains(x) {
            let w = choose|w: int| src.contains(w) && f(w) == x;
            assert(bit(g.adj@[v], w));
            lemma_row_within(g, v, w);
            assert(g@.adjacent(v, w));
            assert(h@.adjacent(pv, x));
        }
    }
    assert(dst =~= src.map(f));
    assert forall|a: int, b: int| src.contains(a) && src.contains(b) && f(a) == f(b) implies a == b by {
        lemma_row_within(g, v, a);
        lemma_row_within(g, v, b);
    }
    vstd::set_lib::lemma_map_size(src, dst, f);
}

/// In the bipartite form, no vertex of valency 2 has a neighbour of valency 2.
pub open spec fn ends_stay(g: &Graph) -> bool {
    forall|x: int, y: int| 0 <= x < g.num_vertices && popcount(g.adj@[x]) == 2 && #[trigger] bit(g.adj@[x], y)
        ==> popcount(g.adj@[y]) != 2
}

/// Some vertex has a valency other than 2.
pub open spec fn has_staying_vertex(g: &Graph) -> bool {
    exists|x: int| 0 <= x < g.num_vertices && #[trigger] popcount(g.adj@[x]) != 2
}

impl Graph {
    /// Whether the graph has the shape of a bipartite form: every neighbour of
    /// a valency-2 vertex has another valency, and some vertex does not have
    /// valency 2.
    pub fn is_bipartite_form(&self) -> (r: bool)
        requires
            self.wf(),
        ensures
            r == (ends_stay(self) && has_staying_vertex(self)),
    {
        let n = self.num_vertices as usize;
        let mut staying = false;
        let mut x: usize = 0;
        while x < n
            invariant
                self.wf(),
                n == self.num_vertices,
                x <= n,
                staying == exists|z: int| 0 <= z < x && #[trigger] popcount(self.adj@[z]) != 2,
                forall|z: int, y: int| 0 <= z < x && popcount(self.adj@[z]) == 2 && #[trigger] bit(self.adj@[z], y)
                    ==> popcount(self.adj@[y]) != 2,
            decreases n - x,
        {
            let a = self.adj[x];
            if crate::bits::count_ones(a) == 2 {
                let ys = crate::bits::bit_positions(a);
                proof {
                    lemma_bits_seq(a);
                }
                let mut t: usize = 0;
                while t < ys.len()
                    invariant
                        self.wf(),
                        n == self.num_vertices,
                        x < n,
                        a == self.adj@[x as int],
                        popcount(a) == 2,
                        ys@.len() == bits_seq(a).len(),
                        forall|k: int| 0 <= k < ys@.len() ==> #[trigger] ys@[k] as int == bits_seq(a)[k],
                        forall|y: int| #[trigger] bit(a, y) <==> bits_seq(a).contains(y),
                        t <= ys@.len(),
                        forall|k: int| 0 <= k < t ==> popcount(self.adj@[#[trigger] bits_seq(a)[k]]) != 2,
                    decreases ys@.len() - t,
                {
                    let y = ys[t];
                    proof {
                        assert(bits_seq(a).contains(y as int));
                        assert(bit(a, y as int));
                        assert(self@.adjacent(x as int, y as int));
                        let k = choose|k: int| 0 <= k < self.edges@.len() && #[trigger] crate::graph::edge_joins(self.edges@[k], x as int, y as int);
                        assert(self.edges@[k].0 < n && self.edges@[k].1 < n);
                    }
                    if crate::bits::count_ones(self.adj[y]) == 2 {
                        proof {
                            assert(popcount(self.adj@[x as int]) == 2 && bit(self.adj@[x as int], y as int));
                        }
                        return false;
                    }
                    t = t + 1;
                }
                proof {
                    assert forall|y: int| #[trigger] bit(self.adj@[x as int], y) implies popcount(self.adj@[y]) != 2 by {
                        assert(bits_seq(a).contains(y));
                        let k = choose|k: int| 0 <= k < bits_seq(a).len() && bits_seq(a)[k] == y;
                    }
                }
            } else {
                staying = true;
            }
            x = x + 1;
        }
        staying
    }
}

/// An isomorphism keeps both shapes.
pub proof fn lemma_shape_kept(g: &Graph, p: Seq<u8>, h: &Graph)
    requires
        g.wf(),
        h.wf(),
        maps_onto(g@, p, h@),
    ensures
        ends_stay(g) ==> ends_stay(h),
        has_staying_vertex(g) ==> has_staying_vertex(h),
{
    lemma_inverse_of_perm(p);
    let inv = Seq::new(p.len(), |j: int| inverse_entry(p, j));
    if ends_stay(g) {
        assert forall|x: int, y: int| 0 <= x < h.num_vertices && popcount(h.adj@[x]) == 2 && #[trigger] bit(h.adj@[x], y)
            implies popcount(h.adj@[y]) != 2 by {
            lemma_row_within(h, x, y);
            let a = inv[x] as int;
            let b = inv[y] as int;
            assert(compose_spec(inv, p)[x] == identity(p.len())[x]);
            assert(compose_spec(inv, p)[y] == identity(p.len())[y]);
            lemma_valency_kept(g, p, h, a);
            lemma_valency_kept(g, p, h, b);
            assert(h@.adjacent(x, y));
            assert(g@.adjacent(a, b));
            assert(bit(g.adj@[a], b));
        }
    }
    if has_staying_vertex(g) {
        let x = choose|x: int| 0 <= x < g.num_vertices && #[trigger] popcount(g.adj@[x]) != 2;
        lemma_valency_kept(g, p, h, x);
        assert(popcount(h.adj@[p[x] as int]) != 2);
    }
}

/// The number of staying vertices grows by one past each staying vertex.
pub proof fn lemma_rank_below(adj: Seq<u64>, x: int, k: int)
    requires
        0 <= x < k,
        stays_vertex(adj, x),
    ensures
        rank_below(adj, x) < rank_below(adj, k),
    decreases k - x,
{
    if x + 1 < k {
        lemma_rank_below(adj, x, k - 1);
    }
}

/// A staying vertex exists exactly when the count of staying vertices is positive.
pub proof fn lemma_rank_positive(adj: Seq<u64>, x: int, k: int)
    requires
        0 <= x < k,
        popcount(adj[x]) != 2,
    ensures
        rank_below(adj, k) >= 1,
{
    lemma_rank_below(adj, x, k);
}

/// Each key of the pair map comes from its first row: a vertex of valency 2
/// whose two ends are the key.
pub proof fn lemma_pair_rows_keys(adj: Seq<u64>, k: int, key: (u8, u8))
    requires
        0 <= k <= adj.len(),
        adj.len() <= 256,
        pair_rows(adj, k).contains_key(key),
    ensures
        0 <= pair_rows(adj, k)[key].0 < k,
        popcount(adj[pair_rows(adj, k)[key].0 as int]) == 2,
        two_ends(adj[pair_rows(adj, k)[key].0 as int]) == key,
    decreases k,
{
    if k > 0 {
        let m = pair_rows(adj, k - 1);
        let a = adj[k - 1];
        if popcount(a) == 2 && two_ends(a) == key {
            if m.contains_key(key) {
                lemma_pair_rows_keys(adj, k - 1, key);
            }
        } else {
            lemma_pair_rows_keys(adj, k - 1, key);
        }
    }
}

/// When the ends of the vertices of valency 2 stay, the simplified edges fit.
pub proof fn lemma_ends_stay_fits(g: &Graph, retain: bool)
    requires
        g.wf(),
        ends_stay(g),
    ensures
        simplify_fits(g.adj@, retain),
{
    let adj = g.adj@;
    let n = adj.len() as int;
    let m = pair_rows(adj, n);
    assert forall|key: (u8, u8)| #[trigger] m.contains_key(key) && (retain || m[key].1 == 1) implies
        simplify_perm(adj, key.0 as int) < rank_below(adj, n) && simplify_perm(adj, key.1 as int) < rank_below(adj, n) by {
        lemma_pair_rows_keys(adj, n, key);
        let r = m[key].0 as int;
        let a = adj[r];
        lemma_bits_seq(a);
        let e0 = bits_seq(a)[0];
        let e1 = bits_seq(a)[1];
        assert(bit(a, e0) && bit(a, e1));
        lemma_row_within(g, r, e0);
        lemma_row_within(g, r, e1);
        assert(popcount(adj[e0]) != 2);
        assert(popcount(adj[e1]) != 2);
        lemma_rank_below(adj, e0, n);
        lemma_rank_below(adj, e1, n);
        lemma_rank_bound(adj, n);
    }
}

/// There are at most `k` staying vertices below `k`.
pub proof fn lemma_rank_bound(adj: Seq<u64>, k: int)
    requires
        k >= 0,
    ensures
        rank_below(adj, k) <= k,
    decreases k,
{
    if k > 0 {
        lemma_rank_bound(adj, k - 1);
    }
}

} // verus!
