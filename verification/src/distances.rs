//! Distance histograms: how many vertices lie at each distance from a vertex.
use vstd::prelude::*;
use vstd::arithmetic::power::pow;
use crate::bits::{
    bit, bit_positions, bits_seq, count_ones, lemma_bits_all, lemma_bits_ext, lemma_bits_seq,
    mask_set, popcount,
};
use crate::graph::{Graph, GraphView, adjacent_in, edge_joins};

verus! {

/// The breadth-first layers from `v`: the vertices first met at step `k`, and all
/// vertices met up to step `k` (those at distance exactly `k`, and at most `k`).
pub open spec fn bfs(g: GraphView, v: int, k: nat) -> (Set<int>, Set<int>)
    decreases k,
{
    if k == 0 {
        (set![v], set![v])
    } else {
        let (layer, ball) = bfs(g, v, (k - 1) as nat);
        let next = Set::new(
            |x: int|
                0 <= x < g.n && !ball.contains(x) && exists|y: int|
                    layer.contains(y) && #[trigger] g.adjacent(y, x),
        );
        (next, ball.union(next))
    }
}

/// The distance histogram of `v`: entry `i` is the number of vertices at distance `i`,
/// up to the last nonempty layer.
pub open spec fn is_histogram(g: GraphView, v: int, hist: Seq<usize>) -> bool {
    &&& forall|i: int| 0 <= i < hist.len() ==> #[trigger] hist[i] == bfs(g, v, i as nat).0.len() && hist[i] > 0
    &&& bfs(g, v, hist.len()).0.len() == 0
}

/// The number of positions of a mask is the size of its set of positions.
pub proof fn lemma_popcount_set(m: u64)
    ensures
        mask_set(m).finite(),
        popcount(m) == mask_set(m).len(),
        mask_set(m).subset_of(Set::new(|i: int| 0 <= i < 64)),
{
    lemma_bits_seq(m);
    bits_seq(m).unique_seq_to_set();
    assert(bits_seq(m).to_set() == mask_set(m));
}

proof fn lemma_not_seen_decreases(seen: u64, f: u64)
    requires
        f & seen == 0,
        f != 0,
    ensures
        !(seen | f) < !seen,
{
    assert(f & seen == 0 && f != 0 ==> !(seen | f) < !seen) by (bit_vector);
}

impl Graph {
    /// Returns a vector `res` such that `res[i]` is the number of vertices
    /// at graph distance exactly `i` from vertex `v`.
    pub fn distance_histogram(&self, v: u8) -> (res: Vec<usize>)
        requires
            self.wf(),
            v < self.num_vertices,
        ensures
            is_histogram(self@, v as int, res@),
            res@.len() <= self.num_vertices,
    {
        let ghost g = self@;
        let n = self.num_vertices as usize;
        let mut res: Vec<usize> = Vec::new();
        let mut seen: u64 = 0;
        let mut frontier: u64 = 1u64 << v;
        seen = seen | frontier;
        proof {
            lemma_bits_all();
            lemma_bits_ext(seen, frontier);
            lemma_bits_ext(frontier & !seen, 0);
            lemma_popcount_set(seen);
            assert(mask_set(seen) =~= set![v as int]);
            assert(mask_set(frontier) =~= bfs(g, v as int, 0).0);
            assert(mask_set(seen) =~= bfs(g, v as int, 0).1);
        }
        while frontier != 0
            invariant
                self.wf(),
                g == self@,
                v < n,
                n == self.num_vertices,
                mask_set(frontier) == bfs(g, v as int, res@.len()).0,
                mask_set(seen) == bfs(g, v as int, res@.len()).1,
                forall|x: int| #[trigger] bit(seen, x) ==> x < n,
                frontier & !seen == 0,
                res@.len() + popcount(frontier) <= popcount(seen),
                popcount(seen) <= n,
                forall|i: int| 0 <= i < res@.len() ==> #[trigger] res@[i] == bfs(g, v as int, i as nat).0.len() && res@[i] > 0,
            decreases !seen as int + (if frontier != 0 { 1int } else { 0int }),
        {
            let ghost k = res@.len();
            let c = count_ones(frontier);
            proof {
                lemma_popcount_set(frontier);
                assert(c > 0) by {
                    if c == 0 {
                        lemma_bits_seq(frontier);
                    }
                }
            }
            res.push(c as usize);
            let mut nbrs: u64 = 0;
            let us = bit_positions(frontier);
            let mut t: usize = 0;
            proof {
                lemma_bits_seq(frontier);
                lemma_bits_all();
            }
            while t < us.len()
                invariant
                    self.wf(),
                    g == self@,
                    n == self.num_vertices,
                    us@.len() == bits_seq(frontier).len(),
                    forall|j: int| 0 <= j < us@.len() ==> #[trigger] us@[j] as int == bits_seq(frontier)[j],
                    forall|x: int| bits_seq(frontier).contains(x) <==> #[trigger] bit(frontier, x),
                    forall|x: int| #[trigger] bit(seen, x) ==> x < n,
                    frontier & !seen == 0,
                    t <= us@.len(),
                    forall|x: int| #[trigger] bit(nbrs, x) <==> exists|j: int|
                        0 <= j < t && #[trigger] bit(self.adj@[bits_seq(frontier)[j]], x),
                decreases us@.len() - t,
            {
                let u = us[t];
                proof {
                    lemma_bits_all();
                    assert(bits_seq(frontier).contains(u as int));
                    assert(bit(frontier, u as int));
                    assert(bit(seen, u as int)) by {
                        lemma_bits_all();
                        if !bit(seen, u as int) {
                            assert(bit(frontier & !seen, u as int));
                        }
                    }
                }
                let ghost old_nbrs = nbrs;
                nbrs = nbrs | self.adj[u];
                proof {
                    lemma_bits_all();
                    assert forall|x: int| #[trigger] bit(nbrs, x) <==> exists|j: int|
                        0 <= j < t + 1 && #[trigger] bit(self.adj@[bits_seq(frontier)[j]], x) by {
                        if bit(nbrs, x) && !bit(old_nbrs, x) {
                            assert(bit(self.adj@[bits_seq(frontier)[t as int]], x));
                        }
                    }
                }
                t = t + 1;
            }
            let ghost old_seen = seen;
            let ghost old_frontier = frontier;
            frontier = nbrs & !seen;
            seen = seen | frontier;
            proof {
                lemma_bits_all();
                let (layer, ball) = bfs(g, v as int, k);
                let next = bfs(g, v as int, (k + 1) as nat).0;
                assert(bfs(g, v as int, (k + 1) as nat).1 == ball.union(next));
                assert forall|x: int| mask_set(frontier).contains(x) <==> next.contains(x) by {
                    if mask_set(frontier).contains(x) {
                        let j = choose|j: int| 0 <= j < t && #[trigger] bit(self.adj@[bits_seq(old_frontier)[j]], x);
                        let y = bits_seq(old_frontier)[j];
                        assert(bits_seq(old_frontier).contains(y));
                        assert(bit(old_frontier, y));
                        assert(layer.contains(y));
                        assert(y < n);
                        assert(g.adjacent(y, x));
                        let kk = choose|kk: int| 0 <= kk < g.edges.len() && #[trigger] edge_joins(g.edges[kk], y, x);
                        assert(x < n);
                        assert(!bit(old_seen, x));
                    }
                    if next.contains(x) {
                        let y = choose|y: int| layer.contains(y) && #[trigger] g.adjacent(y, x);
                        assert(bit(old_frontier, y));
                        assert(bits_seq(old_frontier).contains(y));
                        let j = choose|j: int| 0 <= j < bits_seq(old_frontier).len() && bits_seq(old_frontier)[j] == y;
                        assert(bit(self.adj@[bits_seq(old_frontier)[j]], x));
                        assert(bit(nbrs, x));
                        assert(!bit(old_seen, x));
                    }
                }
                assert(mask_set(frontier) =~= next);
                assert(mask_set(seen) =~= ball.union(next));
                assert forall|x: int| #[trigger] bit(seen, x) implies x < n by {
                    if bit(frontier, x) {
                        assert(next.contains(x));
                    }
                }
                // sizes
                lemma_popcount_set(frontier);
                lemma_popcount_set(old_seen);
                lemma_popcount_set(seen);
                assert(mask_set(old_seen).disjoint(mask_set(frontier)));
                vstd::set_lib::lemma_set_disjoint_lens(mask_set(old_seen), mask_set(frontier));
                assert(mask_set(seen) =~= mask_set(old_seen).union(mask_set(frontier)));
                let range = vstd::set_lib::set_int_range(0, n as int);
                vstd::set_lib::lemma_int_range(0, n as int);
                assert(mask_set(seen).subset_of(range));
                vstd::set_lib::lemma_len_subset(mask_set(seen), range);
                assert(frontier & !seen == 0) by {
                    lemma_bits_ext(frontier & !seen, 0);
                }
                if frontier == 0 {
                    lemma_bits_ext(seen, old_seen);
                } else {
                    assert(frontier & old_seen == 0) by {
                        lemma_bits_ext(frontier & old_seen, 0);
                    }
                    lemma_not_seen_decreases(old_seen, frontier);
                }
            }
        }
        proof {
            lemma_bits_all();
            assert(mask_set(frontier) =~= Set::<int>::empty());
        }
        res
    }
}


/// The distance histogram of `v`.
pub open spec fn histogram(g: GraphView, v: int) -> Seq<usize> {
    choose|h: Seq<usize>| is_histogram(g, v, h)
}

/// There is one histogram.
pub proof fn lemma_histogram_unique(g: GraphView, v: int, h1: Seq<usize>, h2: Seq<usize>)
    requires
        is_histogram(g, v, h1),
        is_histogram(g, v, h2),
    ensures
        h1 == h2,
{
    if h1.len() < h2.len() {
        assert(h2[h1.len() as int] > 0);
    }
    if h2.len() < h1.len() {
        assert(h1[h2.len() as int] > 0);
    }
    assert(h1 =~= h2);
}

/// The sum of the first `k` entries.
pub open spec fn prefix_total(h: Seq<usize>, k: int) -> int
    decreases k,
{
    if k <= 0 {
        0
    } else {
        prefix_total(h, k - 1) + h[k - 1]
    }
}

/// The sum of the last `j` entries.
pub open spec fn tail_total(h: Seq<usize>, j: int) -> int
    decreases j,
{
    if j <= 0 {
        0
    } else {
        tail_total(h, j - 1) + h[h.len() - j]
    }
}

/// The key of a histogram: entry `i` weighted by `n` to the power of the number of
/// entries after it.
pub open spec fn histogram_key(h: Seq<usize>, n: int, j: int) -> int
    decreases j,
{
    if j <= 0 {
        0
    } else {
        histogram_key(h, n, j - 1) + h[h.len() - j] * pow(n, (j - 1) as nat)
    }
}

proof fn lemma_tail_mono(h: Seq<usize>, i: int, j: int)
    requires
        0 <= i <= j <= h.len(),
    ensures
        tail_total(h, i) <= tail_total(h, j),
    decreases j - i,
{
    if i < j {
        lemma_tail_mono(h, i, j - 1);
    }
}

proof fn lemma_tail_prefix(h: Seq<usize>, j: int)
    requires
        0 <= j <= h.len(),
    ensures
        tail_total(h, j) == prefix_total(h, h.len() as int) - prefix_total(h, h.len() - j),
    decreases j,
{
    if j > 0 {
        lemma_tail_prefix(h, j - 1);
    }
}

/// The layers are disjoint sets of vertices, and the ball is their union.
proof fn lemma_bfs_sizes(g: GraphView, v: int, k: nat)
    requires
        0 <= v < g.n,
        forall|x: int, y: int| #[trigger] g.adjacent(x, y) ==> 0 <= y < g.n,
    ensures
        bfs(g, v, k).1.finite(),
        bfs(g, v, k).0.finite(),
        bfs(g, v, k).1.subset_of(vstd::set_lib::set_int_range(0, g.n as int)),
        bfs(g, v, k).0.subset_of(bfs(g, v, k).1),
    decreases k,
{
    if k > 0 {
        lemma_bfs_sizes(g, v, (k - 1) as nat);
        let (layer, ball) = bfs(g, v, (k - 1) as nat);
        let next = bfs(g, v, k).0;
        let range = vstd::set_lib::set_int_range(0, g.n as int);
        vstd::set_lib::lemma_int_range(0, g.n as int);
        assert(next.subset_of(range));
        vstd::set_lib::lemma_len_subset(next, range);
    } else {
        vstd::set_lib::lemma_int_range(0, g.n as int);
    }
}

/// The histogram counts each reachable vertex once: its entries add up to at most `n`.
proof fn lemma_histogram_total(g: GraphView, v: int, h: Seq<usize>, k: int)
    requires
        0 <= v < g.n,
        forall|x: int, y: int| #[trigger] g.adjacent(x, y) ==> 0 <= y < g.n,
        is_histogram(g, v, h),
        0 <= k < h.len(),
    ensures
        prefix_total(h, k + 1) == bfs(g, v, k as nat).1.len(),
        prefix_total(h, k + 1) <= g.n,
    decreases k,
{
    lemma_bfs_sizes(g, v, k as nat);
    vstd::set_lib::lemma_int_range(0, g.n as int);
    vstd::set_lib::lemma_len_subset(bfs(g, v, k as nat).1, vstd::set_lib::set_int_range(0, g.n as int));
    if k == 0 {
        assert(set![v] =~= Set::<int>::empty().insert(v));
        assert(bfs(g, v, 0).1.len() == 1);
        assert(bfs(g, v, 0).0.len() == 1);
        assert(h[0] == bfs(g, v, 0).0.len());
        assert(prefix_total(h, 1) == prefix_total(h, 0) + h[0]);
        assert(prefix_total(h, 1) == 1);
    } else {
        assert(h[k] == bfs(g, v, k as nat).0.len());
        lemma_histogram_total(g, v, h, k - 1);
        lemma_bfs_sizes(g, v, (k - 1) as nat);
        let (layer, ball) = bfs(g, v, (k - 1) as nat);
        let next = bfs(g, v, k as nat).0;
        assert(ball.disjoint(next));
        vstd::set_lib::lemma_set_disjoint_lens(ball, next);
        assert(bfs(g, v, k as nat).1 == ball.union(next));
        assert(prefix_total(h, k + 1) == prefix_total(h, k) + h[k]);
        assert(prefix_total(h, k) == ball.len());
    }
}

impl Graph {
    /// Whether the histogram keys can be computed without overflow: for each vertex,
    /// `n` to the power of the length of its histogram fits in a `u128`.
    pub open spec fn keys_fit(&self) -> bool {
        forall|v: int|
            0 <= v < self.num_vertices ==> pow(self.num_vertices as int, #[trigger] histogram(self@, v).len())
                <= u128::MAX
    }

    /// For each vertex, the key of its distance histogram.
    pub fn distance_histogram_keys(&self) -> (res: Vec<u128>)
        requires
            self.wf(),
            self.keys_fit(),
        ensures
            res@.len() == self.num_vertices,
            forall|v: int|
                0 <= v < self.num_vertices ==> #[trigger] res@[v] == histogram_key(
                    histogram(self@, v),
                    self.num_vertices as int,
                    histogram(self@, v).len() as int,
                ),
            forall|v: int| 0 <= v < self.num_vertices ==> is_histogram(self@, v, #[trigger] histogram(self@, v)),
    {
        let weight_factor = self.num_vertices as u128;
        let ghost n = self.num_vertices as int;
        let mut histograms: Vec<u128> = Vec::with_capacity(self.num_vertices as usize);
        let mut v: u8 = 0;
        proof {
            assert forall|x: int, y: int| #[trigger] self@.adjacent(x, y) implies 0 <= y < self@.n by {
                let k = choose|k: int| 0 <= k < self@.edges.len() && #[trigger] edge_joins(self@.edges[k], x, y);
                assert(self.edges@[k].0 < n && self.edges@[k].1 < n);
            }
        }
        while v < self.num_vertices
            invariant
                self.wf(),
                self.keys_fit(),
                weight_factor == n,
                n == self.num_vertices,
                forall|x: int, y: int| #[trigger] self@.adjacent(x, y) ==> 0 <= y < self@.n,
                v <= self.num_vertices,
                histograms@.len() == v,
                forall|w: int|
                    0 <= w < v ==> #[trigger] histograms@[w] == histogram_key(
                        histogram(self@, w),
                        n,
                        histogram(self@, w).len() as int,
                    ),
                forall|w: int| 0 <= w < v ==> is_histogram(self@, w, #[trigger] histogram(self@, w)),
            decreases self.num_vertices - v,
        {
            let hist = self.distance_histogram(v);
            let ghost h = hist@;
            proof {
                lemma_histogram_unique(self@, v as int, h, histogram(self@, v as int));
                assert(pow(n, h.len()) <= u128::MAX);
                if h.len() > 0 {
                    lemma_histogram_total(self@, v as int, h, h.len() - 1);
                }
                lemma_tail_prefix(h, h.len() as int);
                vstd::arithmetic::power::lemma_pow0(n);
            }
            let len = hist.len();
            let mut sum: u128 = 0;
            let mut factor: u128 = 1;
            let mut j: usize = 0;
            while j < len
                invariant
                    len == h.len(),
                    hist@ == h,
                    n >= 1,
                    weight_factor == n,
                    j <= len,
                    pow(n, h.len()) <= u128::MAX,
                    tail_total(h, h.len() as int) <= n,
                    sum == histogram_key(h, n, j as int),
                    factor == pow(n, j as nat),
                    j == 0 ==> sum == 0,
                    j > 0 ==> sum <= tail_total(h, j as int) * pow(n, (j - 1) as nat),
                decreases len - j,
            {
                let count = hist[len - 1 - j];
                proof {
                    let p = pow(n, j as nat);
                    vstd::arithmetic::power::lemma_pow_increases(n as nat, (j + 1) as nat, h.len());
                    vstd::arithmetic::power::lemma_pow_adds(n, j as nat, 1);
                    vstd::arithmetic::power::lemma_pow1(n);
                    vstd::arithmetic::power::lemma_pow_positive(n, j as nat);
                    let t1 = tail_total(h, j as int + 1);
                    assert(t1 == tail_total(h, j as int) + count);
                    lemma_tail_mono(h, j as int + 1, h.len() as int);
                    assert(t1 <= n);
                    if j > 0 {
                        vstd::arithmetic::power::lemma_pow_adds(n, (j - 1) as nat, 1);
                        let q = pow(n, (j - 1) as nat);
                        vstd::arithmetic::power::lemma_pow_positive(n, (j - 1) as nat);
                        lemma_tail_mono(h, 0, j as int);
                        assert(p == q * n);
                        assert(q <= p) by (nonlinear_arith)
                            requires p == q * n, n >= 1, q > 0;
                        assert(sum + count * p <= t1 * p) by (nonlinear_arith)
                            requires sum <= tail_total(h, j as int) * q, q <= p, t1 == tail_total(h, j as int) + count,
                                tail_total(h, j as int) >= 0, count >= 0;
                    } else {
                        assert(sum + count * p <= t1 * p) by (nonlinear_arith)
                            requires sum == 0, t1 == count, count >= 0;
                    }
                    assert(t1 * p <= n * p) by (nonlinear_arith)
                        requires t1 <= n, p > 0;
                    assert(pow(n, (j + 1) as nat) == p * n);
                    assert(n * p == p * n) by (nonlinear_arith);
                    assert(pow(n, (j + 1) as nat) <= pow(n, h.len()));
                    assert(n * p <= u128::MAX);
                }
                sum = sum + count as u128 * factor;
                factor = factor * weight_factor;
                j = j + 1;
            }
            histograms.push(sum);
            v = v + 1;
        }
        histograms
    }
}

impl Graph {
    /// Whether the keys of the distance histograms fit in a `u128`: for each
    /// vertex, the order raised to the length of its histogram.
    pub fn check_keys_fit(&self) -> (r: bool)
        requires
            self.wf(),
        ensures
            r == self.keys_fit(),
    {
        let n = self.num_vertices;
        let mut v: u8 = 0;
        while v < n
            invariant
                self.wf(),
                n == self.num_vertices,
                v <= n,
                forall|w: int| 0 <= w < v ==> pow(n as int, #[trigger] histogram(self@, w).len()) <= u128::MAX,
            decreases n - v,
        {
            let hist = self.distance_histogram(v);
            proof {
                lemma_histogram_unique(self@, v as int, hist@, histogram(self@, v as int));
            }
            let len = hist.len();
            proof {
                vstd::arithmetic::power::lemma_pow0(n as int);
            }
            let mut p: u128 = 1;
            let mut i: usize = 0;
            let mut fits = true;
            while i < len
                invariant
                    i <= len,
                    n >= 1,
                    fits ==> p == pow(n as int, i as nat),
                    !fits ==> pow(n as int, len as nat) > u128::MAX,
                decreases len - i,
            {
                if fits {
                    match p.checked_mul(n as u128) {
                        Some(q) => {
                            proof {
                                vstd::arithmetic::power::lemma_pow_adds(n as int, i as nat, 1);
                                vstd::arithmetic::power::lemma_pow1(n as int);
                                assert(pow(n as int, (i + 1) as nat) == p * n);
                            }
                            p = q;
                        },
                        None => {
                            proof {
                                vstd::arithmetic::power::lemma_pow_adds(n as int, i as nat, 1);
                                vstd::arithmetic::power::lemma_pow1(n as int);
                                assert(pow(n as int, (i + 1) as nat) == p * n);
                                assert(p * n > u128::MAX);
                                vstd::arithmetic::power::lemma_pow_increases(n as nat, (i + 1) as nat, len as nat);
                            }
                            fits = false;
                        },
                    }
                }
                i = i + 1;
            }
            if !fits {
                proof {
                    assert(pow(n as int, histogram(self@, v as int).len()) > u128::MAX);
                    assert(!self.keys_fit());
                }
                return false;
            }
            v = v + 1;
        }
        true
    }
}

} // verus!
