//! Graphs of any size, given by lists of neighbours, and their components.
use vstd::prelude::*;
use crate::graph::BigGraph;
use crate::reach::{reachable, symmetric, lemma_reach_refl, lemma_reach_step, lemma_reach_sym, lemma_reach_trans};
use crate::sort::{sort_by_key, sorted_by_key};

verus! {

broadcast use vstd::seq_lib::group_to_multiset_ensures;

/// The neighbour lists have one entry per vertex and name only vertices.
pub open spec fn big_within(g: &BigGraph) -> bool {
    &&& g.neighbours@.len() == g.num_vertices
    &&& forall|v: int, k: int| 0 <= v < g.num_vertices && 0 <= k < g.neighbours@[v]@.len() ==>
        #[trigger] g.neighbours@[v]@[k] < g.num_vertices
}

/// `b` is in the list of neighbours of `a`.
pub open spec fn big_adjacent(g: &BigGraph, a: int, b: int) -> bool {
    0 <= a < g.neighbours@.len() && 0 <= b < g.neighbours@.len() && g.neighbours@[a]@.contains(b as usize)
}

/// The neighbour relation.
pub open spec fn big_rel(g: BigGraph) -> spec_fn(int, int) -> bool {
    |a: int, b: int| big_adjacent(&g, a, b)
}

/// Each edge `(u, v)` written with its smaller end first.
pub open spec fn ordered_pairs(edges: Seq<(usize, usize)>) -> Seq<(usize, usize)> {
    edges.map_values(|e: (usize, usize)| if e.0 < e.1 { e } else { (e.1, e.0) })
}

/// The neighbour lists built from the first `k` edges: each edge `(u, v)` adds
/// `v` to the list of `u`, then `u` to the list of `v`.
pub open spec fn neighbour_lists(es: Seq<(usize, usize)>, n: nat, k: int) -> Seq<Seq<usize>>
    decreases k,
{
    if k <= 0 {
        Seq::new(n, |i: int| Seq::<usize>::empty())
    } else {
        let prev = neighbour_lists(es, n, k - 1);
        let (u, v) = es[k - 1];
        let p1 = prev.update(u as int, prev[u as int].push(v));
        p1.update(v as int, p1[v as int].push(u))
    }
}

/// A vertex is in a neighbour list exactly when an edge joins it to the owner.
proof fn lemma_neighbour_lists(es: Seq<(usize, usize)>, n: nat, k: int)
    requires
        0 <= k <= es.len(),
        forall|j: int| 0 <= j < es.len() ==> #[trigger] es[j].0 < n && es[j].1 < n,
    ensures
        neighbour_lists(es, n, k).len() == n,
        forall|a: int, b: usize| 0 <= a < n ==> (#[trigger] neighbour_lists(es, n, k)[a].contains(b) <==> exists|j: int|
            0 <= j < k && ((es[j].0 == a && es[j].1 == b) || (es[j].1 == a && es[j].0 == b))),
        forall|a: int, x: int| 0 <= a < n && 0 <= x < neighbour_lists(es, n, k)[a].len() ==> #[trigger] neighbour_lists(es, n, k)[a][x] < n,
    decreases k,
{
    if k > 0 {
        lemma_neighbour_lists(es, n, k - 1);
        let prev = neighbour_lists(es, n, k - 1);
        let (u, v) = es[k - 1];
        let p1 = prev.update(u as int, prev[u as int].push(v));
        let cur = neighbour_lists(es, n, k);
        assert forall|a: int, b: usize| 0 <= a < n implies (#[trigger] cur[a].contains(b) <==> exists|j: int|
            0 <= j < k && ((es[j].0 == a && es[j].1 == b) || (es[j].1 == a && es[j].0 == b))) by {
            let added = (u == a && v == b) || (v == a && u == b);
            assert(cur[a].contains(b) <==> (prev[a].contains(b) || added)) by {
                if a == u && a == v {
                    assert(cur[a] == prev[a].push(v).push(u));
                } else if a == u {
                    assert(cur[a] == prev[a].push(v));
                } else if a == v {
                    assert(cur[a] == prev[a].push(u));
                } else {
                    assert(cur[a] == prev[a]);
                }
                if cur[a].contains(b) {
                    let x = choose|x: int| 0 <= x < cur[a].len() && cur[a][x] == b;
                    if x < prev[a].len() {
                        assert(prev[a][x] == b);
                    }
                }
                if prev[a].contains(b) {
                    let x = choose|x: int| 0 <= x < prev[a].len() && prev[a][x] == b;
                    assert(cur[a][x] == b);
                }
                if added {
                    if a == u && a == v {
                        assert(cur[a][prev[a].len() as int] == b);
                    } else if a == u {
                        assert(cur[a][prev[a].len() as int] == b);
                    } else {
                        assert(cur[a][cur[a].len() - 1] == b);
                    }
                }
            }
            if exists|j: int| 0 <= j < k && ((es[j].0 == a && es[j].1 == b) || (es[j].1 == a && es[j].0 == b)) {
                let j = choose|j: int| 0 <= j < k && ((es[j].0 == a && es[j].1 == b) || (es[j].1 == a && es[j].0 == b));
                if j < k - 1 {
                    assert(prev[a].contains(b));
                }
            }
        }
        assert forall|a: int, x: int| 0 <= a < n && 0 <= x < cur[a].len() implies #[trigger] cur[a][x] < n by {
            assert(u < n && v < n);
            if a == u && a == v {
                assert(cur[a] == prev[a].push(v).push(u));
            } else if a == u {
                assert(cur[a] == prev[a].push(v));
            } else if a == v {
                assert(cur[a] == prev[a].push(u));
            } else {
                assert(cur[a] == prev[a]);
            }
        }
    }
}

/// `g` is the graph that `BigGraph::new(n, edges)` builds: `n` vertices, and
/// for the edges, each with its smaller end first and sorted, each end in the
/// neighbour list of the other.
pub open spec fn big_built(g: BigGraph, n: usize, edges: Seq<(usize, usize)>) -> bool {
    &&& g.num_vertices == n
    &&& big_within(&g)
    &&& symmetric(big_rel(g), n as int)
    &&& exists|s: Seq<(usize, usize)>| #![trigger sorted_by_key(s)]
        sorted_by_key(s) && s.to_multiset() == ordered_pairs(edges).to_multiset()
        && g.neighbours@.map_values(|l: Vec<usize>| l@) == neighbour_lists(s, n as nat, s.len() as int)
}

impl BigGraph {
    /// Build the graph from its edges: each edge is taken with its smaller end
    /// first, the edges are sorted, and each adds its ends to each other's list.
    pub fn new(num_vertices: usize, edges: Vec<(usize, usize)>) -> (g: Self)
        requires
            forall|j: int| 0 <= j < edges@.len() ==> #[trigger] edges@[j].0 < num_vertices && edges@[j].1 < num_vertices,
        ensures
            big_built(g, num_vertices, edges@),
    {
        let mut es: Vec<(usize, usize)> = Vec::with_capacity(edges.len());
        let mut k: usize = 0;
        while k < edges.len()
            invariant
                k <= edges@.len(),
                es@ == ordered_pairs(edges@).take(k as int),
            decreases edges@.len() - k,
        {
            let (a, b) = edges[k];
            es.push(if a < b { (a, b) } else { (b, a) });
            assert(es@ =~= ordered_pairs(edges@).take(k as int + 1));
            k = k + 1;
        }
        assert(ordered_pairs(edges@).take(edges@.len() as int) =~= ordered_pairs(edges@));
        let ghost unsorted = es@;
        sort_by_key(&mut es);
        proof {
            assert forall|j: int| 0 <= j < es@.len() implies #[trigger] es@[j].0 < num_vertices && es@[j].1 < num_vertices by {
                assert(es@.to_multiset().count(es@[j]) > 0);
                assert(unsorted.contains(es@[j]));
                let i = choose|i: int| 0 <= i < unsorted.len() && unsorted[i] == es@[j];
                assert(edges@[i].0 < num_vertices && edges@[i].1 < num_vertices);
            }
        }
        let mut neighbours: Vec<Vec<usize>> = Vec::new();
        let mut i: usize = 0;
        while i < num_vertices
            invariant
                i <= num_vertices,
                neighbours@.len() == i,
                forall|x: int| 0 <= x < i ==> #[trigger] neighbours@[x]@ == Seq::<usize>::empty(),
            decreases num_vertices - i,
        {
            neighbours.push(Vec::new());
            i = i + 1;
        }
        let ghost n = num_vertices as nat;
        proof {
            assert(neighbours@.map_values(|l: Vec<usize>| l@) =~= neighbour_lists(es@, n, 0));
        }
        let mut k: usize = 0;
        while k < es.len()
            invariant
                k <= es@.len(),
                neighbours@.len() == n,
                n == num_vertices,
                forall|j: int| 0 <= j < es@.len() ==> #[trigger] es@[j].0 < num_vertices && es@[j].1 < num_vertices,
                neighbours@.map_values(|l: Vec<usize>| l@) == neighbour_lists(es@, n, k as int),
            decreases es@.len() - k,
        {
            let (u, v) = es[k];
            let ghost before = neighbours@.map_values(|l: Vec<usize>| l@);
            let mut lu: Vec<usize> = Vec::new();
            std::mem::swap(&mut lu, &mut neighbours[u]);
            lu.push(v);
            neighbours.set(u, lu);
            let mut lv: Vec<usize> = Vec::new();
            std::mem::swap(&mut lv, &mut neighbours[v]);
            lv.push(u);
            neighbours.set(v, lv);
            proof {
                let p1 = before.update(u as int, before[u as int].push(v));
                assert(neighbours@.map_values(|l: Vec<usize>| l@) =~= p1.update(v as int, p1[v as int].push(u)));
            }
            k = k + 1;
        }
        let g = BigGraph { num_vertices, neighbours };
        proof {
            lemma_neighbour_lists(es@, n, es@.len() as int);
            let lists = neighbour_lists(es@, n, es@.len() as int);
            assert forall|v: int, x: int| 0 <= v < n && 0 <= x < g.neighbours@[v]@.len() implies #[trigger] g.neighbours@[v]@[x] < n by {
                assert(g.neighbours@[v]@ == lists[v]);
            }
            assert forall|x: int, y: int| 0 <= x < n && 0 <= y < n implies (#[trigger] big_rel(g)(x, y) ==> big_rel(g)(y, x)) by {
                assert(g.neighbours@[x]@ == lists[x]);
                assert(g.neighbours@[y]@ == lists[y]);
                if big_rel(g)(x, y) {
                    assert(lists[x].contains(y as usize));
                    let j = choose|j: int| 0 <= j < es@.len() && ((es@[j].0 == x && es@[j].1 == y as usize) || (es@[j].1 == x && es@[j].0 == y as usize));
                    assert(lists[y].contains(x as usize));
                }
            }
            assert(sorted_by_key(es@));
        }
        g
    }
}


/// The number of labelled vertices below `upto`.
pub open spec fn count_nonzero(labels: Seq<usize>, upto: int) -> nat
    decreases upto,
{
    if upto <= 0 {
        0
    } else {
        count_nonzero(labels, upto - 1) + (if labels[upto - 1] != 0 {
            1nat
        } else {
            0nat
        })
    }
}

proof fn lemma_count_nonzero_bound(labels: Seq<usize>, upto: int)
    requires
        0 <= upto,
    ensures
        count_nonzero(labels, upto) <= upto,
    decreases upto,
{
    if upto > 0 {
        lemma_count_nonzero_bound(labels, upto - 1);
    }
}

proof fn lemma_count_nonzero_update(labels: Seq<usize>, upto: int, w: int, c: usize)
    requires
        0 <= w < labels.len(),
        upto <= labels.len(),
        labels[w] == 0,
        c != 0,
    ensures
        count_nonzero(labels.update(w, c), upto) == count_nonzero(labels, upto) + (if w < upto {
            1nat
        } else {
            0nat
        }),
    decreases upto,
{
    if upto > 0 {
        lemma_count_nonzero_update(labels, upto - 1, w, c);
    }
}

/// The labelling found by searching from each unlabelled vertex in turn,
/// lowest first: the `c`-th search starts at `roots[c]`, the lowest vertex not
/// labelled by an earlier search, and labels `c` the vertices it reaches that
/// no earlier search reached.
pub open spec fn is_search_labelling(g: BigGraph, count: int, labels: Seq<usize>, roots: Seq<int>) -> bool {
    let n = g.num_vertices as int;
    &&& labels.len() == n
    &&& 0 <= count <= n
    &&& roots.len() == count + 1
    &&& forall|x: int| 0 <= x < n ==> 1 <= #[trigger] labels[x] <= count
    &&& forall|c: int| 1 <= c <= count ==> 0 <= #[trigger] roots[c] < n && labels[roots[c]] == c
    &&& forall|c: int, y: int| 1 <= c <= count && 0 <= y < roots[c] ==> #[trigger] labels[y] < c && #[trigger] roots[c] >= 0
    &&& forall|x: int| 0 <= x < n ==> reachable(big_rel(g), n, roots[labels[x] as int], x)
    &&& forall|v: int, w: int| 0 <= v < n && #[trigger] big_adjacent(&g, v, w) ==> labels[w] <= labels[v]
}

/// For a symmetric neighbour relation the search labelling labels the
/// components: two vertices share a label exactly when one reaches the other.
pub proof fn lemma_search_labels_components(g: BigGraph, count: int, labels: Seq<usize>, roots: Seq<int>, x: int, y: int)
    requires
        big_within(&g),
        symmetric(big_rel(g), g.num_vertices as int),
        is_search_labelling(g, count, labels, roots),
        0 <= x < g.num_vertices,
        0 <= y < g.num_vertices,
    ensures
        labels[x] == labels[y] <==> reachable(big_rel(g), g.num_vertices as int, x, y),
{
    let n = g.num_vertices as int;
    let rel = big_rel(g);
    if labels[x] == labels[y] {
        let r = roots[labels[x] as int];
        lemma_reach_sym(rel, n, r, x);
        lemma_reach_trans(rel, n, x, r, y);
    }
    if reachable(rel, n, x, y) {
        assert forall|p: int, q: int| 0 <= p < n && 0 <= q < n && #[trigger] rel(p, q) implies labels[p] == labels[q] by {
            assert(big_adjacent(&g, p, q));
            assert(rel(q, p));
            assert(big_adjacent(&g, q, p));
        }
        lemma_equal_labels_walk(rel, n, labels, x, y);
    }
}

proof fn lemma_equal_labels_walk(rel: spec_fn(int, int) -> bool, n: int, labels: Seq<usize>, u: int, v: int)
    requires
        labels.len() == n,
        forall|p: int, q: int| 0 <= p < n && 0 <= q < n && #[trigger] rel(p, q) ==> labels[p] == labels[q],
        reachable(rel, n, u, v),
    ensures
        labels[u] == labels[v],
{
    let p = choose|p: Seq<int>| #[trigger] crate::reach::is_walk(rel, n, p) && p[0] == u && p.last() == v;
    lemma_equal_labels_prefix(rel, n, labels, p, p.len() - 1);
}

proof fn lemma_equal_labels_prefix(rel: spec_fn(int, int) -> bool, n: int, labels: Seq<usize>, p: Seq<int>, k: int)
    requires
        labels.len() == n,
        forall|a: int, b: int| 0 <= a < n && 0 <= b < n && #[trigger] rel(a, b) ==> labels[a] == labels[b],
        crate::reach::is_walk(rel, n, p),
        0 <= k < p.len(),
    ensures
        labels[p[0]] == labels[p[k]],
    decreases k,
{
    if k > 0 {
        lemma_equal_labels_prefix(rel, n, labels, p, k - 1);
        assert(rel(p[k - 1], p[k]));
    }
}

impl BigGraph {
    /// Compute the number of connected components of a graph, along with an
    /// assignment of components to vertices: a search from each unlabelled
    /// vertex in turn, lowest first, labels the vertices it reaches.
    #[verifier::rlimit(100)]
    pub fn connected_components(&self) -> (res: (usize, Vec<usize>))
        requires
            big_within(self),
        ensures
            exists|roots: Seq<int>| #[trigger] is_search_labelling(*self, res.0 as int, res.1@, roots),
    {
        let n = self.num_vertices;
        let ghost rel = big_rel(*self);
        let mut components: Vec<usize> = vec![0usize; n];
        let mut stack: Vec<usize> = Vec::new();
        let mut i: usize = 0;
        let mut lo: usize = 0;
        let ghost mut roots: Seq<int> = seq![0];
        while lo < n
            invariant
                n == self.num_vertices,
                big_within(self),
                rel == big_rel(*self),
                lo <= n,
                i <= lo,
                components@.len() == n,
                stack@.len() == 0,
                forall|x: int| 0 <= x < n ==> #[trigger] components@[x] <= i,
                forall|x: int| 0 <= x < lo ==> #[trigger] components@[x] != 0,
                roots.len() == i + 1,
                forall|c: int| 1 <= c <= i ==> 0 <= #[trigger] roots[c] < n && components@[roots[c]] == c,
                forall|c: int, y: int| 1 <= c <= i && 0 <= y < roots[c] ==> #[trigger] components@[y] < c && components@[y] != 0 && #[trigger] roots[c] >= 0,
                forall|x: int| 0 <= x < n && #[trigger] components@[x] != 0 ==> reachable(rel, n as int, roots[components@[x] as int], x),
                forall|v: int, w: int| 0 <= v < n && components@[v] != 0 && #[trigger] big_adjacent(self, v, w)
                    ==> components@[w] != 0 && components@[w] <= components@[v],
            decreases n - lo,
        {
            if components[lo] != 0 {
                lo = lo + 1;
                continue;
            }
            let u = lo;
            let ghost comps0 = components@;
            i = i + 1;
            components.set(u, i);
            stack.push(u);
            proof {
                roots = roots.push(u as int);
                lemma_reach_refl(rel, n as int, u as int);
                lemma_count_nonzero_bound(components@, n as int);
                assert forall|v: int, w: int| 0 <= v < n && components@[v] != 0 && !stack@.contains(v as usize)
                    && #[trigger] big_adjacent(self, v, w) implies components@[w] != 0 && components@[w] <= components@[v] by {
                    assert(stack@[0] == u);
                    assert(v != u);
                    assert(comps0[v] != 0);
                    assert(comps0[w] != 0);
                }
                assert forall|c: int, y: int| 1 <= c <= i && 0 <= y < roots[c] implies #[trigger] components@[y] < c && components@[y] != 0 && #[trigger] roots[c] >= 0 by {
                    if c < i {
                        assert(y != u) by {
                            assert(roots[c] < u || roots[c] == u || roots[c] > u);
                            assert(comps0[roots[c]] == c);
                        }
                        assert(components@[y] == comps0[y]);
                    } else {
                        assert(y < lo);
                        assert(components@[y] == comps0[y]);
                    }
                }
            }
            while stack.len() > 0
                invariant
                    n == self.num_vertices,
                    big_within(self),
                    rel == big_rel(*self),
                    lo < n,
                    1 <= i <= lo + 1,
                    components@.len() == n,
                    components@[lo as int] == i,
                    forall|x: int| 0 <= x < n ==> #[trigger] components@[x] <= i,
                    forall|x: int| 0 <= x < lo ==> #[trigger] components@[x] != 0,
                    roots.len() == i + 1,
                    forall|c: int| 1 <= c <= i ==> 0 <= #[trigger] roots[c] < n && components@[roots[c]] == c,
                    forall|c: int, y: int| 1 <= c <= i && 0 <= y < roots[c] ==> #[trigger] components@[y] < c && components@[y] != 0 && #[trigger] roots[c] >= 0,
                    forall|x: int| 0 <= x < n && #[trigger] components@[x] != 0 ==> reachable(rel, n as int, roots[components@[x] as int], x),
                    forall|k: int| 0 <= k < stack@.len() ==> #[trigger] stack@[k] < n && components@[stack@[k] as int] == i,
                    stack@.no_duplicates(),
                    count_nonzero(components@, n as int) <= n,
                    forall|v: int, w: int| 0 <= v < n && components@[v] != 0 && !stack@.contains(v as usize)
                        && #[trigger] big_adjacent(self, v, w) ==> components@[w] != 0 && components@[w] <= components@[v],
                decreases n - count_nonzero(components@, n as int), stack@.len(),
            {
                let ghost prev_stack = stack@;
                let v = stack.pop().unwrap();
                let nb = &self.neighbours[v];
                proof {
                    assert(stack@ =~= prev_stack.drop_last());
                    assert(!stack@.contains(v)) by {
                        if stack@.contains(v) {
                            let k = choose|k: int| 0 <= k < stack@.len() && stack@[k] == v;
                            assert(prev_stack[k] == v && prev_stack[prev_stack.len() - 1] == v);
                        }
                    }
                    assert forall|x: usize| #[trigger] prev_stack.contains(x) && x != v implies stack@.contains(x) by {
                        let k = choose|k: int| 0 <= k < prev_stack.len() && prev_stack[k] == x;
                        assert(k < prev_stack.len() - 1);
                        assert(stack@[k] == x);
                    }
                }
                let ghost before_count = count_nonzero(components@, n as int);
                let ghost stack0 = stack@;
                let mut t: usize = 0;
                while t < nb.len()
                    invariant
                        n == self.num_vertices,
                        big_within(self),
                        rel == big_rel(*self),
                        v < n,
                        *nb == self.neighbours@[v as int],
                        t <= nb@.len(),
                        lo < n,
                        1 <= i <= lo + 1,
                        components@.len() == n,
                        components@[lo as int] == i,
                        components@[v as int] == i,
                        !stack@.contains(v),
                        forall|x: int| 0 <= x < n ==> #[trigger] components@[x] <= i,
                        forall|x: int| 0 <= x < lo ==> #[trigger] components@[x] != 0,
                        roots.len() == i + 1,
                        forall|c: int| 1 <= c <= i ==> 0 <= #[trigger] roots[c] < n && components@[roots[c]] == c,
                        forall|c: int, y: int| 1 <= c <= i && 0 <= y < roots[c] ==> #[trigger] components@[y] < c && components@[y] != 0 && #[trigger] roots[c] >= 0,
                        forall|x: int| 0 <= x < n && #[trigger] components@[x] != 0 ==> reachable(rel, n as int, roots[components@[x] as int], x),
                        forall|k: int| 0 <= k < stack@.len() ==> #[trigger] stack@[k] < n && components@[stack@[k] as int] == i,
                        stack@.no_duplicates(),
                        forall|k: int| 0 <= k < t ==> components@[#[trigger] nb@[k] as int] != 0,
                        forall|vv: int, w: int| 0 <= vv < n && components@[vv] != 0 && vv != v && !stack@.contains(vv as usize)
                            && #[trigger] big_adjacent(self, vv, w) ==> components@[w] != 0 && components@[w] <= components@[vv],
                        count_nonzero(components@, n as int) >= before_count,
                        count_nonzero(components@, n as int) <= n,
                        stack@.len() > stack0.len() ==> count_nonzero(components@, n as int) > before_count,
                        stack@.len() >= stack0.len(),
                    decreases nb@.len() - t,
                {
                    let w = nb[t];
                    proof {
                        assert(w < n);
                        assert(big_adjacent(self, v as int, w as int)) by {
                            assert(self.neighbours@[v as int]@[t as int] == w);
                            assert(self.neighbours@[v as int]@.contains(w));
                        }
                        assert(rel(v as int, w as int));
                    }
                    if components[w] == 0 {
                        let ghost old_comps = components@;
                        let ghost old_stack = stack@;
                        components.set(w, i);
                        stack.push(w);
                        proof {
                            lemma_count_nonzero_update(old_comps, n as int, w as int, i);
                            lemma_count_nonzero_bound(components@, n as int);
                            lemma_reach_step(rel, n as int, roots[i as int], v as int, w as int);
                            assert forall|k: int| 0 <= k < stack@.len() - 1 implies stack@[k] != w by {
                                assert(components@[stack@[k] as int] == i);
                                assert(old_comps[stack@[k] as int] == i);
                            }
                            assert forall|x: int| 0 <= x < n && #[trigger] components@[x] != 0 implies reachable(rel, n as int, roots[components@[x] as int], x) by {
                                if x != w {
                                    assert(old_comps[x] == components@[x]);
                                }
                            }
                            assert forall|c: int, y: int| 1 <= c <= i && 0 <= y < roots[c] implies #[trigger] components@[y] < c && components@[y] != 0 && #[trigger] roots[c] >= 0 by {
                                assert(old_comps[y] != 0);
                                assert(y != w);
                            }
                            assert forall|vv: int, x: int| 0 <= vv < n && components@[vv] != 0 && vv != v && !stack@.contains(vv as usize)
                                && #[trigger] big_adjacent(self, vv, x) implies components@[x] != 0 && components@[x] <= components@[vv] by {
                                assert(stack@[stack@.len() - 1] == w);
                                assert(vv != w);
                                if old_stack.contains(vv as usize) {
                                    let k = choose|k: int| 0 <= k < old_stack.len() && old_stack[k] == vv as usize;
                                    assert(stack@[k] == vv as usize);
                                }
                                assert(old_comps[vv] != 0);
                                if x == w {
                                    assert(old_comps[x] != 0);
                                } else {
                                    assert(components@[x] == old_comps[x]);
                                }
                            }
                            assert forall|k: int| 0 <= k < t + 1 implies components@[#[trigger] nb@[k] as int] != 0 by {
                                if k < t {
                                    let y = nb@[k] as int;
                                    assert(old_comps[y] != 0);
                                }
                            }
                        }
                    } else {
                        proof {
                            assert forall|k: int| 0 <= k < t + 1 implies components@[#[trigger] nb@[k] as int] != 0 by {
                            }
                        }
                    }
                    t = t + 1;
                }
                proof {
                    assert forall|vv: int, w: int| 0 <= vv < n && components@[vv] != 0 && !stack@.contains(vv as usize)
                        && #[trigger] big_adjacent(self, vv, w) implies components@[w] != 0 && components@[w] <= components@[vv] by {
                        if vv == v {
                            let k = choose|k: int| 0 <= k < nb@.len() && nb@[k] == w as usize;
                            assert(components@[nb@[k] as int] != 0);
                        }
                    }
                }
            }
            lo = lo + 1;
        }
        proof {
            let labels = components@;
            assert forall|c: int, y: int| 1 <= c <= i && 0 <= y < roots[c] implies #[trigger] labels[y] < c && #[trigger] roots[c] >= 0 by {}
            assert(is_search_labelling(*self, i as int, labels, roots));
        }
        let res = (i, components);
        proof {
            assert(is_search_labelling(*self, res.0 as int, res.1@, roots));
        }
        res
    }
}


/// A copy of a list of indices.
fn copy_list(v: &Vec<usize>) -> (c: Vec<usize>)
    ensures
        c@ == v@,
{
    let mut c: Vec<usize> = Vec::with_capacity(v.len());
    let mut k: usize = 0;
    while k < v.len()
        invariant
            k <= v@.len(),
            c@ == v@.take(k as int),
        decreases v@.len() - k,
    {
        c.push(v[k]);
        assert(c@ =~= v@.take(k as int + 1));
        k = k + 1;
    }
    assert(v@.take(v@.len() as int) =~= v@);
    c
}

/// `h` is `g` with the list of neighbours of `i` emptied.
pub open spec fn emptied_at(h: BigGraph, g: BigGraph, i: int) -> bool {
    &&& h.num_vertices == g.num_vertices
    &&& h.neighbours@.len() == g.neighbours@.len()
    &&& forall|k: int| 0 <= k < g.neighbours@.len() ==> #[trigger] h.neighbours@[k]@ == (if k == i {
        Seq::<usize>::empty()
    } else {
        g.neighbours@[k]@
    })
}

/// The search on `g` with the list of `i` emptied finds `count` components.
pub open spec fn count_without(g: BigGraph, i: int, count: int) -> bool {
    exists|h: BigGraph, labels: Seq<usize>, roots: Seq<int>| emptied_at(h, g, i) && #[trigger] is_search_labelling(h, count, labels, roots)
}

/// The search on `g` with the list of `i` emptied finds at most two components.
pub open spec fn at_most_two_without(g: BigGraph, i: int) -> bool {
    exists|c: int| c <= 2 && #[trigger] count_without(g, i, c)
}

impl BigGraph {
    /// Look for a vertex whose list of neighbours, once emptied, leaves the
    /// search with more than two components: the first such vertex, with the
    /// number of components and the labelling (the list stays emptied), or
    /// `None` (the graph unchanged).
    pub fn is_vertex_connected(&mut self) -> (r: Option<(usize, usize, Vec<usize>)>)
        requires
            big_within(old(self)),
        ensures
            r is None ==> {
                &&& final(self).num_vertices == old(self).num_vertices
                &&& final(self).neighbours@.map_values(|l: Vec<usize>| l@) == old(self).neighbours@.map_values(|l: Vec<usize>| l@)
                &&& forall|k: int| 0 <= k < old(self).num_vertices ==> #[trigger] at_most_two_without(*old(self), k)
            },
            r is Some ==> {
                let (i, j, c) = r->0;
                &&& i < old(self).num_vertices
                &&& j > 2
                &&& emptied_at(*final(self), *old(self), i as int)
                &&& exists|roots: Seq<int>| #[trigger] is_search_labelling(*final(self), j as int, c@, roots)
                &&& forall|k: int| 0 <= k < i ==> #[trigger] at_most_two_without(*old(self), k)
            },
    {
        let ghost orig = *self;
        let n = self.num_vertices;
        let mut i: usize = 0;
        let mut found: Option<(usize, usize, Vec<usize>)> = None;
        while i < n
            invariant_except_break
                found is None,
                self.neighbours@.map_values(|l: Vec<usize>| l@) == orig.neighbours@.map_values(|l: Vec<usize>| l@),
            invariant
                n == self.num_vertices,
                n == orig.num_vertices,
                big_within(&orig),
                self.neighbours@.len() == n,
                i <= n,
                forall|k: int| 0 <= k < i ==> #[trigger] at_most_two_without(orig, k),
            ensures
                found is None ==> self.neighbours@.map_values(|l: Vec<usize>| l@) == orig.neighbours@.map_values(|l: Vec<usize>| l@)
                    && i == n,
                found is Some ==> {
                    let (fi, fj, fc) = found->0;
                    &&& fi == i && i < n
                    &&& fj > 2
                    &&& emptied_at(*self, orig, i as int)
                    &&& exists|roots: Seq<int>| #[trigger] is_search_labelling(*self, fj as int, fc@, roots)
                },
            decreases n - i,
        {
            let ghost before = self.neighbours@.map_values(|l: Vec<usize>| l@);
            let neigh = copy_list(&self.neighbours[i]);
            self.neighbours.set(i, Vec::new());
            proof {
                assert(neigh@ == orig.neighbours@[i as int]@) by {
                    assert(before[i as int] == orig.neighbours@.map_values(|l: Vec<usize>| l@)[i as int]);
                }
                assert forall|k: int| 0 <= k < n implies #[trigger] self.neighbours@[k]@ == (if k == i {
                    Seq::<usize>::empty()
                } else {
                    orig.neighbours@[k]@
                }) by {
                    assert(orig.neighbours@.map_values(|l: Vec<usize>| l@)[k] == orig.neighbours@[k]@);
                    assert(before[k] == orig.neighbours@[k]@);
                }
                assert(emptied_at(*self, orig, i as int));
                assert forall|v: int, x: int| 0 <= v < self.num_vertices && 0 <= x < self.neighbours@[v]@.len() implies
                    #[trigger] self.neighbours@[v]@[x] < self.num_vertices by {
                    assert(v != i);
                    assert(self.neighbours@[v]@ == orig.neighbours@[v]@);
                }
            }
            let (j, c) = self.connected_components();
            if j > 2 {
                proof {
                    assert(emptied_at(*self, orig, i as int));
                    assert(exists|roots: Seq<int>| #[trigger] is_search_labelling(*self, j as int, c@, roots));
                    assert(forall|k: int| 0 <= k < i ==> #[trigger] at_most_two_without(orig, k));
                }
                found = Some((i, j, c));
                proof {
                    let t = found->0;
                    assert(t.0 == i && t.1 == j && t.2 == c);
                }
                break;
            }
            proof {
                let roots = choose|roots: Seq<int>| #[trigger] is_search_labelling(*self, j as int, c@, roots);
                assert(count_without(orig, i as int, j as int));
            }
            self.neighbours.set(i, neigh);
            proof {
                let now = self.neighbours@.map_values(|l: Vec<usize>| l@);
                let was = orig.neighbours@.map_values(|l: Vec<usize>| l@);
                assert forall|k: int| 0 <= k < n implies #[trigger] now[k] == was[k] by {
                    if k != i {
                        assert(self.neighbours@[k]@ == orig.neighbours@[k]@);
                    }
                }
                assert(now =~= was);
                assert forall|k: int| 0 <= k < i + 1 implies #[trigger] at_most_two_without(orig, k) by {
                    if k == i {
                        assert(count_without(orig, i as int, j as int));
                    }
                }
            }
            i = i + 1;
        }
        found
    }
}

} // verus!
