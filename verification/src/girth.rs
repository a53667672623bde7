//! The girth of a graph in the bipartite form.
use vstd::prelude::*;
use crate::bits::{bit, bit_positions, bits_seq, lemma_bits_seq};
use crate::graph::{Graph, GraphView};
use crate::multi::{rank_below, repeats_earlier, simplified_entry, simplify_fits};
use crate::sort::sorted_by_key;
use crate::contract::contraction_chain;

verus! {

/// The count `edges + 1` as a `u8` vertex count (modulo 256).
pub open spec fn edges_plus_one(e: nat) -> u8 {
    ((e + 1) % 256) as u8
}

/// The girth is found in the graph itself: it has a loop (a vertex of
/// valency 1), multiple edges (repeated rows), or is a tree.
pub open spec fn girth_early(g: Graph) -> bool {
    ||| exists|v: int| 0 <= v < g.num_vertices && #[trigger] g.valency(v) == 1
    ||| exists|k: int| 0 <= k < g.adj@.len() && #[trigger] repeats_earlier(g.adj@, k)
    ||| g.num_vertices == edges_plus_one(g.edges@.len())
}

/// What `girth` gives for `g`: 1 where a vertex has valency 1 (a loop), else
/// 2 where a row repeats (a multiple edge), else 0 for a tree, else at most
/// one more than the number of vertices, and what the searches find in the
/// simplified graph (see `girth_found`).
pub open spec fn girth_outcome(g: Graph, r: u8) -> bool {
    &&& (exists|v: int| 0 <= v < g.num_vertices && #[trigger] g.valency(v) == 1) ==> r == 1
    &&& !(exists|v: int| 0 <= v < g.num_vertices && #[trigger] g.valency(v) == 1)
        && (exists|k: int| 0 <= k < g.adj@.len() && #[trigger] repeats_earlier(g.adj@, k)) ==> r == 2
    &&& !(exists|v: int| 0 <= v < g.num_vertices && #[trigger] g.valency(v) == 1)
        && !(exists|k: int| 0 <= k < g.adj@.len() && #[trigger] repeats_earlier(g.adj@, k))
        && g.num_vertices == edges_plus_one(g.edges@.len()) ==> r == 0
    &&& !girth_early(g) ==> r <= g.num_vertices + 1
    &&& !girth_early(g) ==> exists|h: Graph| #[trigger] simplified_graph(g, h) && h.num_vertices <= g.num_vertices
        && girth_found(h, r) && no_shorter_cycle(h, r) && girth_is_cycle(h, r)
}

/// `r` is the length of some cycle of `h`, or one more than its order; with
/// `no_shorter_cycle`, the least length of a cycle of `h` where it has one.
pub open spec fn girth_is_cycle(h: Graph, r: u8) -> bool {
    r == h.num_vertices + 1 || exists|c: Seq<int>| #[trigger] is_cycle(h@, c) && c.len() == r
}

/// No cycle of `h` is shorter than `r`; so where `r` is one more than the
/// order of `h`, `h` has no cycle.
pub open spec fn no_shorter_cycle(h: Graph, r: u8) -> bool {
    &&& forall|c: Seq<int>| #[trigger] is_cycle(h@, c) ==> r <= c.len()
    &&& r == h.num_vertices + 1 ==> forall|c: Seq<int>| !#[trigger] is_cycle(h@, c)
}

/// `h` is the simplified graph of `g`, as `simplify` with multiple edges kept
/// builds it: the vertices not of valency 2 renumbered in order, joined where
/// a vertex of valency 2 joined them.
pub open spec fn simplified_graph(g: Graph, h: Graph) -> bool {
    exists|s: Seq<((u8, u8), u8)>| #[trigger] simplified_by(g, h, s)
}

/// `h` is built from the edges of the list `s`, which holds, sorted and once
/// each, the entries that simplifying `g` with multiple edges kept gives.
pub open spec fn simplified_by(g: Graph, h: Graph, s: Seq<((u8, u8), u8)>) -> bool {
    &&& h.built_from(rank_below(g.adj@, g.adj@.len() as int), s.map_values(|e: ((u8, u8), u8)| e.0))
    &&& sorted_by_key(s)
    &&& forall|x: ((u8, u8), u8)| #[trigger] s.contains(x) <==> simplified_entry(g.adj@, true, x)
    &&& s.no_duplicates()
}

/// What the searches find in the simplified graph `h`: one more than its
/// order where they find nothing, else the length of a walk through some
/// vertex closed by an edge.
pub open spec fn girth_found(h: Graph, r: u8) -> bool {
    ||| r == h.num_vertices + 1
    ||| 1 <= r <= h.num_vertices && exists|root: int| 0 <= root < h.num_vertices && #[trigger] closed_walk(h@, root, r as int)
}

/// `h` is `g` with the neighbourhoods of the vertices of the mask `f`
/// contracted, the highest first.
pub open spec fn contracted_by_mask(g: Graph, f: u64, h: Graph) -> bool {
    &&& h.wf()
    &&& exists|gs: Seq<Graph>, ms: Seq<Seq<u8>>, vs: Seq<Seq<u8>>| {
        &&& #[trigger] contraction_chain(gs, ms, vs)
        &&& vs.len() == bits_seq(f).len() + 1
        &&& vs[0] == bits_seq(f).map_values(|i: int| i as u8)
        &&& gs[0]@ == g@ && gs[0].adj@ == g.adj@ && gs[0].num_vertices == g.num_vertices
        &&& gs.last() == h
    }
}

/// Every graph that contracting the mask `f` in `g` gives meets what `girth`
/// asks of it.
pub open spec fn girth_ready(g: Graph, f: u64) -> bool {
    forall|h: Graph| #[trigger] contracted_by_mask(g, f, h) ==> girth_early(h) || simplify_fits(h.adj@, true)
}

/// `g` with the neighbourhoods of the vertices of the mask `f` contracted,
/// the highest first.
pub(crate) fn contract_mask(g: &Graph, f: u64) -> (h: Graph)
    requires
        g.wf(),
        forall|i: int| #[trigger] bit(f, i) ==> 0 <= i < g.num_vertices,
    ensures
        contracted_by_mask(*g, f, h),
{
    let pos = bit_positions(f);
    proof {
        lemma_bits_seq(f);
    }
    let mut forest: Vec<u8> = Vec::new();
    let mut k: usize = 0;
    while k < pos.len()
        invariant
            k <= pos@.len(),
            pos@.len() == bits_seq(f).len(),
            forall|j: int| 0 <= j < pos@.len() ==> #[trigger] pos@[j] as int == bits_seq(f)[j],
            forall|j: int| 0 <= j < bits_seq(f).len() ==> 0 <= #[trigger] bits_seq(f)[j] < g.num_vertices,
            forest@ == bits_seq(f).map_values(|i: int| i as u8).take(k as int),
        decreases pos@.len() - k,
    {
        proof {
            assert(bits_seq(f)[k as int] < g.num_vertices);
        }
        forest.push(pos[k] as u8);
        assert(forest@ =~= bits_seq(f).map_values(|i: int| i as u8).take(k as int + 1));
        k = k + 1;
    }
    assert(bits_seq(f).map_values(|i: int| i as u8).take(pos@.len() as int) =~= bits_seq(f).map_values(|i: int| i as u8));
    proof {
        assert forall|i: int| 0 <= i < forest@.len() implies #[trigger] forest@[i] < g.num_vertices by {
            assert(forest@[i] == bits_seq(f)[i] as u8);
        }
    }
    let gr = g.contract_multiple_neighborhoods(forest.as_slice());
    proof {
        assert(contracted_by_mask(*g, f, gr));
    }
    gr
}

/// Whether `g` with the forest `f` contracted has its girth in
/// `girthmin..=girthmax`; always where that range is `1..=255`.
pub fn girth_in_range(g: &Graph, f: u64, girthmin: u8, girthmax: u8) -> (r: bool)
    requires
        g.wf(),
        forall|i: int| #[trigger] bit(f, i) ==> 0 <= i < g.num_vertices,
        girth_ready(*g, f),
    ensures
        girthmin == 1 && girthmax == 255 ==> r,
        !(girthmin == 1 && girthmax == 255) ==> exists|h: Graph, p: u8|
            #[trigger] contracted_by_mask(*g, f, h) && #[trigger] girth_outcome(h, p) && (r <==> girthmin <= p <= girthmax),
{
    if girthmin == 1 && girthmax == 255 {
        return true;
    }
    let gr = contract_mask(g, f);
    let p = gr.girth();
    p >= girthmin && p <= girthmax
}

/// The vertices `p` form a walk of `d` steps from `a` to `b`, each joined to
/// the next by an edge.
pub open spec fn is_walk(g: GraphView, p: Seq<int>, a: int, b: int, d: nat) -> bool {
    &&& p.len() == d + 1
    &&& p[0] == a
    &&& p[d as int] == b
    &&& forall|i: int| 0 <= i < d ==> #[trigger] g.adjacent(p[i], p[i + 1])
}

/// There is a walk of `d` steps from `a` to `b`.
pub open spec fn walk(g: GraphView, a: int, b: int, d: nat) -> bool {
    exists|p: Seq<int>| #[trigger] is_walk(g, p, a, b, d)
}

/// A walk followed by an edge is a walk one step longer.
proof fn lemma_walk_step(g: GraphView, a: int, u: int, b: int, d: nat)
    requires
        walk(g, a, u, d),
        g.adjacent(u, b),
    ensures
        walk(g, a, b, d + 1),
{
    let p = choose|p: Seq<int>| #[trigger] is_walk(g, p, a, u, d);
    let q = p.push(b);
    assert forall|i: int| 0 <= i < d + 1 implies #[trigger] g.adjacent(q[i], q[i + 1]) by {
        if i < d {
            assert(q[i] == p[i] && q[i + 1] == p[i + 1]);
            assert(g.adjacent(p[i], p[i + 1]));
        }
    }
    assert(is_walk(g, q, a, b, d + 1));
}

/// Vertices `x` and `y` are adjacent and reached from `root` by walks of `dx`
/// and `dy` steps: together with the edge they close a walk of
/// `dx + dy + 1` steps through `root`.
pub open spec fn closing_edge(g: GraphView, root: int, x: int, y: int, dx: nat, dy: nat) -> bool {
    g.adjacent(x, y) && walk(g, root, x, dx) && walk(g, root, y, dy)
}

/// Some edge closes a walk of `len` steps through `root`.
pub open spec fn closed_walk(g: GraphView, root: int, len: int) -> bool {
    exists|x: int, y: int, dx: nat, dy: nat| #[trigger] closing_edge(g, root, x, y, dx, dy) && len == dx + dy + 1
}

/// The vertex after position `i` around the cycle `c`.
pub open spec fn cycle_next(c: Seq<int>, i: int) -> int {
    if i + 1 < c.len() { c[i + 1] } else { c[0] }
}

/// `c` is a cycle of `g`: at least three distinct vertices, each adjacent to
/// the next, and the last to the first.
pub open spec fn is_cycle(g: GraphView, c: Seq<int>) -> bool {
    &&& c.len() >= 3
    &&& forall|i: int| 0 <= i < c.len() ==> 0 <= #[trigger] c[i] < g.n
    &&& forall|i: int, j: int| 0 <= i < j < c.len() ==> #[trigger] c[i] != #[trigger] c[j]
    &&& forall|i: int| 0 <= i < c.len() ==> #[trigger] g.adjacent(c[i], cycle_next(c, i))
}

/// The state at the end of a breadth-first search from `root`: the root has
/// depth 0 and no parent, every other visited vertex is one deeper than its
/// parent, and every edge from a visited vertex leads to a visited vertex at
/// most one deeper, and is an edge of the tree or closes a walk of at least
/// `best` steps.
pub open spec fn search_closed(g: GraphView, root: int, visited: Seq<bool>, parent: Seq<u8>, dist: Seq<u8>, best: int) -> bool {
    &&& visited.len() == g.n && parent.len() == g.n && dist.len() == g.n
    &&& 0 <= root < g.n && visited[root] && dist[root] == 0 && parent[root] >= g.n
    &&& forall|a: int| 0 <= a < g.n && #[trigger] visited[a] && a != root ==> parent[a] < g.n && dist[a] == dist[parent[a] as int] + 1
    &&& forall|x: int, y: int| 0 <= x < g.n && visited[x] && #[trigger] g.adjacent(x, y) ==> 0 <= y < g.n && visited[y]
        && dist[y] <= dist[x] + 1 && (parent[y] == x || parent[x] == y || x == y || best <= dist[x] + dist[y] + 1)
}

/// Along a cycle from the root, position `i` is visited and at most `i` deep.
proof fn lemma_cycle_forward(g: GraphView, root: int, c: Seq<int>, visited: Seq<bool>, parent: Seq<u8>, dist: Seq<u8>, best: int, i: int)
    requires
        search_closed(g, root, visited, parent, dist, best),
        is_cycle(g, c),
        c[0] == root,
        0 <= i < c.len(),
    ensures
        visited[c[i]],
        dist[c[i]] <= i,
    decreases i,
{
    if i > 0 {
        lemma_cycle_forward(g, root, c, visited, parent, dist, best, i - 1);
        assert(cycle_next(c, i - 1) == c[i]);
        assert(g.adjacent(c[i - 1], cycle_next(c, i - 1)));
    }
}

/// Back along a cycle from the root, position `i` is at most `len - i` deep.
proof fn lemma_cycle_backward(g: GraphView, root: int, c: Seq<int>, visited: Seq<bool>, parent: Seq<u8>, dist: Seq<u8>, best: int, i: int)
    requires
        search_closed(g, root, visited, parent, dist, best),
        is_cycle(g, c),
        c[0] == root,
        1 <= i < c.len(),
    ensures
        dist[c[i]] <= c.len() - i,
    decreases c.len() - i,
{
    crate::components::lemma_adjacent_symmetric(g);
    let l = c.len() as int;
    if i == l - 1 {
        assert(cycle_next(c, l - 1) == c[0]);
        assert(g.adjacent(c[l - 1], cycle_next(c, l - 1)));
        assert(g.adjacent(c[0], c[l - 1]));
    } else {
        lemma_cycle_backward(g, root, c, visited, parent, dist, best, i + 1);
        lemma_cycle_forward(g, root, c, visited, parent, dist, best, i + 1);
        assert(cycle_next(c, i) == c[i + 1]);
        assert(g.adjacent(c[i], cycle_next(c, i)));
        assert(g.adjacent(c[i + 1], c[i]));
    }
}

/// A position of the first `m` with the greatest depth among them.
proof fn lemma_deepest(c: Seq<int>, dist: Seq<u8>, m: int) -> (k: int)
    requires
        1 <= m <= c.len(),
    ensures
        0 <= k < m,
        forall|i: int| 0 <= i < m ==> #[trigger] dist[c[i]] <= dist[c[k]],
    decreases m,
{
    if m > 1 {
        let k = lemma_deepest(c, dist, m - 1);
        if dist[c[m - 1]] <= dist[c[k]] {
            k
        } else {
            m - 1
        }
    } else {
        0
    }
}

/// After a breadth-first search from a vertex of a cycle, `best` is at most
/// the length of the cycle: at its deepest vertex, one of its two edges on the
/// cycle is not an edge of the tree.
proof fn lemma_cycle_bound(g: GraphView, root: int, c: Seq<int>, visited: Seq<bool>, parent: Seq<u8>, dist: Seq<u8>, best: int)
    requires
        search_closed(g, root, visited, parent, dist, best),
        is_cycle(g, c),
        c[0] == root,
    ensures
        best <= c.len(),
{
    crate::components::lemma_adjacent_symmetric(g);
    let l = c.len() as int;
    let k = lemma_deepest(c, dist, l);
    lemma_cycle_forward(g, root, c, visited, parent, dist, best, 1);
    assert(c[1] != c[0]);
    assert(visited[c[1]]);
    assert(dist[c[1]] >= 1);
    assert(dist[c[1]] <= dist[c[k]]);
    assert(k != 0);
    lemma_cycle_forward(g, root, c, visited, parent, dist, best, k);
    lemma_cycle_backward(g, root, c, visited, parent, dist, best, k);
    lemma_cycle_forward(g, root, c, visited, parent, dist, best, k - 1);
    let x = c[k];
    let prev = c[k - 1];
    let next = cycle_next(c, k);
    assert(cycle_next(c, k - 1) == x);
    assert(g.adjacent(prev, x));
    assert(g.adjacent(x, prev));
    assert(g.adjacent(x, next));
    if k + 1 < l {
        lemma_cycle_backward(g, root, c, visited, parent, dist, best, k + 1);
        assert(next == c[k + 1]);
        assert(dist[next] <= l - k - 1);
        assert(prev != next);
    } else {
        assert(next == c[0]);
        assert(dist[next] == 0);
        assert(prev != next);
    }
    assert(visited[next] && visited[prev]);
    if parent[prev] == x {
        assert(prev != root);
        assert(dist[prev] == dist[x] + 1);
        assert(dist[prev] <= dist[x]);
    }
    if parent[next] == x {
        assert(next != root);
        assert(dist[next] == dist[x] + 1);
        if k + 1 < l {
            assert(dist[c[k + 1]] <= dist[c[k]]);
        }
    }
    assert(!(parent[x] == prev && parent[x] == next));
}

/// The search tree: each visited vertex other than the root hangs from a
/// visited parent, one level up, joined to it by an edge.
pub open spec fn tree_ok(g: GraphView, root: int, visited: Seq<bool>, parent: Seq<u8>, dist: Seq<u8>) -> bool {
    &&& visited.len() == g.n && parent.len() == g.n && dist.len() == g.n
    &&& 0 <= root < g.n
    &&& visited[root]
    &&& dist[root] == 0
    &&& forall|a: int| 0 <= a < g.n && #[trigger] visited[a] && a != root ==> parent[a] < g.n
        && visited[parent[a] as int] && dist[a] == dist[parent[a] as int] + 1
        && g.adjacent(a, parent[a] as int) && g.adjacent(parent[a] as int, a)
}

/// The ancestor `k` levels above `a` in the search tree.
pub open spec fn ancestor(parent: Seq<u8>, a: int, k: nat) -> int
    decreases k,
{
    if k == 0 {
        a
    } else {
        ancestor(parent, parent[a] as int, (k - 1) as nat)
    }
}

proof fn lemma_ancestor_step(parent: Seq<u8>, a: int, k: nat)
    ensures
        ancestor(parent, a, k + 1) == parent[ancestor(parent, a, k)] as int,
    decreases k,
{
    assert(ancestor(parent, a, k + 1) == ancestor(parent, parent[a] as int, k));
    if k > 0 {
        lemma_ancestor_step(parent, parent[a] as int, (k - 1) as nat);
        assert(ancestor(parent, a, k) == ancestor(parent, parent[a] as int, (k - 1) as nat));
        assert((k - 1) as nat + 1 == k);
    } else {
        assert(ancestor(parent, parent[a] as int, 0) == parent[a] as int);
    }
}

proof fn lemma_ancestor_add(parent: Seq<u8>, a: int, i: nat, j: nat)
    ensures
        ancestor(parent, a, i + j) == ancestor(parent, ancestor(parent, a, i), j),
    decreases i,
{
    if i > 0 {
        lemma_ancestor_add(parent, parent[a] as int, (i - 1) as nat, j);
        assert((i + j - 1) as nat == (i - 1) as nat + j);
    }
}

/// The ancestors of a visited vertex, up to its depth, are visited vertices
/// one level up each time.
proof fn lemma_ancestor_valid(g: GraphView, root: int, visited: Seq<bool>, parent: Seq<u8>, dist: Seq<u8>, a: int, k: nat)
    requires
        tree_ok(g, root, visited, parent, dist),
        0 <= a < g.n,
        visited[a],
        k <= dist[a],
    ensures
        0 <= ancestor(parent, a, k) < g.n,
        visited[ancestor(parent, a, k)],
        dist[ancestor(parent, a, k)] == dist[a] - k,
    decreases k,
{
    if k > 0 {
        lemma_ancestor_valid(g, root, visited, parent, dist, a, (k - 1) as nat);
        lemma_ancestor_step(parent, a, (k - 1) as nat);
        let b = ancestor(parent, a, (k - 1) as nat);
        assert(b != root);
    }
}

/// The vertex at depth `d` on the tree path from the root to `a`.
pub open spec fn at_depth(parent: Seq<u8>, dist: Seq<u8>, a: int, d: int) -> int {
    ancestor(parent, a, (dist[a] - d) as nat)
}

/// The deepest depth up to `d` at which the tree paths to `x` and `y` meet.
proof fn lemma_deepest_common(parent: Seq<u8>, dist: Seq<u8>, x: int, y: int, d: int) -> (e: int)
    requires
        0 <= d,
        at_depth(parent, dist, x, 0) == at_depth(parent, dist, y, 0),
    ensures
        0 <= e <= d,
        at_depth(parent, dist, x, e) == at_depth(parent, dist, y, e),
        forall|f: int| e < f <= d ==> #[trigger] at_depth(parent, dist, x, f) != at_depth(parent, dist, y, f),
    decreases d,
{
    if d == 0 || at_depth(parent, dist, x, d) == at_depth(parent, dist, y, d) {
        d
    } else {
        let e = lemma_deepest_common(parent, dist, x, y, d - 1);
        e
    }
}

/// Where the tree paths to `x` and `y` meet at depth `e`, they meet at every
/// depth above.
proof fn lemma_meet_above(g: GraphView, root: int, visited: Seq<bool>, parent: Seq<u8>, dist: Seq<u8>, x: int, y: int, e: int, f: int)
    requires
        tree_ok(g, root, visited, parent, dist),
        0 <= x < g.n && visited[x],
        0 <= y < g.n && visited[y],
        0 <= f <= e <= dist[x] && e <= dist[y],
        at_depth(parent, dist, x, e) == at_depth(parent, dist, y, e),
    ensures
        at_depth(parent, dist, x, f) == at_depth(parent, dist, y, f),
{
    lemma_ancestor_add(parent, x, (dist[x] - e) as nat, (e - f) as nat);
    lemma_ancestor_add(parent, y, (dist[y] - e) as nat, (e - f) as nat);
    assert((dist[x] - e) as nat + (e - f) as nat == (dist[x] - f) as nat);
    assert((dist[y] - e) as nat + (e - f) as nat == (dist[y] - f) as nat);
}

/// The vertex at depth `d` on the path to `a` is visited and has depth `d`;
/// below the root it hangs from the vertex at depth `d - 1`.
proof fn lemma_at_depth(g: GraphView, root: int, visited: Seq<bool>, parent: Seq<u8>, dist: Seq<u8>, a: int, d: int)
    requires
        tree_ok(g, root, visited, parent, dist),
        0 <= a < g.n && visited[a],
        0 <= d <= dist[a],
    ensures
        0 <= at_depth(parent, dist, a, d) < g.n,
        visited[at_depth(parent, dist, a, d)],
        dist[at_depth(parent, dist, a, d)] == d,
        d == 0 ==> at_depth(parent, dist, a, d) == root,
        d > 0 ==> at_depth(parent, dist, a, d) != root
            && parent[at_depth(parent, dist, a, d)] as int == at_depth(parent, dist, a, d - 1)
            && g.adjacent(at_depth(parent, dist, a, d), at_depth(parent, dist, a, d - 1))
            && g.adjacent(at_depth(parent, dist, a, d - 1), at_depth(parent, dist, a, d)),
{
    lemma_ancestor_valid(g, root, visited, parent, dist, a, (dist[a] - d) as nat);
    let b = at_depth(parent, dist, a, d);
    if d == 0 {
        if b != root {
            assert(dist[b] == dist[parent[b] as int] + 1);
        }
    } else {
        assert(b != root);
        lemma_ancestor_step(parent, a, (dist[a] - d) as nat);
        assert((dist[a] - d) as nat + 1 == (dist[a] - (d - 1)) as nat);
    }
}

/// An edge from `x` to `y` off the search tree closes a cycle of at most
/// `d(x) + d(y) + 1` vertices: down the tree path to `x`, across the edge,
/// and up the tree path from `y` to where the two paths meet.
proof fn lemma_cycle_from_edge(g: GraphView, root: int, visited: Seq<bool>, parent: Seq<u8>, dist: Seq<u8>, x: int, y: int)
    requires
        tree_ok(g, root, visited, parent, dist),
        0 <= x < g.n && visited[x],
        0 <= y < g.n && visited[y],
        x != y,
        g.adjacent(x, y),
        g.adjacent(y, x),
        x == root || parent[x] as int != y,
        y == root || parent[y] as int != x,
    ensures
        exists|c: Seq<int>| #[trigger] is_cycle(g, c) && c.len() <= dist[x] + dist[y] + 1,
{
    let dx = dist[x] as int;
    let dy = dist[y] as int;
    lemma_at_depth(g, root, visited, parent, dist, x, 0);
    lemma_at_depth(g, root, visited, parent, dist, y, 0);
    let m = if dx <= dy { dx } else { dy };
    let e = lemma_deepest_common(parent, dist, x, y, m);
    let px = |d: int| at_depth(parent, dist, x, d);
    let py = |d: int| at_depth(parent, dist, y, d);
    assert(at_depth(parent, dist, x, dx) == x);
    assert(at_depth(parent, dist, y, dy) == y);
    let a = dx - e;
    let b = dy - e;
    let l = a + b + 1;
    // not too short
    if a == 0 && b == 0 {
        assert(false);
    } else if a == 1 && b == 0 {
        lemma_at_depth(g, root, visited, parent, dist, x, dx);
        assert(false);
    } else if a == 0 && b == 1 {
        lemma_at_depth(g, root, visited, parent, dist, y, dy);
        assert(false);
    }
    let c = Seq::new(l as nat, |i: int| if i <= a { at_depth(parent, dist, x, e + i) } else { at_depth(parent, dist, y, dy - (i - a - 1)) });
    assert forall|i: int| 0 <= i < c.len() implies 0 <= #[trigger] c[i] < g.n && dist[c[i]] == (if i <= a { e + i } else { dy - (i - a - 1) }) by {
        if i <= a {
            lemma_at_depth(g, root, visited, parent, dist, x, e + i);
        } else {
            lemma_at_depth(g, root, visited, parent, dist, y, dy - (i - a - 1));
        }
    }
    assert forall|i: int, j: int| 0 <= i < j < c.len() implies #[trigger] c[i] != #[trigger] c[j] by {
        let di = dist[c[i]];
        let dj = dist[c[j]];
        if j <= a || i > a {
            assert(di != dj);
        } else if c[i] == c[j] {
            let f = e + i;
            assert(dj == dy - (j - a - 1));
            assert(f == dy - (j - a - 1));
            assert(e < f <= m);
            assert(at_depth(parent, dist, x, f) == at_depth(parent, dist, y, f));
        }
    }
    assert forall|i: int| 0 <= i < c.len() implies #[trigger] g.adjacent(c[i], cycle_next(c, i)) by {
        if i < a {
            lemma_at_depth(g, root, visited, parent, dist, x, e + i + 1);
        } else if i == a {
            if b > 0 {
                assert(cycle_next(c, i) == c[a + 1]);
                assert(c[a + 1] == y);
            } else {
                assert(cycle_next(c, i) == c[0]);
                assert(c[0] == at_depth(parent, dist, y, e));
                assert(e == dy);
            }
        } else if i + 1 < c.len() {
            lemma_at_depth(g, root, visited, parent, dist, y, dy - (i - a - 1));
            assert(c[i + 1] == at_depth(parent, dist, y, dy - (i - a - 1) - 1));
        } else {
            assert(i == a + b);
            lemma_at_depth(g, root, visited, parent, dist, y, e + 1);
            assert(c[i] == at_depth(parent, dist, y, e + 1));
            assert(cycle_next(c, i) == c[0]);
        }
    }
    assert(is_cycle(g, c));
}

/// The girth is the least length of a cycle: outside the loop, multiple-edge
/// and tree cases, in the simplified graph no cycle is shorter than the
/// result, and where there is a cycle the result is the length of one;
/// where there is none, the result is one more than the order.
pub proof fn lemma_girth_least_cycle(g: Graph, r: u8)
    requires
        girth_outcome(g, r),
        !girth_early(g),
    ensures
        exists|h: Graph| #[trigger] simplified_graph(g, h) && least_cycle_length(h, r),
{
    let h = choose|h: Graph| #[trigger] simplified_graph(g, h) && h.num_vertices <= g.num_vertices
        && girth_found(h, r) && no_shorter_cycle(h, r) && girth_is_cycle(h, r);
    if exists|c: Seq<int>| #[trigger] is_cycle(h@, c) {
        let c0 = choose|c: Seq<int>| #[trigger] is_cycle(h@, c);
        lemma_cycle_len(h@, c0);
        assert(r <= c0.len());
    }
    assert(least_cycle_length(h, r));
}

/// `r` is the least length of a cycle of `h`, or one more than the order of
/// `h` where it has no cycle.
pub open spec fn least_cycle_length(h: Graph, r: u8) -> bool {
    &&& forall|c: Seq<int>| #[trigger] is_cycle(h@, c) ==> r <= c.len()
    &&& (exists|c: Seq<int>| #[trigger] is_cycle(h@, c)) ==> exists|c: Seq<int>| #[trigger] is_cycle(h@, c) && c.len() == r
    &&& !(exists|c: Seq<int>| #[trigger] is_cycle(h@, c)) ==> r == h.num_vertices + 1
}

/// A cycle has at most as many vertices as the graph.
proof fn lemma_cycle_len(g: GraphView, c: Seq<int>)
    requires
        is_cycle(g, c),
    ensures
        c.len() <= g.n,
{
    let f = |i: int| c[i];
    assert forall|i: int, j: int| 0 <= i < c.len() && 0 <= j < c.len() && #[trigger] f(i) == #[trigger] f(j) implies i == j by {
        if i < j {
            assert(c[i] != c[j]);
        } else if j < i {
            assert(c[j] != c[i]);
        }
    }
    crate::partition::lemma_injection_bound(c.len() as int, g.n as int, f);
}

/// The edge from `x` to `y` is settled in the search: `y` is visited, at most
/// one deeper than `x`, and the edge is an edge of the tree or closes a walk
/// of at least `g` steps.
pub open spec fn edge_settled(n: int, visited: Seq<bool>, parent: Seq<u8>, dist: Seq<u8>, g: int, x: int, y: int) -> bool {
    &&& 0 <= y < n
    &&& visited[y]
    &&& dist[y] <= dist[x] + 1
    &&& (parent[y] == x || parent[x] == y || x == y || g <= dist[x] + dist[y] + 1)
}

/// One breadth-first search from `root` in a simple graph, lowering `best` to
/// `d(x) + d(y) + 1` for each edge from a visited vertex `x` to an already
/// discovered vertex `y` other than its parent, `d` the depth in the search.
/// Where the result is below `best`, it is the length of a walk through
/// `root` closed by an edge, its two ends reached from `root` by walks of
/// their depths; and it is at most the length of every cycle through `root`.
#[verifier::rlimit(40)]
fn search_from(graph: &Graph, root: u8, best: u8) -> (r: u8)
    requires
        graph.wf(),
        graph.num_vertices <= 64,
        root < graph.num_vertices,
    ensures
        r <= best,
        r == best || closed_walk(graph@, root as int, r as int),
        r == best || exists|c: Seq<int>| #[trigger] is_cycle(graph@, c) && c.len() <= r,
        forall|c: Seq<int>| #[trigger] is_cycle(graph@, c) && c[0] == root ==> r <= c.len(),
{
    let n = graph.num_vertices;
    let mut visited: Vec<bool> = Vec::new();
    let mut parent: Vec<u8> = Vec::new();
    let mut dist: Vec<u8> = Vec::new();
    let mut k: u8 = 0;
    while k < n
        invariant
            k <= n,
            n <= 64,
            visited@.len() == k,
            forall|a: int| 0 <= a < k ==> #[trigger] dist@[a] == 0,
            forall|a: int| 0 <= a < k ==> #[trigger] parent@[a] == n + 1,
            parent@.len() == k,
            dist@.len() == k,
            forall|a: int| 0 <= a < k ==> !#[trigger] visited@[a],
        decreases n - k,
    {
        visited.push(false);
        parent.push(n + 1);
        dist.push(0);
        k = k + 1;
    }
    let mut queue: Vec<u8> = Vec::new();
    queue.push(root);
    visited.set(root as usize, true);
    proof {
        assert(queue@ == seq![root]);
        assert forall|a: int| 0 <= a < n implies (#[trigger] visited@[a] <==> queue@.contains(a as u8)) by {
            if queue@.contains(a as u8) {
                let i = choose|i: int| 0 <= i < queue@.len() && queue@[i] == a as u8;
                assert(i == 0);
            }
            if a == root {
                assert(queue@[0] == a as u8);
            }
        }
    }
    proof {
        assert forall|a: int| 0 <= a < n && #[trigger] visited@[a] implies walk(graph@, root as int, a, dist@[a] as nat) by {
            if a != root {
                assert(queue@.contains(a as u8));
            }
            assert(is_walk(graph@, seq![root as int], root as int, root as int, 0));
        }
        assert forall|a: int| 0 <= a < n && #[trigger] visited@[a] && a != root implies parent@[a] < n
            && visited@[parent@[a] as int] && dist@[a] == dist@[parent@[a] as int] + 1 by {
            assert(queue@.contains(a as u8));
        }
    }
    let mut g = best;
    let mut head: usize = 0;
    while head < queue.len()
        invariant
            graph.wf(),
            n == graph.num_vertices,
            n <= 64,
            root < n,
            visited@.len() == n,
            parent@.len() == n,
            dist@.len() == n,
            head <= queue@.len(),
            queue@.len() >= 1,
            queue@.no_duplicates(),
            forall|i: int| 0 <= i < queue@.len() ==> #[trigger] queue@[i] < n,
            forall|a: int| 0 <= a < n ==> (#[trigger] visited@[a] <==> queue@.contains(a as u8)),
            forall|i: int| 0 <= i < queue@.len() ==> #[trigger] dist@[queue@[i] as int] <= i,
            g <= best,
            forall|a: int| 0 <= a < n && #[trigger] visited@[a] ==> walk(graph@, root as int, a, dist@[a] as nat),
            g == best || closed_walk(graph@, root as int, g as int),
            g == best || exists|c: Seq<int>| #[trigger] is_cycle(graph@, c) && c.len() <= g,
            forall|a: int| 0 <= a < n && #[trigger] visited@[a] && a != root ==>
                graph@.adjacent(a, parent@[a] as int) && graph@.adjacent(parent@[a] as int, a),
            visited@[root as int],
            dist@[root as int] == 0,
            parent@[root as int] == n + 1,
            forall|a: int| 0 <= a < n && #[trigger] visited@[a] && a != root ==> parent@[a] < n
                && visited@[parent@[a] as int] && dist@[a] == dist@[parent@[a] as int] + 1,
            forall|i: int, j: int| 0 <= i < j < queue@.len() ==> dist@[#[trigger] queue@[i] as int] <= dist@[#[trigger] queue@[j] as int],
            head == 0 ==> queue@.len() == 1 && queue@[0] == root,
            head > 0 ==> forall|j: int| 0 <= j < queue@.len() ==> #[trigger] dist@[queue@[j] as int] <= dist@[queue@[head - 1] as int] + 1,
            forall|i: int, y: int| 0 <= i < head && #[trigger] graph@.adjacent(queue@[i] as int, y)
                ==> edge_settled(n as int, visited@, parent@, dist@, g as int, queue@[i] as int, y),
        decreases n - head,
    {
        proof {
            lemma_queue_bound(queue@, n as int);
        }
        let ghost old_head = head;
        let x = queue[head];
        head = head + 1;
        proof {
            assert forall|j: int| 0 <= j < queue@.len() implies #[trigger] dist@[queue@[j] as int] <= dist@[x as int] + 1 by {
                if old_head > 0 {
                    assert(dist@[queue@[old_head - 1] as int] <= dist@[queue@[old_head as int] as int]);
                }
            }
            assert(visited@[x as int]) by {
                assert(queue@.contains(x));
            }
        }
        let ys = bit_positions(graph.adj[x as usize]);
        proof {
            lemma_bits_seq(graph.adj@[x as int]);
        }
        let mut t: usize = 0;
        while t < ys.len()
            invariant
                graph.wf(),
                n == graph.num_vertices,
                n <= 64,
                root < n,
                x < n,
                1 <= head <= queue@.len(),
                queue@[head - 1] == x,
                visited@.len() == n,
                parent@.len() == n,
                dist@.len() == n,
                queue@.no_duplicates(),
                forall|i: int| 0 <= i < queue@.len() ==> #[trigger] queue@[i] < n,
                forall|a: int| 0 <= a < n ==> (#[trigger] visited@[a] <==> queue@.contains(a as u8)),
                forall|i: int| 0 <= i < queue@.len() ==> #[trigger] dist@[queue@[i] as int] <= i,
                ys@.len() == bits_seq(graph.adj@[x as int]).len(),
                forall|s: int| 0 <= s < ys@.len() ==> #[trigger] ys@[s] as int == bits_seq(graph.adj@[x as int])[s],
                forall|s: int| 0 <= s < bits_seq(graph.adj@[x as int]).len() ==> bit(graph.adj@[x as int], #[trigger] bits_seq(graph.adj@[x as int])[s]),
                forall|i: int| bits_seq(graph.adj@[x as int]).contains(i) <==> #[trigger] bit(graph.adj@[x as int], i),
                t <= ys@.len(),
                g <= best,
                forall|a: int| 0 <= a < n && #[trigger] visited@[a] ==> walk(graph@, root as int, a, dist@[a] as nat),
                g == best || closed_walk(graph@, root as int, g as int),
                g == best || exists|c: Seq<int>| #[trigger] is_cycle(graph@, c) && c.len() <= g,
                forall|a: int| 0 <= a < n && #[trigger] visited@[a] && a != root ==>
                    graph@.adjacent(a, parent@[a] as int) && graph@.adjacent(parent@[a] as int, a),
                visited@[root as int],
                visited@[x as int],
                dist@[root as int] == 0,
                parent@[root as int] == n + 1,
                forall|a: int| 0 <= a < n && #[trigger] visited@[a] && a != root ==> parent@[a] < n
                    && visited@[parent@[a] as int] && dist@[a] == dist@[parent@[a] as int] + 1,
                forall|i: int, j: int| 0 <= i < j < queue@.len() ==> dist@[#[trigger] queue@[i] as int] <= dist@[#[trigger] queue@[j] as int],
                forall|j: int| 0 <= j < queue@.len() ==> #[trigger] dist@[queue@[j] as int] <= dist@[x as int] + 1,
                forall|i: int, y: int| 0 <= i < head - 1 && #[trigger] graph@.adjacent(queue@[i] as int, y)
                    ==> edge_settled(n as int, visited@, parent@, dist@, g as int, queue@[i] as int, y),
                forall|s: int| 0 <= s < t ==> edge_settled(n as int, visited@, parent@, dist@, g as int, x as int, #[trigger] ys@[s] as int),
            decreases ys@.len() - t,
        {
            let y = ys[t];
            proof {
                assert(bit(graph.adj@[x as int], bits_seq(graph.adj@[x as int])[t as int]));
                assert(graph@.adjacent(x as int, y as int));
                lemma_neighbour_within(graph, x as int, y as int);
                assert(dist@[queue@[head - 1] as int] <= head - 1);
            }
            if y != parent[x as usize] as usize {
                if !visited[y] {
                    proof {
                        lemma_queue_bound(queue@, n as int);
                        if queue@.contains(y as u8) {
                            assert(visited@[y as int]);
                        }
                    }
                    let ghost q0 = queue@;
                    let ghost d0 = dist@;
                    let ghost v0 = visited@;
                    let ghost p0 = parent@;
                    proof {
                        assert(walk(graph@, root as int, x as int, d0[x as int] as nat));
                    }
                    visited.set(y, true);
                    parent.set(y, x);
                    dist.set(y, dist[x as usize] + 1);
                    queue.push(y as u8);
                    proof {
                        assert(visited@[x as int]);
                        assert forall|a: int| 0 <= a < n && #[trigger] visited@[a] implies walk(graph@, root as int, a, dist@[a] as nat) by {
                            if a == y {
                                let dd: nat = d0[x as int] as nat;
                                assert(dist@[a] as nat == dd + 1);
                                lemma_walk_step(graph@, root as int, x as int, a, dd);
                            } else {
                                assert(dist@[a] == d0[a]);
                                assert(visited@[a] == v0[a]);
                                assert(v0[a]);
                            }
                        }
                        assert forall|a: int| 0 <= a < n implies (#[trigger] visited@[a] <==> queue@.contains(a as u8)) by {
                            if a == y {
                                assert(queue@[q0.len() as int] == a as u8);
                            } else {
                                if queue@.contains(a as u8) {
                                    let i = choose|i: int| 0 <= i < queue@.len() && queue@[i] == a as u8;
                                    if i < q0.len() {
                                        assert(q0[i] == a as u8);
                                    }
                                }
                                if q0.contains(a as u8) {
                                    let i = choose|i: int| 0 <= i < q0.len() && q0[i] == a as u8;
                                    assert(queue@[i] == a as u8);
                                }
                            }
                        }
                        assert forall|i: int| 0 <= i < queue@.len() implies #[trigger] dist@[queue@[i] as int] <= i by {
                            if i < q0.len() {
                                assert(queue@[i] == q0[i]);
                                assert(q0[i] != y as u8);
                            }
                        }
                        assert forall|a: int| 0 <= a < n && #[trigger] visited@[a] && a != root implies parent@[a] < n
                            && visited@[parent@[a] as int] && dist@[a] == dist@[parent@[a] as int] + 1 by {
                            if a != y {
                                assert(v0[a]);
                                assert(v0[p0[a] as int]);
                                assert(p0[a] != y);
                            }
                        }
                        crate::components::lemma_adjacent_symmetric(graph@);
                        assert forall|a: int| 0 <= a < n && #[trigger] visited@[a] && a != root implies
                            graph@.adjacent(a, parent@[a] as int) && graph@.adjacent(parent@[a] as int, a) by {
                            if a != y {
                                assert(v0[a]);
                            }
                        }
                        assert forall|i: int, j: int| 0 <= i < j < queue@.len() implies dist@[#[trigger] queue@[i] as int] <= dist@[#[trigger] queue@[j] as int] by {
                            assert(queue@[i] == q0[i]);
                            assert(q0[i] != y as u8);
                            if j < q0.len() {
                                assert(queue@[j] == q0[j]);
                                assert(q0[j] != y as u8);
                            }
                        }
                        assert forall|j: int| 0 <= j < queue@.len() implies #[trigger] dist@[queue@[j] as int] <= dist@[x as int] + 1 by {
                            if j < q0.len() {
                                assert(queue@[j] == q0[j]);
                                assert(q0[j] != y as u8);
                            }
                        }
                        assert forall|i: int, w: int| 0 <= i < head - 1 && #[trigger] graph@.adjacent(queue@[i] as int, w)
                            implies edge_settled(n as int, visited@, parent@, dist@, g as int, queue@[i] as int, w) by {
                            assert(queue@[i] == q0[i]);
                            assert(edge_settled(n as int, v0, p0, d0, g as int, q0[i] as int, w));
                            assert(q0.contains(q0[i]));
                            assert(v0[q0[i] as int]);
                        }
                        assert forall|s: int| 0 <= s < t + 1 implies edge_settled(n as int, visited@, parent@, dist@, g as int, x as int, #[trigger] ys@[s] as int) by {
                            if s < t {
                                assert(edge_settled(n as int, v0, p0, d0, g as int, x as int, ys@[s] as int));
                                assert(ys@[s] != y) by {
                                    assert(v0[ys@[s] as int]);
                                }
                            }
                        }
                    }
                } else if y != x as usize && parent[y] != x {
                    let c = dist[x as usize] as u16 + dist[y] as u16 + 1;
                    proof {
                        let i = choose|i: int| 0 <= i < queue@.len() && queue@[i] == y as u8;
                        assert(dist@[queue@[i] as int] <= i);
                        assert(dist@[queue@[i] as int] <= dist@[x as int] + 1);
                        lemma_queue_bound(queue@, n as int);
                    }
                    if c < g as u16 {
                        proof {
                            assert(walk(graph@, root as int, x as int, dist@[x as int] as nat));
                            assert(walk(graph@, root as int, y as int, dist@[y as int] as nat));
                            assert(closing_edge(graph@, root as int, x as int, y as int, dist@[x as int] as nat, dist@[y as int] as nat));
                            crate::components::lemma_adjacent_symmetric(graph@);
                            assert(tree_ok(graph@, root as int, visited@, parent@, dist@));
                            lemma_cycle_from_edge(graph@, root as int, visited@, parent@, dist@, x as int, y as int);
                        }
                        g = c as u8;
                    }
                }
            } else {
                proof {
                    assert(x != root) by {
                        if x == root {
                            assert(parent@[x as int] == n + 1);
                        }
                    }
                    assert(parent@[x as int] == y);
                }
            }
            t = t + 1;
        }
        proof {
            assert forall|i: int, y: int| 0 <= i < head && #[trigger] graph@.adjacent(queue@[i] as int, y)
                implies edge_settled(n as int, visited@, parent@, dist@, g as int, queue@[i] as int, y) by {
                if i == head - 1 {
                    assert(bit(graph.adj@[x as int], y));
                    assert(bits_seq(graph.adj@[x as int]).contains(y));
                    let s = choose|s: int| 0 <= s < bits_seq(graph.adj@[x as int]).len() && bits_seq(graph.adj@[x as int])[s] == y;
                    assert(ys@[s] as int == y);
                }
            }
        }
    }
    proof {
        let gv = graph@;
        assert(search_closed(gv, root as int, visited@, parent@, dist@, g as int)) by {
            assert forall|xx: int, yy: int| 0 <= xx < gv.n && visited@[xx] && #[trigger] gv.adjacent(xx, yy) implies 0 <= yy < gv.n && visited@[yy]
                && dist@[yy] <= dist@[xx] + 1 && (parent@[yy] == xx || parent@[xx] == yy || xx == yy || g <= dist@[xx] + dist@[yy] + 1) by {
                assert(queue@.contains(xx as u8));
                let i = choose|i: int| 0 <= i < queue@.len() && queue@[i] == xx as u8;
                assert(graph@.adjacent(queue@[i] as int, yy));
                assert(edge_settled(n as int, visited@, parent@, dist@, g as int, queue@[i] as int, yy));
            }
        }
        assert forall|c: Seq<int>| #[trigger] is_cycle(gv, c) && c[0] == root implies g <= c.len() by {
            lemma_cycle_bound(gv, root as int, c, visited@, parent@, dist@, g as int);
        }
    }
    g
}

/// A neighbour of a vertex of a well-formed graph is one of its vertices.
proof fn lemma_neighbour_within(graph: &Graph, x: int, y: int)
    requires
        graph.wf(),
        graph@.adjacent(x, y),
    ensures
        0 <= y < graph.num_vertices,
{
    let k = choose|k: int| 0 <= k < graph.edges@.len() && #[trigger] crate::graph::edge_joins(graph.edges@[k], x, y);
    assert(graph.edges@[k].0 < graph.num_vertices && graph.edges@[k].1 < graph.num_vertices);
}

/// A queue without repeats of vertices below `n` holds at most `n` of them.
proof fn lemma_queue_bound(q: Seq<u8>, n: int)
    requires
        q.no_duplicates(),
        forall|i: int| 0 <= i < q.len() ==> #[trigger] q[i] < n,
        0 <= n,
    ensures
        q.len() <= n,
{
    let s = q.to_set();
    let r = Set::new(|x: u8| x < n);
    assert(s.subset_of(r));
    q.unique_seq_to_set();
    assert(r =~= Set::new(|x: u8| 0 <= x < n));
    lemma_u8_range_len(n);
    vstd::set_lib::lemma_len_subset(s, r);
}

/// The bytes below `n` number `n` (for `n` up to 256).
proof fn lemma_u8_range_len(n: int)
    requires
        0 <= n,
    ensures
        Set::new(|x: u8| x < n).finite(),
        Set::new(|x: u8| x < n).len() <= n,
    decreases n,
{
    if n == 0 {
        assert(Set::new(|x: u8| x < n) =~= Set::<u8>::empty());
    } else {
        lemma_u8_range_len(n - 1);
        if n <= 256 {
            assert(Set::new(|x: u8| x < n) =~= Set::new(|x: u8| x < n - 1).insert((n - 1) as u8));
        } else {
            assert(Set::new(|x: u8| x < n) =~= Set::new(|x: u8| x < n - 1));
        }
    }
}

impl Graph {
    /// The girth of a graph in the bipartite form: 1 where there is a loop, 2
    /// where there is a multiple edge, 0 for a tree (one more vertex than
    /// edges, counted modulo 256), and otherwise the least cycle length that
    /// a breadth-first search from each vertex of the simplified graph finds,
    /// or one more than its order where it finds none.
    pub fn girth(&self) -> (r: u8)
        requires
            self.wf(),
            girth_early(*self) || simplify_fits(self.adj@, true),
        ensures
            girth_outcome(*self, r),
    {
        if self.contains_loop() {
            return 1;
        }
        if self.is_multigraph() {
            return 2;
        }
        let e = self.edges.len();
        let e1 = ((e % 256 + 1) % 256) as u8;
        proof {
            assert((e % 256 + 1) % 256 == (e + 1) % 256) by (nonlinear_arith);
        }
        if self.num_vertices == e1 {
            return 0;
        }
        let (graph, entries) = self.simplify(true);
        proof {
            assert(graph.built_from(rank_below(self.adj@, self.adj@.len() as int), entries@.map_values(|e: ((u8, u8), u8)| e.0)));
            assert(simplified_by(*self, graph, entries@));
            assert(simplified_graph(*self, graph));
        }
        proof {
            assert(graph.num_vertices <= self.num_vertices) by {
                crate::relabel::lemma_rank_bound(self.adj@, self.adj@.len() as int);
            }
        }
        let gn = graph.num_vertices;
        let mut g: u8 = gn + 1;
        let mut v: u8 = 0;
        while v < gn
            invariant
                graph.wf(),
                gn == graph.num_vertices,
                gn <= 64,
                v <= gn,
                g <= gn + 1,
                girth_found(graph, g),
                g == gn + 1 || exists|c: Seq<int>| #[trigger] is_cycle(graph@, c) && c.len() <= g,
                forall|c: Seq<int>| #[trigger] is_cycle(graph@, c) && c[0] < v ==> g <= c.len(),
            decreases gn - v,
        {
            let ghost before = g;
            g = search_from(&graph, v, g);
            proof {
                if g != before {
                    assert(closed_walk(graph@, v as int, g as int));
                    let (x, y, dx, dy) = choose|x: int, y: int, dx: nat, dy: nat| #[trigger] closing_edge(graph@, v as int, x, y, dx, dy) && g == dx + dy + 1;
                    assert(g >= 1);
                }
            }
            v = v + 1;
        }
        proof {
            assert forall|c: Seq<int>| #[trigger] is_cycle(graph@, c) implies g <= c.len() by {
                assert(0 <= c[0] < graph@.n);
            }
            if g == gn + 1 {
                assert forall|c: Seq<int>| !#[trigger] is_cycle(graph@, c) by {
                    if is_cycle(graph@, c) {
                        lemma_cycle_len(graph@, c);
                        assert(0 <= c[0] < graph@.n);
                    }
                }
            }
            assert(no_shorter_cycle(graph, g));
            if g != gn + 1 {
                let c = choose|c: Seq<int>| #[trigger] is_cycle(graph@, c) && c.len() <= g;
                assert(g <= c.len());
                assert(girth_is_cycle(graph, g));
            }
            assert(simplified_graph(*self, graph) && graph.num_vertices <= self.num_vertices && girth_found(graph, g));
        }
        g
    }
}

} // verus!
