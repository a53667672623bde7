//! Edge and vertex connectivity of graphs in the bipartite form, tested by
//! removing vertices and counting components.
use vstd::prelude::*;
use crate::graph::{Graph, GraphView, vertices_with_valency, lemma_vertices_with_valency};
use crate::components::{is_component_labelling, label_used};
use crate::ktuples::{get_ktuples, ktuples, ktuples_from, increasing_u8, lemma_ktuples_increasing};
use crate::reach::{lemma_reach_sym, lemma_reach_trans};

verus! {

/// Remove the vertices of `kt`, the last one first.
pub open spec fn remove_all(g: GraphView, kt: Seq<u8>) -> GraphView
    decreases kt.len(),
{
    if kt.len() == 0 {
        g
    } else {
        remove_all(g.remove_vertex(kt.last() as int), kt.drop_last())
    }
}

/// `x` is a component by itself.
pub open spec fn isolated(h: GraphView, x: int) -> bool {
    &&& 0 <= x < h.n
    &&& forall|y: int| 0 <= y < h.n && #[trigger] h.reachable(x, y) ==> y == x
}

/// After removing `kt` the graph is still connected, or, when `proper` is set,
/// one of its components is a single vertex.
pub open spec fn survives_removal(g: GraphView, kt: Seq<u8>, proper: bool) -> bool {
    let h = remove_all(g, kt);
    h.connected() || (proper && exists|x: int| #[trigger] isolated(h, x))
}

/// The valency-2 vertices of `g`, in increasing order.
pub open spec fn valency2_vertices(g: &Graph) -> Seq<u8> {
    vertices_with_valency(g, 2, 2, g.num_vertices as int)
}

/// `g` is connected, and stays connected (in the sense of `survives_removal`)
/// after removing any `j - 1` of its valency-2 vertices, for every `j` from 2
/// to `k`.
pub open spec fn k_edge_connected(g: &Graph, k: nat, proper: bool) -> bool
    decreases k,
{
    if k <= 1 {
        g@.connected()
    } else {
        k_edge_connected(g, (k - 1) as nat, proper) && {
            let kts = ktuples(valency2_vertices(g), (k - 1) as nat);
            forall|t: int| 0 <= t < kts.len() ==> survives_removal(g@, #[trigger] kts[t], proper)
        }
    }
}

/// Removing two vertices `a > b` of the list `vs` always leaves the graph connected.
pub open spec fn survives_pair_removals(g: &Graph, vs: Seq<u8>) -> bool {
    forall|a: int, b: int|
        0 <= a < vs.len() && 0 <= b < vs.len() && vs[b] < vs[a] ==> (#[trigger] g@.remove_vertex(
            vs[a] as int,
        ).remove_vertex(#[trigger] vs[b] as int)).connected()
}

proof fn lemma_increasing_gap(kt: Seq<u8>, i: int)
    requires
        increasing_u8(kt),
        0 <= i < kt.len(),
    ensures
        kt[i] + (kt.len() - 1 - i) <= kt[kt.len() - 1],
    decreases kt.len() - i,
{
    if i < kt.len() - 1 {
        lemma_increasing_gap(kt, i + 1);
    }
}

/// The number of vertices below `upto` labelled `c`.
pub open spec fn count_label(labels: Seq<u8>, c: int, upto: int) -> nat
    decreases upto,
{
    if upto <= 0 {
        0
    } else {
        count_label(labels, c, upto - 1) + (if labels[upto - 1] == c {
            1nat
        } else {
            0nat
        })
    }
}

proof fn lemma_count_label_one(labels: Seq<u8>, c: int, upto: int, x: int)
    requires
        0 <= x < upto <= labels.len(),
        labels[x] == c,
        forall|y: int| 0 <= y < upto && labels[y] == c ==> y == x,
    ensures
        count_label(labels, c, upto) == 1,
    decreases upto,
{
    if upto - 1 > x {
        lemma_count_label_one(labels, c, upto - 1, x);
    } else {
        lemma_count_label_zero(labels, c, upto - 1);
    }
}

proof fn lemma_count_label_zero(labels: Seq<u8>, c: int, upto: int)
    requires
        0 <= upto <= labels.len(),
        forall|y: int| 0 <= y < upto ==> labels[y] != c,
    ensures
        count_label(labels, c, upto) == 0,
    decreases upto,
{
    if upto > 0 {
        lemma_count_label_zero(labels, c, upto - 1);
    }
}

proof fn lemma_count_label_two(labels: Seq<u8>, c: int, upto: int, x: int, y: int)
    requires
        0 <= x < upto <= labels.len(),
        0 <= y < upto,
        x != y,
        labels[x] == c,
        labels[y] == c,
    ensures
        count_label(labels, c, upto) >= 2,
    decreases upto,
{
    if upto - 1 != x && upto - 1 != y {
        lemma_count_label_two(labels, c, upto - 1, x, y);
    } else {
        let z = if upto - 1 == x { y } else { x };
        lemma_count_label_pos(labels, c, upto - 1, z);
    }
}

proof fn lemma_count_label_pos(labels: Seq<u8>, c: int, upto: int, x: int)
    requires
        0 <= x < upto <= labels.len(),
        labels[x] == c,
    ensures
        count_label(labels, c, upto) >= 1,
    decreases upto,
{
    if upto - 1 != x {
        lemma_count_label_pos(labels, c, upto - 1, x);
    }
}

proof fn lemma_count_label_witness(labels: Seq<u8>, c: int, upto: int)
    requires
        0 <= upto <= labels.len(),
        count_label(labels, c, upto) > 0,
    ensures
        exists|x: int| 0 <= x < upto && labels[x] == c,
    decreases upto,
{
    if labels[upto - 1] != c {
        lemma_count_label_witness(labels, c, upto - 1);
        let x = choose|x: int| 0 <= x < upto - 1 && labels[x] == c;
        assert(0 <= x < upto && labels[x] == c);
    } else {
        assert(0 <= upto - 1 < upto && labels[upto - 1] == c);
    }
}

/// The number of vertices labelled `c`.
fn count_label_exec(labels: &Vec<u8>, c: u8) -> (r: usize)
    ensures
        r == count_label(labels@, c as int, labels@.len() as int),
{
    let mut r: usize = 0;
    let mut x: usize = 0;
    while x < labels.len()
        invariant
            x <= labels@.len(),
            r == count_label(labels@, c as int, x as int),
            r <= x,
        decreases labels@.len() - x,
    {
        if labels[x] == c {
            r = r + 1;
        }
        x = x + 1;
    }
    r
}

/// Whether some label in `1..=count` is carried by exactly one vertex.
fn has_single_vertex_component(count: u8, labels: &Vec<u8>) -> (r: bool)
    ensures
        r == exists|c: int| 1 <= c <= count && #[trigger] count_label(labels@, c, labels@.len() as int) == 1,
{
    let mut c: u16 = 1;
    while c <= count as u16
        invariant
            1 <= c <= count + 1,
            forall|d: int| 1 <= d < c ==> #[trigger] count_label(labels@, d, labels@.len() as int) != 1,
        decreases count + 1 - c,
    {
        if count_label_exec(labels, c as u8) == 1 {
            return true;
        }
        c = c + 1;
    }
    false
}

/// With a labelling into components, a label carried by one vertex alone is a
/// component of a single vertex, and conversely.
proof fn lemma_single_component(h: GraphView, count: int, labels: Seq<u8>)
    requires
        is_component_labelling(h, count, labels),
    ensures
        (exists|c: int| 1 <= c <= count && #[trigger] count_label(labels, c, labels.len() as int) == 1)
            <==> (exists|x: int| #[trigger] isolated(h, x)),
{
    let n = h.n as int;
    if exists|c: int| 1 <= c <= count && #[trigger] count_label(labels, c, labels.len() as int) == 1 {
        let c = choose|c: int| 1 <= c <= count && #[trigger] count_label(labels, c, labels.len() as int) == 1;
        lemma_count_label_witness(labels, c, n);
        let x = choose|x: int| 0 <= x < n && labels[x] == c;
        assert forall|y: int| 0 <= y < h.n && #[trigger] h.reachable(x, y) implies y == x by {
            assert(labels[x] == labels[y]);
            if y != x {
                lemma_count_label_two(labels, c, n, x, y);
            }
        }
        assert(isolated(h, x));
    }
    if exists|x: int| #[trigger] isolated(h, x) {
        let x = choose|x: int| #[trigger] isolated(h, x);
        let c = labels[x] as int;
        assert forall|y: int| 0 <= y < n && labels[y] == c implies y == x by {
            assert(h.reachable(x, y));
        }
        lemma_count_label_one(labels, c, n, x);
        assert(1 <= c <= count);
        assert(count_label(labels, c, labels.len() as int) == 1);
    }
}

impl Graph {
    /// The graph with the vertices of `kt` removed, the last one first.
    fn remove_tuple(&self, kt: &Vec<u8>) -> (g: Graph)
        requires
            self.wf(),
            increasing_u8(kt@),
            forall|j: int| 0 <= j < kt@.len() ==> #[trigger] kt@[j] < self.num_vertices,
        ensures
            g.wf(),
            g@ == remove_all(self@, kt@),
    {
        let mut g = self.copy();
        let mut j: usize = kt.len();
        assert(kt@.take(kt@.len() as int) =~= kt@);
        while j > 0
            invariant
                self.wf(),
                g.wf(),
                increasing_u8(kt@),
                forall|i: int| 0 <= i < kt@.len() ==> #[trigger] kt@[i] < self.num_vertices,
                j <= kt@.len(),
                g.num_vertices == self.num_vertices - (kt@.len() - j),
                remove_all(g@, kt@.take(j as int)) == remove_all(self@, kt@),
            decreases j,
        {
            proof {
                lemma_increasing_gap(kt@, j - 1);
                assert(kt@.take(j as int).last() == kt@[j - 1]);
                assert(kt@.take(j as int).drop_last() =~= kt@.take(j - 1));
            }
            g = g.remove_vertex(kt[j - 1]);
            j = j - 1;
        }
        assert(kt@.take(0) =~= Seq::<u8>::empty());
        g
    }

    /// Returns whether a graph is 3-edge connected: removing any two of its valency-2
    /// vertices leaves it connected. Meant for simple trivalent graphs in the bipartite form.
    pub fn is_3edge_connected(&self) -> (r: bool)
        requires
            self.wf(),
        ensures
            r == survives_pair_removals(self, valency2_vertices(self)),
    {
        let edges = self.vertices_valency2();
        proof {
            lemma_vertices_with_valency(self, 2, 2, self.num_vertices as int);
            assert forall|j: int| 0 <= j < edges@.len() implies #[trigger] edges@[j] < self.num_vertices by {
                assert(edges@.contains(edges@[j]));
            }
        }
        self.survives_pairs(&edges)
    }

    /// Returns whether a graph is 3-edge connected, which for a simple trivalent
    /// graph is the same as being 3-vertex connected. Meant for simple trivalent
    /// graphs in the bipartite form, where each valency-2 vertex stands for an edge.
    pub fn is_3vertex_connected(&self) -> (r: bool)
        requires
            self.wf(),
        ensures
            r == survives_pair_removals(self, valency2_vertices(self)),
    {
        self.is_3edge_connected()
    }

    /// Whether removing any two vertices `e1 > e2` of the list leaves the graph connected.
    fn survives_pairs(&self, vs: &Vec<u8>) -> (r: bool)
        requires
            self.wf(),
            forall|j: int| 0 <= j < vs@.len() ==> #[trigger] vs@[j] < self.num_vertices,
        ensures
            r == survives_pair_removals(self, vs@),
    {
        let mut a: usize = 0;
        while a < vs.len()
            invariant
                self.wf(),
                forall|j: int| 0 <= j < vs@.len() ==> #[trigger] vs@[j] < self.num_vertices,
                a <= vs@.len(),
                forall|x: int, y: int|
                    0 <= x < a && 0 <= y < vs@.len() && vs@[y] < vs@[x] ==> (#[trigger] self@.remove_vertex(
                        vs@[x] as int,
                    ).remove_vertex(#[trigger] vs@[y] as int)).connected(),
            decreases vs@.len() - a,
        {
            let mut b: usize = 0;
            while b < vs.len()
                invariant
                    self.wf(),
                    forall|j: int| 0 <= j < vs@.len() ==> #[trigger] vs@[j] < self.num_vertices,
                    a < vs@.len(),
                    b <= vs@.len(),
                    forall|x: int, y: int|
                        0 <= x < a && 0 <= y < vs@.len() && vs@[y] < vs@[x] ==> (#[trigger] self@.remove_vertex(
                            vs@[x] as int,
                        ).remove_vertex(#[trigger] vs@[y] as int)).connected(),
                    forall|y: int|
                        0 <= y < b && vs@[y] < vs@[a as int] ==> (self@.remove_vertex(
                            vs@[a as int] as int,
                        ).remove_vertex(#[trigger] vs@[y] as int)).connected(),
                decreases vs@.len() - b,
            {
                let e1 = vs[a];
                let e2 = vs[b];
                if e1 > e2 {
                    let g = self.remove_vertex(e1).remove_vertex(e2);
                    let (count, _comps) = g.connected_components();
                    if count > 1 {
                        return false;
                    }
                }
                b = b + 1;
            }
            a = a + 1;
        }
        true
    }

    /// Returns whether a graph is k-edge connected: it is connected, and for every `j`
    /// from 2 to `k`, removing any `j - 1` of its valency-2 vertices leaves it
    /// connected. If `proper` is set, a removal that leaves a component of a single
    /// vertex is allowed.
    /// Meant for simple trivalent graphs in the bipartite form.
    pub fn is_k_edge_connected(&self, k: usize, proper: bool) -> (r: bool)
        requires
            self.wf(),
            k >= 1,
        ensures
            r == k_edge_connected(self, k as nat, proper),
            k == 1 ==> (r <==> self@.connected()),
        decreases k,
    {
        if k == 1 {
            let (count, _comps) = self.connected_components();
            return count <= 1;
        }
        if !self.is_k_edge_connected(k - 1, proper) {
            return false;
        }
        let edges = self.vertices_valency2();
        let tuples = get_ktuples(edges.as_slice(), k - 1);
        let ghost kts = ktuples(valency2_vertices(self), (k - 1) as nat);
        proof {
            lemma_vertices_with_valency(self, 2, 2, self.num_vertices as int);
            assert(Seq::<u8>::empty() + edges@ =~= edges@);
            assert(increasing_u8(Seq::<u8>::empty() + edges@));
            lemma_ktuples_increasing(Seq::empty(), edges@, (k - 1) as nat);
            assert(tuples@.len() == kts.len()) by {
                assert(tuples@.map_values(|v: Vec<u8>| v@).len() == tuples@.len());
            }
        }
        let mut t: usize = 0;
        while t < tuples.len()
            invariant
                self.wf(),
                k >= 2,
                k_edge_connected(self, (k - 1) as nat, proper),
                edges@ == valency2_vertices(self),
                kts == ktuples(valency2_vertices(self), (k - 1) as nat),
                tuples@.map_values(|v: Vec<u8>| v@) == kts,
                tuples@.len() == kts.len(),
                forall|i: int| 0 <= i < kts.len() ==> increasing_u8(#[trigger] kts[i]),
                forall|i: int, j: int|
                    0 <= i < kts.len() && 0 <= j < kts[i].len() ==> (Seq::<u8>::empty() + edges@).contains(
                        #[trigger] kts[i][j],
                    ),
                forall|v: u8| #[trigger] edges@.contains(v) ==> v < self.num_vertices,
                t <= tuples@.len(),
                forall|i: int| 0 <= i < t ==> survives_removal(self@, #[trigger] kts[i], proper),
            decreases tuples@.len() - t,
        {
            let kt = &tuples[t];
            proof {
                assert(kt@ == kts[t as int]);
                assert forall|j: int| 0 <= j < kt@.len() implies #[trigger] kt@[j] < self.num_vertices by {
                    assert((Seq::<u8>::empty() + edges@).contains(kts[t as int][j]));
                    assert(Seq::<u8>::empty() + edges@ =~= edges@);
                }
            }
            let g = self.remove_tuple(kt);
            let (n, comps) = g.connected_components();
            if n > 1 {
                let single = if proper {
                    has_single_vertex_component(n, &comps)
                } else {
                    false
                };
                proof {
                    lemma_single_component(g@, n as int, comps@);
                }
                if !single {
                    return false;
                }
            }
            t = t + 1;
        }
        true
    }
}

} // verus!
