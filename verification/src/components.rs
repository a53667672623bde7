//! Connected components of a graph.
use vstd::prelude::*;
use crate::bits::{bit, bit_positions, bits_seq, lemma_bits_seq};
use crate::graph::{Graph, GraphView, edge_joins};
use crate::reach::{
    reachable, symmetric, lemma_reach_refl, lemma_reach_step, lemma_reach_sym, lemma_reach_trans,
    lemma_closed_labels,
};

verus! {

/// The adjacency of a graph is symmetric.
pub proof fn lemma_adjacent_symmetric(g: GraphView)
    ensures
        symmetric(g.adj_rel(), g.n as int),
        forall|x: int, y: int| g.adjacent(x, y) ==> #[trigger] g.adjacent(y, x),
{
    assert forall|x: int, y: int| g.adjacent(x, y) implies #[trigger] g.adjacent(y, x) by {
        let k = choose|k: int| 0 <= k < g.edges.len() && #[trigger] edge_joins(g.edges[k], x, y);
        assert(edge_joins(g.edges[k], y, x));
    }
}

/// Some vertex below `n` carries the label `c`.
pub open spec fn label_used(labels: Seq<u8>, n: int, c: int) -> bool {
    exists|x: int| 0 <= x < n && #[trigger] labels[x] == c
}

/// A labelling into components: every vertex has a label in `1..=count`, every label
/// is used, and two vertices share a label exactly when one can be reached from the other.
pub open spec fn is_component_labelling(g: GraphView, count: int, labels: Seq<u8>) -> bool {
    &&& labels.len() == g.n
    &&& 0 <= count <= g.n
    &&& forall|x: int| 0 <= x < g.n ==> 1 <= #[trigger] labels[x] <= count
    &&& forall|c: int| 1 <= c <= count ==> #[trigger] label_used(labels, g.n as int, c)
    &&& forall|x: int, y: int|
        0 <= x < g.n && 0 <= y < g.n ==> (labels[x] == labels[y] <==> #[trigger] g.reachable(x, y))
}

/// Labels numbered from 1 in the order of the smallest vertex that carries
/// each: every vertex carries 1 or at most one more than some earlier vertex.
pub open spec fn numbered_in_order(labels: Seq<u8>) -> bool {
    forall|x: int| 0 <= x < labels.len() ==> #[trigger] labels[x] == 1
        || exists|y: int| 0 <= y < x && labels[x] <= #[trigger] labels[y] + 1
}

/// With a labelling into components, there is at most one component exactly when
/// the graph is connected.
pub proof fn lemma_labelling_connected(g: GraphView, count: int, labels: Seq<u8>)
    requires
        is_component_labelling(g, count, labels),
    ensures
        (count <= 1) <==> g.connected(),
{
    if count <= 1 {
        assert forall|u: int, v: int| 0 <= u < g.n && 0 <= v < g.n implies #[trigger] g.reachable(
            u,
            v,
        ) by {
            assert(labels[u] == 1 && labels[v] == 1);
        }
    } else {
        assert(label_used(labels, g.n as int, 1));
        assert(label_used(labels, g.n as int, 2));
        let x1 = choose|x: int| 0 <= x < g.n && #[trigger] labels[x] == 1;
        let x2 = choose|x: int| 0 <= x < g.n && #[trigger] labels[x] == 2;
        assert(!g.reachable(x1, x2));
    }
}

impl Graph {
    /// Compute the number of connected components of a graph, along with an assignment
    /// of connected components to vertices, numbered from 1 in the order of their
    /// smallest vertices.
    #[verifier::rlimit(40)]
    pub fn connected_components(&self) -> (res: (u8, Vec<u8>))
        requires
            self.wf(),
        ensures
            is_component_labelling(self@, res.0 as int, res.1@),
            numbered_in_order(res.1@),
            (res.0 <= 1) <==> self@.connected(),
    {
        let n = self.num_vertices as usize;
        let ghost g = self@;
        let ghost adj = g.adj_rel();
        let mut components: Vec<u8> = vec![0u8; n];
        let mut stack: Vec<usize> = Vec::new();
        let mut i: u8 = 0;
        let mut lo: usize = 0;
        let ghost mut roots: Seq<int> = seq![0];
        proof {
            lemma_adjacent_symmetric(g);
        }
        while lo < n
            invariant
                n == self.num_vertices,
                self.wf(),
                g == self@,
                adj == g.adj_rel(),
                symmetric(adj, n as int),
                lo <= n,
                i <= lo,
                components@.len() == n,
                stack@.len() == 0,
                forall|x: int| 0 <= x < n ==> #[trigger] components@[x] <= i,
                forall|x: int| 0 <= x < lo ==> #[trigger] components@[x] != 0,
                roots.len() == i + 1,
                forall|x: int| 0 <= x < n && #[trigger] components@[x] != 0 ==> roots[components@[x] as int] <= x,
                forall|c: int| 1 < c <= i ==> roots[c - 1] < #[trigger] roots[c],
                i >= 1 ==> roots[i as int] <= lo,
                forall|c: int|
                    1 <= c <= i ==> 0 <= #[trigger] roots[c] < n && components@[roots[c]] == c,
                forall|x: int|
                    0 <= x < n && #[trigger] components@[x] != 0 ==> reachable(
                        adj,
                        n as int,
                        roots[components@[x] as int],
                        x,
                    ),
                forall|x: int, y: int|
                    0 <= x < n && 0 <= y < n && components@[x] != 0 && #[trigger] g.adjacent(x, y)
                        ==> components@[y] == components@[x],
            decreases n - lo,
        {
            if components[lo] != 0 {
                lo = lo + 1;
                continue ;
            }
            let u = lo;
            let ghost comps0 = components@;
            i = i + 1;
            components.set(u, i);
            stack.push(u);
            proof {
                assert forall|x: int, y: int|
                    0 <= x < n && 0 <= y < n && components@[x] != 0 && !stack@.contains(x as usize)
                        && #[trigger] g.adjacent(x, y) implies components@[y] == components@[x] by {
                    assert(stack@[0] == u);
                    assert(x != u);
                    assert(comps0[x] != 0);
                    if y == u {
                        assert(comps0[y] == comps0[x]);
                    }
                }
                if i > 1 {
                    assert(comps0[roots[i - 1]] == i - 1);
                }
                roots = roots.push(u as int);
                assert forall|x: int| 0 <= x < n && #[trigger] components@[x] != 0 implies roots[components@[x] as int] <= x by {
                    if x != u {
                        assert(comps0[x] == components@[x]);
                    }
                }
                lemma_reach_refl(adj, n as int, u as int);
                lemma_count_labelled_bound(components@, n as int);
            }
            while stack.len() > 0
                invariant
                    n == self.num_vertices,
                    self.wf(),
                    g == self@,
                    adj == g.adj_rel(),
                    symmetric(adj, n as int),
                    lo < n,
                    1 <= i <= lo + 1,
                    components@.len() == n,
                    components@[lo as int] == i,
                    forall|x: int| 0 <= x < n ==> #[trigger] components@[x] <= i,
                    forall|x: int| 0 <= x < lo ==> #[trigger] components@[x] != 0,
                    roots.len() == i + 1,
                    forall|x: int| 0 <= x < n && #[trigger] components@[x] != 0 ==> roots[components@[x] as int] <= x,
                    forall|c: int| 1 < c <= i ==> roots[c - 1] < #[trigger] roots[c],
                    roots[i as int] == lo,
                    forall|c: int|
                        1 <= c <= i ==> 0 <= #[trigger] roots[c] < n && components@[roots[c]] == c,
                    forall|x: int|
                        0 <= x < n && #[trigger] components@[x] != 0 ==> reachable(
                            adj,
                            n as int,
                            roots[components@[x] as int],
                            x,
                        ),
                    forall|k: int|
                        0 <= k < stack@.len() ==> #[trigger] stack@[k] < n && components@[stack@[k] as int]
                            == i,
                    stack@.no_duplicates(),
                    count_labelled(components@, n as int) <= n,
                    forall|x: int, y: int|
                        0 <= x < n && 0 <= y < n && components@[x] != 0 && !stack@.contains(
                            x as usize,
                        ) && #[trigger] g.adjacent(x, y) ==> components@[y] == components@[x],
                decreases n - count_labelled(components@, n as int), stack@.len(),
            {
                let ghost prev_stack = stack@;
                let v = stack.pop().unwrap();
                let a = self.adj[v];
                let ns = bit_positions(a);
                proof {
                    lemma_bits_seq(a);
                    assert forall|k: int| 0 <= k < bits_seq(a).len() implies 0 <= #[trigger] bits_seq(a)[k] < n by {
                        assert(bit(a, bits_seq(a)[k]));
                        assert(g.adjacent(v as int, bits_seq(a)[k]));
                        let j = choose|j: int| 0 <= j < g.edges.len() && #[trigger] edge_joins(g.edges[j], v as int, bits_seq(a)[k]);
                    }
                    assert(stack@ =~= prev_stack.drop_last());
                    assert forall|x: int| 0 <= x < n && x != v && #[trigger] stack@.contains(x as usize) == false
                        implies !prev_stack.contains(x as usize) by {
                        if prev_stack.contains(x as usize) {
                            let k = choose|k: int| 0 <= k < prev_stack.len() && prev_stack[k] == x as usize;
                            if k < prev_stack.len() - 1 {
                                assert(stack@[k] == x as usize);
                            }
                        }
                    }
                    lemma_bits_seq(a);
                    assert(stack@.len() == 0 || !stack@.contains(v)) by {
                        if stack@.contains(v) {
                            let k = choose|k: int| 0 <= k < stack@.len() && stack@[k] == v;
                        }
                    }
                }
                let ghost before_count = count_labelled(components@, n as int);
                let ghost stack0 = stack@;
                let mut t: usize = 0;
                while t < ns.len()
                    invariant
                        n == self.num_vertices,
                        self.wf(),
                        g == self@,
                        adj == g.adj_rel(),
                        v < n,
                        a == self.adj@[v as int],
                        ns@.len() == bits_seq(a).len(),
                        forall|k: int| 0 <= k < ns@.len() ==> #[trigger] ns@[k] as int == bits_seq(a)[k],
                        forall|x: int| bits_seq(a).contains(x) <==> #[trigger] bit(a, x),
                        forall|k: int| 0 <= k < bits_seq(a).len() ==> 0 <= #[trigger] bits_seq(a)[k] < n,
                        t <= ns@.len(),
                        lo < n,
                        1 <= i <= lo + 1,
                        components@.len() == n,
                        components@[lo as int] == i,
                        components@[v as int] == i,
                        !stack@.contains(v),
                        forall|x: int| 0 <= x < n ==> #[trigger] components@[x] <= i,
                        forall|x: int| 0 <= x < lo ==> #[trigger] components@[x] != 0,
                        roots.len() == i + 1,
                        forall|x: int| 0 <= x < n && #[trigger] components@[x] != 0 ==> roots[components@[x] as int] <= x,
                        forall|c: int| 1 < c <= i ==> roots[c - 1] < #[trigger] roots[c],
                        roots[i as int] == lo,
                        forall|c: int|
                            1 <= c <= i ==> 0 <= #[trigger] roots[c] < n && components@[roots[c]] == c,
                        forall|x: int|
                            0 <= x < n && #[trigger] components@[x] != 0 ==> reachable(
                                adj,
                                n as int,
                                roots[components@[x] as int],
                                x,
                            ),
                        forall|k: int|
                            0 <= k < stack@.len() ==> #[trigger] stack@[k] < n && components@[stack@[k] as int]
                                == i,
                        stack@.no_duplicates(),
                        forall|k: int| 0 <= k < t ==> components@[#[trigger] bits_seq(a)[k]] == i,
                        forall|x: int, y: int|
                            0 <= x < n && 0 <= y < n && components@[x] != 0 && x != v && !stack@.contains(
                                x as usize,
                            ) && #[trigger] g.adjacent(x, y) ==> components@[y] == components@[x],
                        count_labelled(components@, n as int) >= before_count,
                        count_labelled(components@, n as int) <= n,
                        stack@.len() > stack0.len() ==> count_labelled(components@, n as int) > before_count,
                        stack@.len() >= stack0.len(),
                    decreases ns@.len() - t,
                {
                    let w = ns[t];
                    let ghost comps_before = components@;
                    proof {
                        assert(bits_seq(a).contains(w as int));
                        assert(bit(a, w as int));
                        assert(g.adjacent(v as int, w as int));
                    }
                    if components[w] == 0 {
                        let ghost old_comps = components@;
                        let ghost old_stack = stack@;
                        components.set(w, i);
                        stack.push(w);
                        proof {
                            lemma_count_labelled_set(old_comps, n as int, w as int, i);
                            assert forall|x: int| 0 <= x < n && #[trigger] components@[x] != 0 implies roots[components@[x] as int] <= x by {
                                if x != w {
                                    assert(old_comps[x] == components@[x]);
                                } else {
                                    assert(lo <= w);
                                }
                            }
                            lemma_reach_step(adj, n as int, roots[i as int], v as int, w as int);
                            assert forall|k: int| 0 <= k < stack@.len() - 1 implies stack@[k] != w by {
                                assert(components@[stack@[k] as int] == i);
                            }
                            assert forall|x: int| 0 <= x < n && #[trigger] components@[x] != 0 implies reachable(
                                adj,
                                n as int,
                                roots[components@[x] as int],
                                x,
                            ) by {
                                if x != w {
                                    assert(old_comps[x] == components@[x]);
                                }
                            }
                            assert forall|x: int, y: int|
                                0 <= x < n && 0 <= y < n && components@[x] != 0 && x != v && !stack@.contains(
                                    x as usize,
                                ) && #[trigger] g.adjacent(x, y) implies components@[y] == components@[x] by {
                                assert(stack@[stack@.len() - 1] == w);
                                assert(x != w);
                                if old_stack.contains(x as usize) {
                                    let k = choose|k: int| 0 <= k < old_stack.len() && old_stack[k] == x as usize;
                                    assert(stack@[k] == x as usize);
                                }
                                if y == w {
                                    assert(old_comps[x] != 0);
                                    assert(old_comps[y] == old_comps[x]);
                                }
                            }
                        }
                    } else {
                        proof {
                            if w != v && !stack@.contains(w) {
                                lemma_adjacent_symmetric(g);
                                assert(g.adjacent(w as int, v as int));
                                assert(components@[v as int] == components@[w as int]);
                            } else if w != v {
                                let k = choose|k: int| 0 <= k < stack@.len() && stack@[k] == w;
                                assert(components@[stack@[k] as int] == i);
                            }
                        }
                    }
                    proof {
                        assert(components@[w as int] == i);
                        assert forall|k: int| 0 <= k < t + 1 implies components@[#[trigger] bits_seq(a)[k]] == i by {
                            if k < t {
                                let x = bits_seq(a)[k];
                                assert(comps_before[x] == i);
                                if x != w {
                                    assert(components@[x] == comps_before[x]);
                                }
                            } else {
                                assert(bits_seq(a)[k] == w);
                            }
                        }
                    }
                    t = t + 1;
                }
                proof {
                    assert forall|x: int, y: int|
                        0 <= x < n && 0 <= y < n && components@[x] != 0 && !stack@.contains(x as usize)
                            && #[trigger] g.adjacent(x, y) implies components@[y] == components@[x] by {
                        if x == v {
                            assert(bit(a, y));
                            assert(bits_seq(a).contains(y));
                            let k = choose|k: int| 0 <= k < bits_seq(a).len() && bits_seq(a)[k] == y;
                        }
                    }
                }
            }
            lo = lo + 1;
        }
        proof {
            let labels = components@;
            assert forall|x: int, y: int| 0 <= x < n && 0 <= y < n implies (labels[x] == labels[y]
                <==> #[trigger] g.reachable(x, y)) by {
                if labels[x] == labels[y] {
                    let r = roots[labels[x] as int];
                    lemma_reach_sym(adj, n as int, r, x);
                    lemma_reach_trans(adj, n as int, x, r, y);
                }
                if g.reachable(x, y) {
                    assert forall|p: int, q: int|
                        0 <= p < n && 0 <= q < n && #[trigger] adj(p, q) implies labels[p] == labels[q] by {
                        assert(g.adjacent(p, q));
                    }
                    lemma_closed_labels(adj, n as int, labels, x, y);
                }
            }
            assert forall|c: int| 1 <= c <= i implies #[trigger] label_used(labels, n as int, c) by {
                assert(labels[roots[c]] == c);
            }
            lemma_labelling_connected(g, i as int, labels);
            assert forall|x: int| 0 <= x < labels.len() implies #[trigger] labels[x] == 1
                || exists|y: int| 0 <= y < x && labels[x] <= #[trigger] labels[y] + 1 by {
                let c = labels[x] as int;
                let r = roots[c];
                if r < x {
                    assert(labels[r] == c);
                } else if c > 1 {
                    assert(labels[roots[c - 1]] == c - 1);
                }
            }
        }
        (i, components)
    }
}

/// The number of labelled vertices below `upto`.
pub open spec fn count_labelled(labels: Seq<u8>, upto: int) -> nat
    decreases upto,
{
    if upto <= 0 {
        0
    } else {
        count_labelled(labels, upto - 1) + (if labels[upto - 1] != 0 {
            1nat
        } else {
            0nat
        })
    }
}

proof fn lemma_count_labelled_bound(labels: Seq<u8>, upto: int)
    requires
        0 <= upto,
    ensures
        count_labelled(labels, upto) <= upto,
    decreases upto,
{
    if upto > 0 {
        lemma_count_labelled_bound(labels, upto - 1);
    }
}

proof fn lemma_count_labelled_set(labels: Seq<u8>, n: int, w: int, c: u8)
    requires
        0 <= w < n,
        n == labels.len(),
        labels[w] == 0,
        c != 0,
    ensures
        count_labelled(labels.update(w, c), n) == count_labelled(labels, n) + 1,
        count_labelled(labels.update(w, c), n) <= n,
{
    lemma_count_labelled_update(labels, n, w, c);
    lemma_count_labelled_bound(labels.update(w, c), n);
}

proof fn lemma_count_labelled_update(labels: Seq<u8>, upto: int, w: int, c: u8)
    requires
        0 <= w < labels.len(),
        upto <= labels.len(),
        labels[w] == 0,
        c != 0,
    ensures
        count_labelled(labels.update(w, c), upto) == count_labelled(labels, upto) + (if w < upto {
            1nat
        } else {
            0nat
        }),
    decreases upto,
{
    if upto > 0 {
        lemma_count_labelled_update(labels, upto - 1, w, c);
    }
}

} // verus!
