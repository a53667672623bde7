//! The subforests of a graph: sets of edges without a cycle, found by a
//! depth-first search over the edges that tracks the components.
use vstd::prelude::*;
use crate::graph::Graph;

verus! {

/// The component labels after the components labelled `a` and `b` are joined
/// under the label `a`.
pub open spec fn merge_labels(comp: Seq<u8>, a: u8, b: u8) -> Seq<u8> {
    comp.map_values(|c: u8| if c == b { a } else { c })
}

/// The forests found from edge `i` on, extending `forest` whose components are
/// labelled by `comp`: first, if edge `i` joins two components, the forest
/// with it (when its size is in range) and the forests that extend that one,
/// then the forests without it. A forest of `max` edges is not extended.
pub open spec fn forests_from(
    edges: Seq<(u8, u8)>,
    i: int,
    forest: Seq<(u8, u8)>,
    comp: Seq<u8>,
    min: nat,
    max: nat,
) -> Seq<Seq<(u8, u8)>>
    decreases edges.len() - i,
{
    if forest.len() >= max || i >= edges.len() || i < 0 {
        Seq::empty()
    } else {
        let cv = comp[edges[i].0 as int];
        let cw = comp[edges[i].1 as int];
        if cv == cw {
            forests_from(edges, i + 1, forest, comp, min, max)
        } else {
            let a = if cw < cv { cw } else { cv };
            let b = if cw < cv { cv } else { cw };
            let f2 = forest.push(edges[i]);
            let here = if min <= f2.len() && f2.len() <= max {
                seq![f2]
            } else {
                Seq::empty()
            };
            here + forests_from(edges, i + 1, f2, merge_labels(comp, a, b), min, max) + forests_from(
                edges,
                i + 1,
                forest,
                comp,
                min,
                max,
            )
        }
    }
}

/// The subforests of a graph with the edge list `edges` on `n` vertices whose
/// sizes lie in `[min, max]`: the empty forest first when `min` is 0, then the
/// forests found by the search from the first edge with every vertex in a
/// component of its own.
pub open spec fn subforest_list(edges: Seq<(u8, u8)>, n: nat, min: nat, max: nat) -> Seq<Seq<(u8, u8)>> {
    let found = forests_from(edges, 0, Seq::empty(), Seq::new(n, |u: int| u as u8), min, max);
    if min == 0 {
        seq![Seq::<(u8, u8)>::empty()] + found
    } else {
        found
    }
}

/// Every forest found has between `min` and `max` edges.
pub proof fn lemma_forest_sizes(
    edges: Seq<(u8, u8)>,
    i: int,
    forest: Seq<(u8, u8)>,
    comp: Seq<u8>,
    min: nat,
    max: nat,
)
    ensures
        forall|k: int| 0 <= k < forests_from(edges, i, forest, comp, min, max).len() ==>
            min <= #[trigger] forests_from(edges, i, forest, comp, min, max)[k].len() <= max,
    decreases edges.len() - i,
{
    if !(forest.len() >= max || i >= edges.len() || i < 0) {
        let cv = comp[edges[i].0 as int];
        let cw = comp[edges[i].1 as int];
        lemma_forest_sizes(edges, i + 1, forest, comp, min, max);
        if cv != cw {
            let a = if cw < cv { cw } else { cv };
            let b = if cw < cv { cv } else { cw };
            let f2 = forest.push(edges[i]);
            lemma_forest_sizes(edges, i + 1, f2, merge_labels(comp, a, b), min, max);
            let here: Seq<Seq<(u8, u8)>> = if min <= f2.len() && f2.len() <= max {
                seq![f2]
            } else {
                Seq::empty()
            };
            let left = forests_from(edges, i + 1, f2, merge_labels(comp, a, b), min, max);
            let right = forests_from(edges, i + 1, forest, comp, min, max);
            let all = forests_from(edges, i, forest, comp, min, max);
            assert(all == here + left + right);
            assert forall|k: int| 0 <= k < all.len() implies min <= #[trigger] all[k].len() <= max by {
                if k < here.len() {
                    assert(all[k] == here[k]);
                } else if k < here.len() + left.len() {
                    assert(all[k] == left[k - here.len()]);
                } else {
                    assert(all[k] == right[k - here.len() - left.len()]);
                }
            }
        }
    }
}

/// A copy of a list of edges.
fn copy_edges(v: &Vec<(u8, u8)>) -> (c: Vec<(u8, u8)>)
    ensures
        c@ == v@,
{
    let mut c: Vec<(u8, u8)> = Vec::with_capacity(v.len());
    let mut k: usize = 0;
    while k < v.len()
        invariant
            k <= v@.len(),
            c@ == v@.take(k as int),
        decreases v@.len() - k,
    {
        c.push(v[k]);
        assert(c@ =~= v@.take(k as int + 1));
        k = k + 1;
    }
    assert(v@.take(v@.len() as int) =~= v@);
    c
}

impl Graph {
    fn subforests_from(
        &self,
        i: usize,
        forest: &mut Vec<(u8, u8)>,
        comp: &Vec<u8>,
        min: usize,
        max: usize,
        out: &mut Vec<Vec<(u8, u8)>>,
    )
        requires
            self.wf(),
            comp@.len() == self.num_vertices,
            i <= self.edges@.len(),
            old(forest)@.len() <= max,
        ensures
            final(forest)@ == old(forest)@,
            final(out)@.map_values(|f: Vec<(u8, u8)>| f@) == old(out)@.map_values(|f: Vec<(u8, u8)>| f@)
                + forests_from(self.edges@, i as int, old(forest)@, comp@, min as nat, max as nat),
        decreases self.edges@.len() - i,
    {
        if forest.len() == max || i == self.edges.len() {
            assert(out@.map_values(|f: Vec<(u8, u8)>| f@) =~= out@.map_values(|f: Vec<(u8, u8)>| f@)
                + Seq::<Seq<(u8, u8)>>::empty());
            return;
        }
        let (v, w) = self.edges[i];
        proof {
            assert(self.edges@[i as int].0 < self.num_vertices && self.edges@[i as int].1 < self.num_vertices);
        }
        let cv = comp[v as usize];
        let cw = comp[w as usize];
        if cv == cw {
            self.subforests_from(i + 1, forest, comp, min, max, out);
            return;
        }
        let (a, b) = if cw < cv { (cw, cv) } else { (cv, cw) };
        let ghost out0 = out@.map_values(|f: Vec<(u8, u8)>| f@);
        let ghost f0 = forest@;
        forest.push((v, w));
        let len = forest.len();
        if min <= len && len <= max {
            let fc = copy_edges(forest);
            out.push(fc);
            assert(out@.map_values(|f: Vec<(u8, u8)>| f@) =~= out0 + seq![forest@]);
        } else {
            assert(out@.map_values(|f: Vec<(u8, u8)>| f@) =~= out0 + Seq::<Seq<(u8, u8)>>::empty());
        }
        let ghost out1 = out@.map_values(|f: Vec<(u8, u8)>| f@);
        let mut merged: Vec<u8> = Vec::with_capacity(comp.len());
        let mut k: usize = 0;
        while k < comp.len()
            invariant
                k <= comp@.len(),
                merged@ == merge_labels(comp@, a, b).take(k as int),
            decreases comp@.len() - k,
        {
            let c = comp[k];
            merged.push(if c == b { a } else { c });
            assert(merged@ =~= merge_labels(comp@, a, b).take(k as int + 1));
            k = k + 1;
        }
        assert(merge_labels(comp@, a, b).take(comp@.len() as int) =~= merge_labels(comp@, a, b));
        self.subforests_from(i + 1, forest, &merged, min, max, out);
        let ghost out2 = out@.map_values(|f: Vec<(u8, u8)>| f@);
        let _ = forest.pop();
        assert(forest@ =~= f0);
        self.subforests_from(i + 1, forest, comp, min, max, out);
        proof {
            let f2 = f0.push((v, w));
            assert(self.edges@[i as int] == (v, w));
            let here = if min <= f2.len() && f2.len() <= max {
                seq![f2]
            } else {
                Seq::empty()
            };
            assert(out1 == out0 + here);
            assert(out@.map_values(|f: Vec<(u8, u8)>| f@) =~= out0 + (here + forests_from(
                self.edges@,
                i + 1,
                f2,
                merge_labels(comp@, a, b),
                min as nat,
                max as nat,
            ) + forests_from(self.edges@, i + 1, f0, comp@, min as nat, max as nat)));
        }
    }

    /// Find all subforests with the given minimum and maximum size, each as its
    /// list of edges in the order of the graph's edges.
    pub fn subforests(&self, min_edges: usize, max_edges: usize) -> (res: Vec<Vec<(u8, u8)>>)
        requires
            self.wf(),
            self.num_vertices >= 1,
        ensures
            res@.map_values(|f: Vec<(u8, u8)>| f@) == subforest_list(
                self.edges@,
                self.num_vertices as nat,
                min_edges as nat,
                max_edges as nat,
            ),
            forall|k: int| 0 <= k < res@.len() ==> min_edges <= #[trigger] res@[k]@.len() <= max_edges,
    {
        let mut comp: Vec<u8> = Vec::new();
        let mut u: u8 = 0;
        while u < self.num_vertices
            invariant
                u <= self.num_vertices,
                comp@ == Seq::new(u as nat, |x: int| x as u8),
            decreases self.num_vertices - u,
        {
            comp.push(u);
            assert(comp@ =~= Seq::new((u + 1) as nat, |x: int| x as u8));
            u = u + 1;
        }
        let mut forest: Vec<(u8, u8)> = Vec::new();
        let mut output: Vec<Vec<(u8, u8)>> = Vec::new();
        if min_edges == 0 {
            output.push(Vec::new());
        }
        let ghost start = output@.map_values(|f: Vec<(u8, u8)>| f@);
        proof {
            if min_edges == 0 {
                assert(start =~= seq![Seq::<(u8, u8)>::empty()]);
            } else {
                assert(start =~= Seq::<Seq<(u8, u8)>>::empty());
            }
        }
        if max_edges == 0 {
            proof {
                assert(subforest_list(self.edges@, self.num_vertices as nat, min_edges as nat, 0) =~= start);
            }
            return output;
        }
        self.subforests_from(0, &mut forest, &comp, min_edges, max_edges, &mut output);
        proof {
            let found = forests_from(self.edges@, 0, Seq::empty(), comp@, min_edges as nat, max_edges as nat);
            assert(output@.map_values(|f: Vec<(u8, u8)>| f@) =~= start + found);
            assert(start + found =~= subforest_list(self.edges@, self.num_vertices as nat, min_edges as nat, max_edges as nat));
            lemma_forest_sizes(self.edges@, 0, Seq::empty(), comp@, min_edges as nat, max_edges as nat);
            assert forall|k: int| 0 <= k < output@.len() implies min_edges <= #[trigger] output@[k]@.len() <= max_edges by {
                assert(output@.map_values(|f: Vec<(u8, u8)>| f@)[k] == output@[k]@);
                if k >= start.len() {
                    assert(output@[k]@ == found[k - start.len()]);
                }
            }
        }
        output
    }
}

} // verus!
