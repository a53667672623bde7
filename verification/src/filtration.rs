//! The girth filtration: how the subforests of a graph spread over the
//! girths of the graphs that contracting them gives.
use vstd::prelude::*;
use crate::bits::bit;
use crate::girth::{contract_mask, contracted_by_mask, girth_outcome, girth_ready};
use crate::graph::{vertices_with_valency, Graph};
use crate::multi::repeated_rows;

verus! {

/// The number of entries of `ps` equal to `p`.
pub open spec fn girth_count(ps: Seq<u8>, p: int) -> nat
    decreases ps.len(),
{
    if ps.len() == 0 {
        0
    } else {
        girth_count(ps.drop_last(), p) + (if ps.last() == p { 1nat } else { 0nat })
    }
}

/// The number of positions `k` with `ps[k] == p` and `cs[k] == c`.
pub open spec fn class_count(ps: Seq<u8>, cs: Seq<nat>, p: int, c: int) -> nat
    decreases ps.len(),
{
    if ps.len() == 0 || cs.len() != ps.len() {
        0
    } else {
        class_count(ps.drop_last(), cs.drop_last(), p, c) + (if ps.last() == p && cs.last() == c { 1nat } else { 0nat })
    }
}

/// The graph `g` with the mask `f` contracted has girth `p`; `c` counts its
/// loops (vertices of valency 1) where `p` is 1, its double edges where `p`
/// is 2, and is 0 otherwise.
pub open spec fn tally_entry(g: Graph, f: u64, p: u8, c: nat) -> bool {
    exists|h: Graph| #[trigger] contracted_by_mask(g, f, h) && girth_outcome(h, p)
        && c == (if p == 1 {
            vertices_with_valency(&h, 1, 1, h.num_vertices as int).len()
        } else if p == 2 {
            repeated_rows(h.adj@, h.adj@.len() as int)
        } else {
            0
        })
}

/// An entry fits the tables of twenty rows.
pub open spec fn tally_fits(p: u8, c: nat) -> bool {
    p < 20 && c < 20
}

proof fn lemma_girth_count_push(ps: Seq<u8>, x: u8, p: int)
    ensures
        girth_count(ps.push(x), p) == girth_count(ps, p) + (if x == p { 1nat } else { 0nat }),
{
    assert(ps.push(x).drop_last() =~= ps);
}

proof fn lemma_class_count_push(ps: Seq<u8>, cs: Seq<nat>, x: u8, y: nat, p: int, c: int)
    requires
        ps.len() == cs.len(),
    ensures
        class_count(ps.push(x), cs.push(y), p, c) == class_count(ps, cs, p, c) + (if x == p && y == c { 1nat } else { 0nat }),
{
    assert(ps.push(x).drop_last() =~= ps);
    assert(cs.push(y).drop_last() =~= cs);
}

proof fn lemma_entries_push(g: Graph, masks: Seq<u64>, ps: Seq<u8>, cs: Seq<nat>, p: u8, c: nat)
    requires
        ps.len() == cs.len(),
        ps.len() < masks.len(),
        forall|a: int| 0 <= a < ps.len() ==> #[trigger] tally_entry(g, masks[a], ps[a], cs[a]) && tally_fits(ps[a], cs[a]),
        tally_entry(g, masks[ps.len() as int], p, c),
        tally_fits(p, c),
    ensures
        forall|a: int| 0 <= a < ps.len() + 1 ==> #[trigger] tally_entry(g, masks[a], ps.push(p)[a], cs.push(c)[a]) && tally_fits(ps.push(p)[a], cs.push(c)[a]),
{
    assert forall|a: int| 0 <= a < ps.len() + 1 implies #[trigger] tally_entry(g, masks[a], ps.push(p)[a], cs.push(c)[a]) && tally_fits(ps.push(p)[a], cs.push(c)[a]) by {
        if a < ps.len() {
            assert(ps.push(p)[a] == ps[a] && cs.push(c)[a] == cs[a]);
            assert(tally_entry(g, masks[a], ps[a], cs[a]));
        }
    }
}

proof fn lemma_girth_count_bound(ps: Seq<u8>, p: int)
    ensures
        girth_count(ps, p) <= ps.len(),
    decreases ps.len(),
{
    if ps.len() > 0 {
        lemma_girth_count_bound(ps.drop_last(), p);
    }
}

proof fn lemma_class_count_bound(ps: Seq<u8>, cs: Seq<nat>, p: int, c: int)
    ensures
        class_count(ps, cs, p, c) <= ps.len(),
    decreases ps.len(),
{
    if ps.len() > 0 && cs.len() == ps.len() {
        lemma_class_count_bound(ps.drop_last(), cs.drop_last(), p, c);
    }
}

/// The columns `mat`, `loops` and `mult` count the entries `ps`, `cs` of the
/// masks: `ps[k]` the girth after contracting `masks[k]`, `cs[k]` its loops or
/// double edges; all below 20.
pub open spec fn column_tallies(g: Graph, masks: Seq<u64>, mat: Seq<usize>, loops: Seq<usize>, mult: Seq<usize>, ps: Seq<u8>, cs: Seq<nat>) -> bool {
    &&& ps.len() == masks.len() && cs.len() == masks.len()
    &&& forall|k: int| 0 <= k < masks.len() ==> #[trigger] tally_entry(g, masks[k], ps[k], cs[k]) && tally_fits(ps[k], cs[k])
    &&& mat.len() == 20 && loops.len() == 20 && mult.len() == 20
    &&& forall|p: int| 0 <= p < 20 ==> #[trigger] mat[p] == girth_count(ps, p)
    &&& forall|c: int| 0 <= c < 20 ==> #[trigger] loops[c] == class_count(ps, cs, 1, c)
    &&& forall|c: int| 0 <= c < 20 ==> #[trigger] mult[c] == class_count(ps, cs, 2, c)
}

/// The column of the girth filtration for the subforests `masks` of `g`:
/// the number of subforests whose contraction has girth `p` for each `p`
/// below 20; among those of girth 1 the number with `c` loops, and among
/// those of girth 2 the number with `c` double edges, for each `c` below 20.
/// `None` where some contraction has a girth, or such a count, of 20 or more.
pub fn girth_filtration_column(g: &Graph, masks: &[u64]) -> (r: Option<(Vec<usize>, Vec<usize>, Vec<usize>)>)
    requires
        g.wf(),
        forall|k: int, j: int| 0 <= k < masks@.len() && #[trigger] bit(masks@[k], j) ==> 0 <= j < g.num_vertices,
        forall|k: int| 0 <= k < masks@.len() ==> #[trigger] girth_ready(*g, masks@[k]),
    ensures
        r is Some ==> exists|ps: Seq<u8>, cs: Seq<nat>|
            #[trigger] column_tallies(*g, masks@, r.unwrap().0@, r.unwrap().1@, r.unwrap().2@, ps, cs),
        r is None ==> exists|k: int, p: u8, c: nat| 0 <= k < masks@.len() && #[trigger] tally_entry(*g, masks@[k], p, c) && !tally_fits(p, c),
{
    let mut mat: Vec<usize> = vec![0usize; 20];
    let mut loops: Vec<usize> = vec![0usize; 20];
    let mut mult: Vec<usize> = vec![0usize; 20];
    let ghost mut ps: Seq<u8> = Seq::empty();
    let ghost mut cs: Seq<nat> = Seq::empty();
    let mut k: usize = 0;
    while k < masks.len()
        invariant
            g.wf(),
            forall|a: int, j: int| 0 <= a < masks@.len() && #[trigger] bit(masks@[a], j) ==> 0 <= j < g.num_vertices,
            forall|a: int| 0 <= a < masks@.len() ==> #[trigger] girth_ready(*g, masks@[a]),
            k <= masks@.len(),
            ps.len() == k && cs.len() == k,
            forall|a: int| 0 <= a < k ==> #[trigger] tally_entry(*g, masks@[a], ps[a], cs[a]) && tally_fits(ps[a], cs[a]),
            mat@.len() == 20 && loops@.len() == 20 && mult@.len() == 20,
            forall|p: int| 0 <= p < 20 ==> #[trigger] mat@[p] == girth_count(ps, p),
            forall|c: int| 0 <= c < 20 ==> #[trigger] loops@[c] == class_count(ps, cs, 1, c),
            forall|c: int| 0 <= c < 20 ==> #[trigger] mult@[c] == class_count(ps, cs, 2, c),
        decreases masks@.len() - k,
    {
        let f = masks[k];
        proof {
            assert(girth_ready(*g, masks@[k as int]));
            assert forall|j: int| #[trigger] bit(f, j) implies 0 <= j < g.num_vertices by {
                assert(bit(masks@[k as int], j));
            }
        }
        let h = contract_mask(g, f);
        proof {
            assert(girth_ready(*g, f));
            assert(contracted_by_mask(*g, f, h));
        }
        let p = h.girth();
        let c: usize = if p == 1 {
            h.vertices_valency(1, 1).len()
        } else if p == 2 {
            h.count_double_edges() as usize
        } else {
            0
        };
        let ghost cn: nat = c as nat;
        proof {
            assert(tally_entry(*g, f, p, cn));
        }
        if p >= 20 || c >= 20 {
            proof {
                assert(!tally_fits(p, cn));
            }
            return None;
        }
        proof {
            assert(tally_fits(p, cn));
            lemma_girth_count_bound(ps, p as int);
            lemma_class_count_bound(ps, cs, p as int, c as int);
        }
        let pi = p as usize;
        let vm = mat[pi];
        mat.set(pi, vm + 1);
        if p == 1 {
            let vl = loops[c];
            loops.set(c, vl + 1);
        } else if p == 2 {
            let vd = mult[c];
            mult.set(c, vd + 1);
        }
        proof {
            let ps0 = ps;
            let cs0 = cs;
            ps = ps.push(p);
            cs = cs.push(cn);
            assert forall|x: int| 0 <= x < 20 implies #[trigger] mat@[x] == girth_count(ps, x) by {
                lemma_girth_count_push(ps0, p, x);
            }
            assert forall|x: int| 0 <= x < 20 implies #[trigger] loops@[x] == class_count(ps, cs, 1, x) by {
                lemma_class_count_push(ps0, cs0, p, cn, 1, x);
            }
            assert forall|x: int| 0 <= x < 20 implies #[trigger] mult@[x] == class_count(ps, cs, 2, x) by {
                lemma_class_count_push(ps0, cs0, p, cn, 2, x);
            }
            lemma_entries_push(*g, masks@, ps0, cs0, p, cn);
            assert(ps == ps0.push(p) && cs == cs0.push(cn));
            assert forall|a: int| 0 <= a < k + 1 implies #[trigger] tally_entry(*g, masks@[a], ps[a], cs[a]) && tally_fits(ps[a], cs[a]) by {
                assert(tally_entry(*g, masks@[a], ps0.push(p)[a], cs0.push(cn)[a]));
            }
        }
        k = k + 1;
    }
    let r = Some((mat, loops, mult));
    proof {
        assert(r.unwrap().0@ == mat@ && r.unwrap().1@ == loops@ && r.unwrap().2@ == mult@);
        assert(column_tallies(*g, masks@, mat@, loops@, mult@, ps, cs));
    }
    r
}

} // verus!
