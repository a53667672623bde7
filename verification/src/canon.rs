//! Canonical labelling by colour refinement and individualisation, and the
//! automorphisms and isomorphism test built on it.
use vstd::prelude::*;
use crate::labelling::{lemma_canonical_form, lemma_no_colours_kept, lemma_no_colours_read_back, no_colours, has_perm, keeps_colours, lemma_form_automorphism, lemma_left_inverse, perm_of, read_back, best_labellings, colour_automorphism, inv_perm, lemma_automorphisms_complete, lemma_compose_inverse, lemma_leaf_perm, canon_score, coloured_classes, distance_keys, full_mask, initial_classes, is_min_score, lemma_min_unique, search_done, search_leaf, best_state, child, class_index, first_big, individualised, is_leaf, leaf_below, leaf_labelling, lemma_child_props, lemma_children_disjoint, lemma_first_big, lemma_leaf_below, lemma_lex_trans, score_of, hash_groups, hash_keys, lemma_hash_members, recolor_spec, class_vs, first_split, groups_ok, lemma_class_members, lemma_groups_unique, lemma_split_ok, refine_spec, replaced, sig_keys, split_of, split_parts};
use vstd::std_specs::bits::*;
use crate::bits::{bit, bit_positions, bits_seq, count_ones, lemma_clear_lowest_smaller, lemma_bits_all, lemma_bits_ext, lemma_bits_seq, mask_set, popcount};
use crate::graph::{Graph, GraphView, adjacent_in, edge_joins, normalized, adjacency};
use crate::perm::{
    is_perm, identity, permute_edge, permute_edges, compose, compose_spec, inverse, inverse_entry,
    lemma_inverse_of_perm, edges_within,
};
use crate::partition::{
    in_class, covered, is_cover, is_partition, lemma_partition_len, group_by_key, groups_of,
    member_with_key, has_group,
};
use crate::distances::histogram_key;
use crate::sort::sorted_by_key;

verus! {

broadcast use vstd::seq_lib::group_to_multiset_ensures;

/// `parts` split the mask `c`: nonempty, disjoint, and together the positions of `c`.
pub open spec fn splits(parts: Seq<u64>, c: u64) -> bool {
    &&& forall|k: int| 0 <= k < parts.len() ==> #[trigger] parts[k] != 0
    &&& forall|a: int, b: int, v: int| #[trigger] in_class(parts, a, v) && #[trigger] in_class(parts, b, v) ==> a == b
    &&& forall|v: int| #[trigger] covered(parts, v) <==> bit(c, v)
}

/// The classes cover exactly the vertices of the first `j` classes of `orig`.
pub open spec fn partial_refinement(res: Seq<u64>, orig: Seq<u64>, j: int) -> bool {
    &&& forall|k: int| 0 <= k < res.len() ==> #[trigger] res[k] != 0
    &&& forall|a: int, b: int, v: int| #[trigger] in_class(res, a, v) && #[trigger] in_class(res, b, v) ==> a == b
    &&& forall|v: int| #[trigger] covered(res, v) <==> exists|i: int| 0 <= i < j && #[trigger] in_class(orig, i, v)
}

/// The masks of grouped positions split their mask.
pub(crate) proof fn lemma_groups_split(groups: Seq<(u128, u64)>, c: u64, vs: Seq<usize>, keys: Seq<u128>)
    requires
        groups_of(groups, vs, keys),
        vs.len() == keys.len(),
        vs.len() == bits_seq(c).len(),
        forall|t: int| 0 <= t < vs.len() ==> #[trigger] vs[t] as int == bits_seq(c)[t],
    ensures
        splits(groups.map_values(|g: (u128, u64)| g.1), c),
{
    lemma_bits_seq(c);
    let parts = groups.map_values(|g: (u128, u64)| g.1);
    assert forall|k: int| 0 <= k < parts.len() implies #[trigger] parts[k] != 0 by {
        assert(parts[k] == groups[k].1);
    }
    assert forall|a: int, b: int, v: int| #[trigger] in_class(parts, a, v) && #[trigger] in_class(parts, b, v) implies a == b by {
        assert(parts[a] == groups[a].1 && parts[b] == groups[b].1);
        assert(member_with_key(vs, keys, v, groups[a].0));
        assert(member_with_key(vs, keys, v, groups[b].0));
        let s = choose|s: int| 0 <= s < vs.len() && vs[s] == v && #[trigger] keys[s] == groups[a].0;
        let t = choose|t: int| 0 <= t < vs.len() && vs[t] == v && #[trigger] keys[t] == groups[b].0;
        assert(vs[s] as int == bits_seq(c)[s] && vs[t] as int == bits_seq(c)[t]);
        assert(s == t);
    }
    assert forall|v: int| #[trigger] covered(parts, v) <==> bit(c, v) by {
        if covered(parts, v) {
            let k = choose|k: int| #[trigger] in_class(parts, k, v);
            assert(parts[k] == groups[k].1);
            assert(member_with_key(vs, keys, v, groups[k].0));
            let s = choose|s: int| 0 <= s < vs.len() && vs[s] == v && #[trigger] keys[s] == groups[k].0;
            assert(bits_seq(c).contains(v));
        }
        if bit(c, v) {
            assert(bits_seq(c).contains(v));
            let t = choose|t: int| 0 <= t < bits_seq(c).len() && bits_seq(c)[t] == v;
            assert(has_group(groups, keys[t]));
            let k = choose|k: int| 0 <= k < groups.len() && #[trigger] groups[k].0 == keys[t];
            assert(bit(groups[k].1, vs[t] as int));
            assert(in_class(parts, k, v));
        }
    }
}

/// Appending the split of the next class keeps a partial refinement.
proof fn lemma_append_split(res: Seq<u64>, parts: Seq<u64>, orig: Seq<u64>, j: int)
    requires
        partial_refinement(res, orig, j),
        0 <= j < orig.len(),
        splits(parts, orig[j]),
        forall|a: int, b: int, v: int| #[trigger] in_class(orig, a, v) && #[trigger] in_class(orig, b, v) ==> a == b,
    ensures
        partial_refinement(res + parts, orig, j + 1),
{
    let r = res + parts;
    assert forall|k: int| 0 <= k < r.len() implies #[trigger] r[k] != 0 by {
        if k < res.len() {
            assert(r[k] == res[k]);
        } else {
            assert(r[k] == parts[k - res.len()]);
        }
    }
    assert forall|a: int, b: int, v: int| #[trigger] in_class(r, a, v) && #[trigger] in_class(r, b, v) implies a == b by {
        if a < res.len() && b < res.len() {
            assert(in_class(res, a, v) && in_class(res, b, v));
        } else if a >= res.len() && b >= res.len() {
            assert(in_class(parts, a - res.len(), v) && in_class(parts, b - res.len(), v));
        } else {
            let (x, y) = if a < res.len() { (a, b) } else { (b, a) };
            assert(in_class(res, x, v));
            assert(covered(res, v));
            let i = choose|i: int| 0 <= i < j && #[trigger] in_class(orig, i, v);
            assert(in_class(parts, y - res.len(), v));
            assert(covered(parts, v));
            assert(in_class(orig, j, v));
        }
    }
    assert forall|v: int| #[trigger] covered(r, v) <==> exists|i: int| 0 <= i < j + 1 && #[trigger] in_class(orig, i, v) by {
        if covered(r, v) {
            let k = choose|k: int| #[trigger] in_class(r, k, v);
            if k < res.len() {
                assert(in_class(res, k, v));
                assert(covered(res, v));
                let i = choose|i: int| 0 <= i < j && #[trigger] in_class(orig, i, v);
            } else {
                assert(in_class(parts, k - res.len(), v));
                assert(covered(parts, v));
                assert(in_class(orig, j, v));
            }
        }
        if exists|i: int| 0 <= i < j + 1 && #[trigger] in_class(orig, i, v) {
            let i = choose|i: int| 0 <= i < j + 1 && #[trigger] in_class(orig, i, v);
            if i < j {
                assert(covered(res, v));
                let k = choose|k: int| #[trigger] in_class(res, k, v);
                assert(in_class(r, k, v));
            } else {
                assert(covered(parts, v));
                let k = choose|k: int| #[trigger] in_class(parts, k, v);
                assert(in_class(r, k + res.len(), v));
            }
        }
    }
}

/// Replacing a class of a partition by a split of it keeps a partition.
pub(crate) proof fn lemma_replace_split(classes: Seq<u64>, i: int, parts: Seq<u64>, n: int)
    requires
        is_partition(classes, n),
        0 <= i < classes.len(),
        splits(parts, classes[i]),
    ensures
        is_partition(classes.take(i) + parts + classes.skip(i + 1), n),
{
    let r = classes.take(i) + parts + classes.skip(i + 1);
    let p = parts.len() as int;
    assert forall|k: int| 0 <= k < r.len() implies #[trigger] r[k] != 0 by {
        if k < i {
            assert(r[k] == classes[k]);
        } else if k < i + p {
            assert(r[k] == parts[k - i]);
        } else {
            assert(r[k] == classes[k - p + 1]);
        }
    }
    // the class of each position of r in terms of classes / parts
    assert forall|k: int, v: int| #[trigger] in_class(r, k, v) implies (if k < i {
        in_class(classes, k, v)
    } else if k < i + p {
        in_class(parts, k - i, v) && in_class(classes, i, v)
    } else {
        in_class(classes, k - p + 1, v)
    }) by {
        if k < i {
            assert(r[k] == classes[k]);
        } else if k < i + p {
            assert(r[k] == parts[k - i]);
            assert(in_class(parts, k - i, v));
            assert(covered(parts, v));
        } else {
            assert(r[k] == classes[k - p + 1]);
        }
    }
    assert forall|a: int, b: int, v: int| #[trigger] in_class(r, a, v) && #[trigger] in_class(r, b, v) implies a == b by {
        let ca = if a < i { a } else if a < i + p { i } else { a - p + 1 };
        let cb = if b < i { b } else if b < i + p { i } else { b - p + 1 };
        assert(in_class(classes, ca, v));
        assert(in_class(classes, cb, v));
        if i <= a < i + p && i <= b < i + p {
            assert(in_class(parts, a - i, v) && in_class(parts, b - i, v));
        }
    }
    assert forall|v: int| 0 <= v < n implies #[trigger] covered(r, v) by {
        assert(covered(classes, v));
        let c = choose|c: int| #[trigger] in_class(classes, c, v);
        if c < i {
            assert(r[c] == classes[c]);
            assert(in_class(r, c, v));
        } else if c == i {
            assert(covered(parts, v));
            let k = choose|k: int| #[trigger] in_class(parts, k, v);
            assert(r[i + k] == parts[k]);
            assert(in_class(r, i + k, v));
        } else {
            assert(r[c + p - 1] == classes[c]);
            assert(in_class(r, c + p - 1, v));
        }
    }
    assert forall|k: int, v: int| #[trigger] in_class(r, k, v) implies 0 <= v < n by {
        let c = if k < i { k } else if k < i + p { i } else { k - p + 1 };
        assert(in_class(classes, c, v));
    }
}

/// The edges mapped by `perm`.
pub open spec fn permuted_edges(g: GraphView, perm: Seq<u8>) -> Seq<(u8, u8)> {
    g.edges.map_values(|e: (u8, u8)| permute_edge(e, perm))
}

/// `rows` are the adjacency rows of `g` relabelled by `perm`.
pub open spec fn scores_as(g: GraphView, perm: Seq<u8>, rows: Seq<u64>) -> bool {
    &&& rows.len() == g.n
    &&& forall|a: int, b: int| 0 <= a < g.n ==> (#[trigger] bit(rows[a], b) <==> adjacent_in(permuted_edges(g, perm), a, b))
}

/// The candidates found so far: none, or a score with the nonempty list of
/// permutations that relabel the graph to it.
pub open spec fn best_ok(g: GraphView, best: Option<(Vec<u64>, Vec<Vec<u8>>)>) -> bool {
    match best {
        None => true,
        Some((s, ps)) => {
            &&& ps@.len() >= 1
            &&& forall|k: int| 0 <= k < ps@.len() ==> is_perm(#[trigger] ps@[k]@) && ps@[k]@.len() == g.n
            &&& forall|k: int| 0 <= k < ps@.len() ==> scores_as(g, #[trigger] ps@[k]@, s@)
        },
    }
}

/// Lexicographic order of equally long rows.
pub open spec fn lex_less(a: Seq<u64>, b: Seq<u64>) -> bool {
    exists|i: int| 0 <= i < a.len() && a.take(i) == b.take(i) && #[trigger] a[i] < b[i]
}

/// Compare two equally long lists of rows lexicographically: -1, 0 or 1.
fn compare_rows(a: &Vec<u64>, b: &Vec<u64>) -> (r: i8)
    requires
        a@.len() == b@.len(),
    ensures
        r == 0 <==> a@ == b@,
        r < 0 <==> lex_less(a@, b@),
        r > 0 <==> lex_less(b@, a@),
{
    let mut i: usize = 0;
    while i < a.len()
        invariant
            a@.len() == b@.len(),
            i <= a@.len(),
            a@.take(i as int) == b@.take(i as int),
        decreases a@.len() - i,
    {
        if a[i] < b[i] {
            assert(a@.take(i as int) == b@.take(i as int));
            assert(!lex_less(b@, a@)) by {
                if lex_less(b@, a@) {
                    let j = choose|j: int| 0 <= j < b@.len() && b@.take(j) == a@.take(j) && #[trigger] b@[j] < a@[j];
                    if j < i {
                        assert(a@.take(i as int)[j] == b@.take(i as int)[j]);
                    } else if j > i {
                        assert(b@.take(j)[i as int] == a@.take(j)[i as int]);
                    }
                }
            }
            return -1;
        }
        if a[i] > b[i] {
            assert(!lex_less(a@, b@)) by {
                if lex_less(a@, b@) {
                    let j = choose|j: int| 0 <= j < a@.len() && a@.take(j) == b@.take(j) && #[trigger] a@[j] < b@[j];
                    if j < i {
                        assert(a@.take(i as int)[j] == b@.take(i as int)[j]);
                    } else if j > i {
                        assert(b@.take(j)[i as int] == a@.take(j)[i as int]);
                    }
                }
            }
            return 1;
        }
        assert(a@.take(i as int + 1) =~= b@.take(i as int + 1)) by {
            assert(a@.take(i as int + 1) =~= a@.take(i as int).push(a@[i as int]));
            assert(b@.take(i as int + 1) =~= b@.take(i as int).push(b@[i as int]));
        }
        i = i + 1;
    }
    assert(a@ =~= a@.take(a@.len() as int));
    assert(b@ =~= b@.take(b@.len() as int));
    assert(!lex_less(a@, b@));
    assert(!lex_less(b@, a@));
    0
}

impl Graph {
    /// Refines a given original colouring based on given hash values provided for every
    /// vertex. Each of the original classes is split into the classes of vertices of
    /// equal hash values, sorted by hash value; empty classes are dropped.
    fn refined_coloring(&self, orig_classes: &Vec<u64>, hashes: &Vec<u128>) -> (new_classes: Vec<u64>)
        requires
            self.num_vertices <= 64,
            is_cover(orig_classes@, self.num_vertices as int),
            hashes@.len() >= self.num_vertices,
        ensures
            is_partition(new_classes@, self.num_vertices as int),
            new_classes@ == recolor_spec(orig_classes@, hashes@, orig_classes@.len() as int),
    {
        let ghost n = self.num_vertices as int;
        let mut new_classes: Vec<u64> = Vec::new();
        let mut j: usize = 0;
        while j < orig_classes.len()
            invariant
                n == self.num_vertices,
                n <= 64,
                is_cover(orig_classes@, n),
                hashes@.len() >= n,
                j <= orig_classes@.len(),
                partial_refinement(new_classes@, orig_classes@, j as int),
                new_classes@ == recolor_spec(orig_classes@, hashes@, j as int),
            decreases orig_classes@.len() - j,
        {
            let class_mask = orig_classes[j];
            let ghost before = new_classes@;
            if class_mask == 0 {
                proof {
                    lemma_bits_all();
                    assert forall|v: int| #[trigger] covered(new_classes@, v) <==> exists|i: int|
                        0 <= i < j + 1 && #[trigger] in_class(orig_classes@, i, v) by {
                        if exists|i: int| 0 <= i < j + 1 && #[trigger] in_class(orig_classes@, i, v) {
                            let i = choose|i: int| 0 <= i < j + 1 && #[trigger] in_class(orig_classes@, i, v);
                            assert(i != j);
                        }
                    }
                }
            } else {
                let vs = bit_positions(class_mask);
                proof {
                    lemma_bits_seq(class_mask);
                    assert forall|x: int| #[trigger] bit(class_mask, x) implies x < n by {
                        assert(in_class(orig_classes@, j as int, x));
                    }
                }
                let mut keys: Vec<u128> = Vec::new();
                let mut t: usize = 0;
                while t < vs.len()
                    invariant
                        vs@.len() == bits_seq(class_mask).len(),
                        forall|s: int| 0 <= s < vs@.len() ==> #[trigger] vs@[s] as int == bits_seq(class_mask)[s],
                        forall|x: int| bits_seq(class_mask).contains(x) <==> #[trigger] bit(class_mask, x),
                        forall|x: int| #[trigger] bit(class_mask, x) ==> x < n,
                        hashes@.len() >= n,
                        t <= vs@.len(),
                        keys@.len() == t,
                        forall|s: int| 0 <= s < t ==> #[trigger] keys@[s] == hashes@[vs@[s] as int],
                    decreases vs@.len() - t,
                {
                    proof {
                        assert(bits_seq(class_mask).contains(vs@[t as int] as int));
                        assert(bit(class_mask, vs@[t as int] as int));
                    }
                    keys.push(hashes[vs[t]]);
                    t = t + 1;
                }
                proof {
                    assert forall|s: int| 0 <= s < vs@.len() implies #[trigger] vs@[s] < 64 by {
                        assert(bits_seq(class_mask).contains(vs@[s] as int));
                    }
                    assert forall|a: int, b: int| 0 <= a < vs@.len() && 0 <= b < vs@.len() && #[trigger] vs@[a] == #[trigger] vs@[b] implies a == b by {
                        if a < b {
                            assert(bits_seq(class_mask)[a] < bits_seq(class_mask)[b]);
                        } else if b < a {
                            assert(bits_seq(class_mask)[b] < bits_seq(class_mask)[a]);
                        }
                    }
                }
                let groups = group_by_key(&vs, &keys);
                proof {
                    lemma_groups_split(groups@, class_mask, vs@, keys@);
                    lemma_hash_members(class_mask, hashes@);
                    assert(vs@ =~= class_vs(class_mask)) by {
                        assert forall|s: int| 0 <= s < vs@.len() implies vs@[s] == class_vs(class_mask)[s] by {
                            assert(vs@[s] as int == bits_seq(class_mask)[s]);
                        }
                    }
                    assert(keys@ =~= hash_keys(class_mask, hashes@)) by {
                        assert forall|s: int| 0 <= s < keys@.len() implies keys@[s] == hash_keys(class_mask, hashes@)[s] by {
                            assert(vs@[s] as int == bits_seq(class_mask)[s]);
                        }
                    }
                    lemma_groups_unique(groups@, vs@, keys@, hash_groups(class_mask, hashes@), class_vs(class_mask), hash_keys(class_mask, hashes@));
                }
                let mut k: usize = 0;
                while k < groups.len()
                    invariant
                        k <= groups@.len(),
                        new_classes@ == before + groups@.map_values(|g: (u128, u64)| g.1).take(k as int),
                    decreases groups@.len() - k,
                {
                    new_classes.push(groups[k].1);
                    proof {
                        assert(groups@.map_values(|g: (u128, u64)| g.1).take(k as int + 1) =~= groups@.map_values(
                            |g: (u128, u64)| g.1,
                        ).take(k as int).push(groups@[k as int].1));
                        assert(new_classes@ =~= before + groups@.map_values(|g: (u128, u64)| g.1).take(
                            k as int + 1,
                        ));
                    }
                    k = k + 1;
                }
                proof {
                    let parts = groups@.map_values(|g: (u128, u64)| g.1);
                    assert(parts.take(parts.len() as int) =~= parts);
                    lemma_append_split(before, parts, orig_classes@, j as int);
                }
            }
            j = j + 1;
        }
        proof {
            assert forall|v: int| 0 <= v < n implies #[trigger] covered(new_classes@, v) by {
                assert(covered(orig_classes@, v));
                let i = choose|i: int| #[trigger] in_class(orig_classes@, i, v);
                assert(0 <= i < orig_classes@.len());
            }
            assert forall|k: int, v: int| #[trigger] in_class(new_classes@, k, v) implies 0 <= v < n by {
                assert(covered(new_classes@, v));
                let i = choose|i: int| 0 <= i < orig_classes@.len() && #[trigger] in_class(orig_classes@, i, v);
            }
        }
        new_classes
    }
}


/// The refinement signature of a vertex with adjacency row `row`: its numbers of
/// neighbours in the classes `0..j`, folded into one number.
pub open spec fn signature(row: u64, classes: Seq<u64>, j: int) -> u128
    decreases j,
{
    if j <= 0 {
        0
    } else {
        signature(row, classes, j - 1).wrapping_mul(257).wrapping_add(
            (popcount(row & classes[j - 1]) + (j - 1) * 17) as u128,
        )
    }
}

/// All vertices of class `i` have the same signature.
pub open spec fn uniform(adj: Seq<u64>, classes: Seq<u64>, i: int) -> bool {
    forall|v: int, w: int| #[trigger] in_class(classes, i, v) && #[trigger] in_class(classes, i, w)
        ==> signature(adj[v], classes, classes.len() as int) == signature(adj[w], classes, classes.len() as int)
}

/// No class would be split by the signatures: the colouring is stable.
pub open spec fn is_stable(adj: Seq<u64>, classes: Seq<u64>) -> bool {
    forall|i: int| 0 <= i < classes.len() ==> #[trigger] uniform(adj, classes, i)
}

/// Every class of `fine` lies inside a class of `coarse`.
pub open spec fn refines(fine: Seq<u64>, coarse: Seq<u64>) -> bool {
    forall|k: int, i: int, v: int, w: int| #[trigger] in_class(fine, k, v) && #[trigger] in_class(fine, k, w)
        && #[trigger] in_class(coarse, i, v) ==> in_class(coarse, i, w)
}

proof fn lemma_refines_refl(c: Seq<u64>, n: int)
    requires
        is_partition(c, n),
    ensures
        refines(c, c),
{
}

proof fn lemma_refines_trans(a: Seq<u64>, b: Seq<u64>, c: Seq<u64>, n: int)
    requires
        is_partition(a, n),
        is_partition(b, n),
        refines(a, b),
        refines(b, c),
    ensures
        refines(a, c),
{
    assert forall|k: int, i: int, v: int, w: int| #[trigger] in_class(a, k, v) && #[trigger] in_class(a, k, w)
        && #[trigger] in_class(c, i, v) implies in_class(c, i, w) by {
        assert(0 <= v < n);
        assert(covered(b, v));
        let m = choose|m: int| #[trigger] in_class(b, m, v);
        assert(in_class(b, m, w));
    }
}

/// Replacing a class by a split of it refines the partition.
pub(crate) proof fn lemma_replace_refines(classes: Seq<u64>, i: int, parts: Seq<u64>, n: int)
    requires
        is_partition(classes, n),
        0 <= i < classes.len(),
        splits(parts, classes[i]),
    ensures
        refines(classes.take(i) + parts + classes.skip(i + 1), classes),
{
    let r = classes.take(i) + parts + classes.skip(i + 1);
    let p = parts.len() as int;
    assert forall|k: int, c: int, v: int, w: int| #[trigger] in_class(r, k, v) && #[trigger] in_class(r, k, w)
        && #[trigger] in_class(classes, c, v) implies in_class(classes, c, w) by {
        let ck = if k < i { k } else if k < i + p { i } else { k - p + 1 };
        if k < i {
            assert(r[k] == classes[k]);
        } else if k < i + p {
            assert(r[k] == parts[k - i]);
            assert(in_class(parts, k - i, v) && in_class(parts, k - i, w));
            assert(covered(parts, v) && covered(parts, w));
        } else {
            assert(r[k] == classes[k - p + 1]);
        }
        assert(in_class(classes, ck, v) && in_class(classes, ck, w));
    }
}

/// A class with at most one vertex is uniform.
proof fn lemma_small_uniform(adj: Seq<u64>, classes: Seq<u64>, i: int)
    requires
        0 <= i < classes.len(),
        popcount(classes[i]) <= 1,
    ensures
        uniform(adj, classes, i),
{
    lemma_bits_seq(classes[i]);
    assert forall|v: int, w: int| #[trigger] in_class(classes, i, v) && #[trigger] in_class(classes, i, w)
        implies v == w by {
        assert(bits_seq(classes[i]).contains(v));
        assert(bits_seq(classes[i]).contains(w));
    }
}

impl Graph {
    /// The signature of vertex `v` in the colouring `classes`.
    fn signature_of(&self, v: usize, classes: &Vec<u64>) -> (h: u128)
        requires
            v < self.adj@.len(),
            classes@.len() <= 64,
        ensures
            h == signature(self.adj@[v as int], classes@, classes@.len() as int),
    {
        let row = self.adj[v];
        let mut h: u128 = 0;
        let mut j: usize = 0;
        while j < classes.len()
            invariant
                row == self.adj@[v as int],
                classes@.len() <= 64,
                j <= classes@.len(),
                h == signature(row, classes@, j as int),
            decreases classes@.len() - j,
        {
            let cnt = count_ones(row & classes[j]) as u128;
            h = h.wrapping_mul(257).wrapping_add(cnt + j as u128 * 17);
            j = j + 1;
        }
        h
    }

    /// Split the vertices of `class_mask` by their signatures in `classes`: the
    /// groups of equal signature, sorted by signature.
    fn split_by_signature(&self, classes: &Vec<u64>, class_mask: u64) -> (groups: Vec<(u128, u64)>)
        requires
            self.adj@.len() <= 64,
            classes@.len() <= 64,
            forall|x: int| #[trigger] bit(class_mask, x) ==> x < self.adj@.len(),
        ensures
            splits(groups@.map_values(|g: (u128, u64)| g.1), class_mask),
            class_mask != 0 ==> groups@.len() >= 1,
            groups@.len() <= popcount(class_mask),
            groups@.len() == 1 ==> forall|x: int| #[trigger] bit(class_mask, x) ==>
                signature(self.adj@[x], classes@, classes@.len() as int) == groups@[0].0,
            groups_ok(groups@, class_vs(class_mask), sig_keys(self.adj@, classes@, class_mask)),
    {
        let vs = bit_positions(class_mask);
        proof {
            lemma_bits_seq(class_mask);
        }
        let mut keys: Vec<u128> = Vec::new();
        let mut t: usize = 0;
        while t < vs.len()
            invariant
                vs@.len() == bits_seq(class_mask).len(),
                forall|s: int| 0 <= s < vs@.len() ==> #[trigger] vs@[s] as int == bits_seq(class_mask)[s],
                forall|x: int| bits_seq(class_mask).contains(x) <==> #[trigger] bit(class_mask, x),
                forall|x: int| #[trigger] bit(class_mask, x) ==> x < self.adj@.len(),
                classes@.len() <= 64,
                t <= vs@.len(),
                keys@.len() == t,
                forall|s: int| 0 <= s < t ==> #[trigger] keys@[s] == signature(self.adj@[vs@[s] as int], classes@, classes@.len() as int),
            decreases vs@.len() - t,
        {
            proof {
                assert(bits_seq(class_mask).contains(vs@[t as int] as int));
                assert(bit(class_mask, vs@[t as int] as int));
            }
            let h = self.signature_of(vs[t], classes);
            keys.push(h);
            t = t + 1;
        }
        proof {
            assert forall|s: int| 0 <= s < vs@.len() implies #[trigger] vs@[s] < 64 by {
                assert(bits_seq(class_mask).contains(vs@[s] as int));
            }
            assert forall|a: int, b: int| 0 <= a < vs@.len() && 0 <= b < vs@.len() && #[trigger] vs@[a] == #[trigger] vs@[b] implies a == b by {
                if a < b {
                    assert(bits_seq(class_mask)[a] < bits_seq(class_mask)[b]);
                } else if b < a {
                    assert(bits_seq(class_mask)[b] < bits_seq(class_mask)[a]);
                }
            }
        }
        let groups = group_by_key(&vs, &keys);
        proof {
            assert(vs@ =~= class_vs(class_mask)) by {
                assert forall|s: int| 0 <= s < vs@.len() implies vs@[s] == class_vs(class_mask)[s] by {
                    assert(vs@[s] as int == bits_seq(class_mask)[s]);
                }
            }
            assert(keys@ =~= sig_keys(self.adj@, classes@, class_mask)) by {
                assert forall|s: int| 0 <= s < keys@.len() implies keys@[s] == sig_keys(self.adj@, classes@, class_mask)[s] by {
                    assert(vs@[s] as int == bits_seq(class_mask)[s]);
                }
            }
            lemma_groups_split(groups@, class_mask, vs@, keys@);
            if groups@.len() == 1 {
                assert forall|x: int| #[trigger] bit(class_mask, x) implies signature(
                    self.adj@[x], classes@, classes@.len() as int) == groups@[0].0 by {
                    assert(bits_seq(class_mask).contains(x));
                    let t = choose|t: int| 0 <= t < bits_seq(class_mask).len() && bits_seq(class_mask)[t] == x;
                    assert(has_group(groups@, keys@[t]));
                    assert(vs@[t] as int == x);
                }
            }
        }
        groups
    }

    /// Refine the colouring until no class is split by the signatures of its
    /// vertices; a class that splits is replaced, in place, by its parts sorted
    /// by signature, and the search starts again from the first class.
    fn refine(&self, classes: &mut Vec<u64>)
        requires
            self.wf(),
            is_partition(old(classes)@, self.num_vertices as int),
        ensures
            is_partition(final(classes)@, self.num_vertices as int),
            refines(final(classes)@, old(classes)@),
            is_stable(self.adj@, final(classes)@),
            final(classes)@.len() >= old(classes)@.len(),
            final(classes)@ == refine_spec(self.adj@, old(classes)@),
    {
        let ghost n = self.num_vertices as int;
        let ghost start = classes@;
        proof {
            lemma_refines_refl(start, n);
        }
        loop
            invariant
                self.wf(),
                n == self.num_vertices,
                is_partition(start, n),
                is_partition(classes@, n),
                refines(classes@, start),
                classes@.len() >= start.len(),
                refine_spec(self.adj@, classes@) == refine_spec(self.adj@, start),
            ensures
                is_partition(classes@, n),
                refines(classes@, start),
                is_stable(self.adj@, classes@),
                classes@.len() >= start.len(),
                classes@ == refine_spec(self.adj@, start),
            decreases n - classes@.len(),
        {
            proof {
                lemma_partition_len(classes@, n);
            }
            let mut changed = false;
            let mut found: Vec<(u128, u64)> = Vec::new();
            let mut i: usize = 0;
            while i < classes.len()
                invariant_except_break
                    !changed,
                invariant
                    self.wf(),
                    n == self.num_vertices,
                    is_partition(classes@, n),
                    classes@.len() <= n,
                    i <= classes@.len(),
                    forall|k: int| 0 <= k < i ==> #[trigger] uniform(self.adj@, classes@, k),
                    first_split(self.adj@, classes@, 0) == first_split(self.adj@, classes@, i as int),
                ensures
                    changed ==> i < classes@.len() && found@.len() > 1 && splits(
                        found@.map_values(|g: (u128, u64)| g.1), classes@[i as int]),
                    changed ==> first_split(self.adj@, classes@, 0) == i && found@ == split_of(self.adj@, classes@, i as int),
                    !changed ==> forall|k: int| 0 <= k < classes@.len() ==> #[trigger] uniform(self.adj@, classes@, k),
                    !changed ==> first_split(self.adj@, classes@, 0) == classes@.len(),
                decreases classes@.len() - i,
            {
                let class_mask = classes[i];
                if count_ones(class_mask) > 1 {
                    proof {
                        assert forall|x: int| #[trigger] bit(class_mask, x) implies x < self.adj@.len() by {
                            assert(in_class(classes@, i as int, x));
                        }
                    }
                    let groups = self.split_by_signature(classes, class_mask);
                    proof {
                        lemma_split_ok(self.adj@, classes@, i as int);
                        lemma_class_members(self.adj@, classes@, class_mask);
                        lemma_groups_unique(groups@, class_vs(class_mask), sig_keys(self.adj@, classes@, class_mask),
                            split_of(self.adj@, classes@, i as int), class_vs(class_mask), sig_keys(self.adj@, classes@, class_mask));
                    }
                    if groups.len() > 1 {
                        changed = true;
                        found = groups;
                        break;
                    }
                    proof {
                        assert forall|v: int, w: int| #[trigger] in_class(classes@, i as int, v)
                            && #[trigger] in_class(classes@, i as int, w) implies signature(
                            self.adj@[v], classes@, classes@.len() as int) == signature(
                            self.adj@[w], classes@, classes@.len() as int) by {
                            assert(bit(class_mask, v) && bit(class_mask, w));
                        }
                    }
                } else {
                    proof {
                        lemma_small_uniform(self.adj@, classes@, i as int);
                    }
                }
                i = i + 1;
            }
            if !changed {
                proof {
                    assert(refine_spec(self.adj@, classes@) == classes@);
                }
                break;
            }
            let groups = found;
            let ghost prev = classes@;
            let ghost parts = groups@.map_values(|g: (u128, u64)| g.1);
            let mut next: Vec<u64> = Vec::new();
            let mut k: usize = 0;
            while k < i
                invariant
                    k <= i < prev.len(),
                    classes@ == prev,
                    next@ == prev.take(k as int),
                decreases i - k,
            {
                next.push(classes[k]);
                assert(next@ =~= prev.take(k as int + 1));
                k = k + 1;
            }
            let mut k: usize = 0;
            while k < groups.len()
                invariant
                    i < prev.len(),
                    k <= groups@.len(),
                    parts == groups@.map_values(|g: (u128, u64)| g.1),
                    next@ == prev.take(i as int) + parts.take(k as int),
                decreases groups@.len() - k,
            {
                next.push(groups[k].1);
                assert(next@ =~= prev.take(i as int) + parts.take(k as int + 1));
                k = k + 1;
            }
            let mut k: usize = i + 1;
            while k < classes.len()
                invariant
                    i < k <= prev.len(),
                    classes@ == prev,
                    next@ == prev.take(i as int) + parts + prev.skip(i as int + 1).take(k - i - 1),
                decreases prev.len() - k,
            {
                next.push(classes[k]);
                assert(next@ =~= prev.take(i as int) + parts + prev.skip(i as int + 1).take(k - i));
                k = k + 1;
            }
            proof {
                assert(parts.take(parts.len() as int) =~= parts);
                assert(prev.skip(i as int + 1).take(prev.len() - i - 1) =~= prev.skip(i as int + 1));
                lemma_replace_split(prev, i as int, parts, n);
                lemma_replace_refines(prev, i as int, parts, n);
                lemma_refines_trans(next@, prev, start, n);
                lemma_partition_len(next@, n);
                assert(next@.len() == prev.len() + parts.len() - 1);
                lemma_partition_len(prev, n);
                assert(parts == split_parts(self.adj@, prev, i as int));
                assert(next@ == replaced(prev, i as int, parts));
                assert(refine_spec(self.adj@, prev) == refine_spec(self.adj@, next@));
            }
            *classes = next;
        }
    }
}


/// Each vertex `v` below `n` is sent to the index of its class.
pub open spec fn labels_classes(perm: Seq<u8>, classes: Seq<u64>, n: int) -> bool {
    forall|v: int| 0 <= v < n ==> #[trigger] in_class(classes, perm[v] as int, v)
}

/// A partition into classes of one vertex each sends each vertex to the index
/// of its class by a permutation.
pub(crate) proof fn lemma_discrete_perm(perm: Seq<u8>, classes: Seq<u64>, n: int)
    requires
        is_partition(classes, n),
        n <= 64,
        perm.len() == n,
        labels_classes(perm, classes, n),
        forall|i: int| 0 <= i < classes.len() ==> popcount(#[trigger] classes[i]) <= 1,
    ensures
        is_perm(perm),
{
    lemma_partition_len(classes, n);
    assert forall|i: int| 0 <= i < n implies #[trigger] perm[i] < n by {
        assert(in_class(classes, perm[i] as int, i));
    }
    assert forall|i: int, j: int| 0 <= i < n && 0 <= j < n && i != j implies perm[i] != perm[j] by {
        assert(in_class(classes, perm[i] as int, i));
        assert(in_class(classes, perm[j] as int, j));
        if perm[i] == perm[j] {
            lemma_bits_seq(classes[perm[i] as int]);
            assert(bits_seq(classes[perm[i] as int]).contains(i));
            assert(bits_seq(classes[perm[i] as int]).contains(j));
        }
    }
}

/// The only position of a mask with one position is its lowest.
proof fn lemma_single_position(c: u64, x: int)
    requires
        popcount(c) == 1,
        bit(c, x),
    ensures
        x == u64_trailing_zeros(c) as int,
{
    lemma_bits_seq(c);
    lemma_clear_lowest_smaller(c);
    assert(bits_seq(c)[0] == u64_trailing_zeros(c) as int);
    assert(bits_seq(c).contains(x));
}

impl Graph {
    /// The adjacency rows of the graph relabelled by `perm`.
    fn graph_score(&self, perm: &Vec<u8>) -> (score: Vec<u64>)
        requires
            self.wf(),
            is_perm(perm@),
            perm@.len() == self.num_vertices,
        ensures
            scores_as(self@, perm@, score@),
    {
        let pe = permute_edges(self.edges.as_slice(), perm.as_slice());
        proof {
            assert forall|k: int| 0 <= k < pe@.len() implies #[trigger] pe@[k].0 < self.num_vertices
                && pe@[k].1 < self.num_vertices by {
                assert(pe@[k] == permute_edge(self.edges@[k], perm@));
            }
            assert(pe@ =~= permuted_edges(self@, perm@));
        }
        adjacency(self.num_vertices, &pe)
    }

    /// The labelling given by a colouring of one vertex per class: each vertex
    /// is sent to the index of its class.
    fn leaf_permutation(&self, classes: &Vec<u64>) -> (perm: Vec<u8>)
        requires
            self.num_vertices <= 64,
            is_partition(classes@, self.num_vertices as int),
            forall|i: int| 0 <= i < classes@.len() ==> popcount(#[trigger] classes@[i]) <= 1,
        ensures
            perm@.len() == self.num_vertices,
            is_perm(perm@),
            labels_classes(perm@, classes@, self.num_vertices as int),
    {
        let ghost n = self.num_vertices as int;
        proof {
            lemma_partition_len(classes@, n);
        }
        let mut perm: Vec<u8> = vec![0u8; self.num_vertices as usize];
        let mut i: usize = 0;
        while i < classes.len()
            invariant
                n == self.num_vertices,
                n <= 64,
                is_partition(classes@, n),
                classes@.len() <= n,
                forall|j: int| 0 <= j < classes@.len() ==> popcount(#[trigger] classes@[j]) <= 1,
                perm@.len() == n,
                i <= classes@.len(),
                forall|j: int| 0 <= j < i ==> #[trigger] perm@[u64_trailing_zeros(classes@[j]) as int] == j,
            decreases classes@.len() - i,
        {
            let c = classes[i];
            proof {
                lemma_bits_seq(c);
                lemma_clear_lowest_smaller(c);
                assert(bits_seq(c)[0] == u64_trailing_zeros(c) as int);
                assert(in_class(classes@, i as int, u64_trailing_zeros(c) as int));
                assert forall|j: int| 0 <= j < i implies u64_trailing_zeros(#[trigger] classes@[j]) != u64_trailing_zeros(c) by {
                    let cj = classes@[j];
                    lemma_bits_seq(cj);
                    lemma_clear_lowest_smaller(cj);
                    assert(bits_seq(cj)[0] == u64_trailing_zeros(cj) as int);
                    assert(in_class(classes@, j, u64_trailing_zeros(cj) as int));
                }
            }
            let v = c.trailing_zeros() as usize;
            let ghost prev = perm@;
            perm.set(v, i as u8);
            proof {
                assert forall|j: int| 0 <= j < i + 1 implies #[trigger] perm@[u64_trailing_zeros(classes@[j]) as int] == j by {
                    if j < i {
                        let cj = classes@[j];
                        lemma_bits_seq(cj);
                        lemma_clear_lowest_smaller(cj);
                        assert(bits_seq(cj)[0] == u64_trailing_zeros(cj) as int);
                        assert(in_class(classes@, j, u64_trailing_zeros(cj) as int));
                        assert(u64_trailing_zeros(classes@[j]) != u64_trailing_zeros(c));
                        assert(perm@[u64_trailing_zeros(classes@[j]) as int] == prev[u64_trailing_zeros(classes@[j]) as int]);
                    }
                }
            }
            i = i + 1;
        }
        proof {
            assert forall|v: int| 0 <= v < n implies #[trigger] in_class(classes@, perm@[v] as int, v) by {
                assert(covered(classes@, v));
                let c = choose|c: int| #[trigger] in_class(classes@, c, v);
                lemma_bits_seq(classes@[c]);
                assert(bits_seq(classes@[c]).contains(v));
                lemma_single_position(classes@[c], v);
            }
            lemma_discrete_perm(perm@, classes@, n);
        }
        perm
    }

    /// Keep `perm` among the best candidates: it replaces them if it scores
    /// lower, joins them if it scores the same, and is dropped otherwise.
    fn record_leaf(&self, perm: Vec<u8>, best: &mut Option<(Vec<u64>, Vec<Vec<u8>>)>, Ghost(seen): Ghost<Set<Seq<u8>>>)
        requires
            self.wf(),
            is_perm(perm@),
            perm@.len() == self.num_vertices,
            best_ok(self@, *old(best)),
            best_state(self@, *old(best), seen),
            !seen.contains(perm@),
        ensures
            best_ok(self@, *final(best)),
            (*final(best)) is Some,
            best_state(self@, *final(best), seen.insert(perm@)),
    {
        let ghost p = perm@;
        let ghost s2 = seen.insert(p);
        let score = self.graph_score(&perm);
        proof {
            lemma_scores_unique(self@, p, score@, score_of(self@, p));
            assert(score_of(self@, p) == score@);
            assert forall|lam: Seq<u8>| #[trigger] s2.contains(lam) implies scores_as(self@, lam, score_of(self@, lam)) by {
                if lam != p {
                    assert(seen.contains(lam));
                }
            }
        }
        let cur = best.take();
        match cur {
            None => {
                let mut ps: Vec<Vec<u8>> = Vec::new();
                ps.push(perm);
                proof {
                    assert(ps@[0]@ == p);
                    assert(seen =~= Set::<Seq<u8>>::empty());
                    assert forall|lam: Seq<u8>| #[trigger] s2.contains(lam) implies !lex_less(score_of(self@, lam), score@) by {
                        assert(lam == p);
                        assert(!lex_less(score@, score@));
                    }
                    assert forall|lam: Seq<u8>| #[trigger] s2.contains(lam) && score_of(self@, lam) == score@ implies exists|k: int| 0 <= k < ps@.len() && #[trigger] ps@[k]@ == lam by {
                        assert(ps@[0]@ == lam);
                    }
                }
                *best = Some((score, ps));
            },
            Some((bs, ps)) => {
                let mut ps = ps;
                proof {
                    assert(scores_as(self@, ps@[0]@, bs@));
                    assert(ps@[0]@ == ps@[0]@);
                }
                let c = compare_rows(&score, &bs);
                if c < 0 {
                    let mut fresh: Vec<Vec<u8>> = Vec::new();
                    fresh.push(perm);
                    proof {
                        assert(fresh@[0]@ == p);
                        assert forall|lam: Seq<u8>| #[trigger] s2.contains(lam) implies !lex_less(score_of(self@, lam), score@) by {
                            if lam == p {
                                assert(!lex_less(score@, score@));
                            } else {
                                assert(seen.contains(lam));
                                assert(!lex_less(score_of(self@, lam), bs@));
                                if lex_less(score_of(self@, lam), score@) {
                                    lemma_lex_trans(score_of(self@, lam), score@, bs@);
                                }
                            }
                        }
                        assert forall|lam: Seq<u8>| #[trigger] s2.contains(lam) && score_of(self@, lam) == score@ implies exists|k: int| 0 <= k < fresh@.len() && #[trigger] fresh@[k]@ == lam by {
                            if lam != p {
                                assert(seen.contains(lam));
                                assert(!lex_less(score_of(self@, lam), bs@));
                            }
                            assert(fresh@[0]@ == lam);
                        }
                    }
                    *best = Some((score, fresh));
                } else if c == 0 {
                    let ghost before = ps@;
                    ps.push(perm);
                    proof {
                        assert(ps@[before.len() as int]@ == p);
                        assert forall|k: int| 0 <= k < ps@.len() implies scores_as(self@, #[trigger] ps@[k]@, bs@) by {
                            if k < before.len() {
                                assert(ps@[k] == before[k]);
                            }
                        }
                        assert forall|k: int| 0 <= k < ps@.len() implies s2.contains(#[trigger] ps@[k]@) && score_of(self@, ps@[k]@) == bs@ by {
                            if k < before.len() {
                                assert(ps@[k] == before[k]);
                            }
                        }
                        assert forall|lam: Seq<u8>| #[trigger] s2.contains(lam) implies !lex_less(score_of(self@, lam), bs@) by {
                            if lam == p {
                                assert(!lex_less(bs@, bs@));
                            }
                        }
                        assert forall|lam: Seq<u8>| #[trigger] s2.contains(lam) && score_of(self@, lam) == bs@ implies exists|k: int| 0 <= k < ps@.len() && #[trigger] ps@[k]@ == lam by {
                            if lam == p {
                                assert(ps@[before.len() as int]@ == lam);
                            } else {
                                assert(seen.contains(lam));
                                let k = choose|k: int| 0 <= k < before.len() && #[trigger] before[k]@ == lam;
                                assert(ps@[k] == before[k]);
                            }
                        }
                        assert forall|x: int, y: int| 0 <= x < y < ps@.len() implies #[trigger] ps@[x]@ != #[trigger] ps@[y]@ by {
                            assert(ps@[x] == before[x]);
                            if y < before.len() {
                                assert(ps@[y] == before[y]);
                            } else {
                                assert(seen.contains(before[x]@));
                            }
                        }
                    }
                    *best = Some((bs, ps));
                } else {
                    proof {
                        assert forall|lam: Seq<u8>| #[trigger] s2.contains(lam) implies !lex_less(score_of(self@, lam), bs@) by {
                            if lam != p {
                                assert(seen.contains(lam));
                            }
                        }
                        assert forall|lam: Seq<u8>| #[trigger] s2.contains(lam) && score_of(self@, lam) == bs@ implies exists|k: int| 0 <= k < ps@.len() && #[trigger] ps@[k]@ == lam by {
                            if lam != p {
                                assert(seen.contains(lam));
                            }
                        }
                        assert forall|k: int| 0 <= k < ps@.len() implies s2.contains(#[trigger] ps@[k]@) && score_of(self@, ps@[k]@) == bs@ by {
                            assert(seen.contains(ps@[k]@));
                        }
                    }
                    *best = Some((bs, ps));
                }
            },
        }
    }

    /// Search the tree of individualisations below the colouring `classes`:
    /// at each leaf, where every class holds one vertex, the labelling is kept
    /// among the best candidates, those of lowest relabelled adjacency rows.
    fn search_multi_bm(&self, classes: &Vec<u64>, best: &mut Option<(Vec<u64>, Vec<Vec<u8>>)>, Ghost(seen): Ghost<Set<Seq<u8>>>)
        requires
            self.wf(),
            is_partition(classes@, self.num_vertices as int),
            best_ok(self@, *old(best)),
            best_state(self@, *old(best), seen),
            forall|lam: Seq<u8>| #[trigger] is_leaf(self.adj@, classes@, self.num_vertices as int, lam) ==> !seen.contains(lam),
        ensures
            best_ok(self@, *final(best)),
            (*final(best)) is Some,
            best_state(self@, *final(best), seen.union(Set::new(|lam: Seq<u8>| is_leaf(self.adj@, classes@, self.num_vertices as int, lam)))),
        decreases self.num_vertices - classes@.len(),
    {
        let ghost n = self.num_vertices as int;
        let ghost adj = self.adj@;
        let ghost leaves = Set::new(|lam: Seq<u8>| is_leaf(adj, classes@, n, lam));
        proof {
            lemma_partition_len(classes@, n);
            lemma_first_big(classes@, 0);
        }
        let mut class_pos: usize = 0;
        while class_pos < classes.len()
            invariant
                class_pos <= classes@.len(),
                forall|j: int| 0 <= j < class_pos ==> popcount(#[trigger] classes@[j]) <= 1,
            ensures
                class_pos <= classes@.len(),
                forall|j: int| 0 <= j < class_pos ==> popcount(#[trigger] classes@[j]) <= 1,
                class_pos < classes@.len() ==> popcount(classes@[class_pos as int]) > 1,
            decreases classes@.len() - class_pos,
        {
            if count_ones(classes[class_pos]) > 1 {
                break;
            }
            class_pos = class_pos + 1;
        }
        proof {
            let fb = first_big(classes@, 0);
            if fb < class_pos {
                assert(popcount(classes@[fb]) <= 1);
            }
            if fb > class_pos {
                assert(popcount(classes@[class_pos as int]) <= 1);
            }
            assert(fb == class_pos);
        }
        if class_pos == classes.len() {
            let perm = self.leaf_permutation(classes);
            proof {
                assert(perm@ =~= leaf_labelling(classes@, n)) by {
                    assert forall|v: int| 0 <= v < n implies perm@[v] == leaf_labelling(classes@, n)[v] by {
                        assert(covered(classes@, v));
                        assert(in_class(classes@, class_index(classes@, v), v));
                        assert(in_class(classes@, perm@[v] as int, v));
                    }
                }
                assert(is_leaf(adj, classes@, n, perm@));
                assert(leaves =~= Set::<Seq<u8>>::empty().insert(perm@));
                assert(seen.insert(perm@) =~= seen.union(leaves));
            }
            self.record_leaf(perm, best, Ghost(seen));
            return;
        }
        let class = classes[class_pos];
        proof {
            assert(popcount(class) > 1);
        }
        let mut v: u8 = 0;
        while v < self.num_vertices
            invariant
                self.wf(),
                n == self.num_vertices,
                adj == self.adj@,
                is_partition(classes@, n),
                classes@.len() <= n,
                class_pos < classes@.len(),
                class_pos == first_big(classes@, 0),
                class == classes@[class_pos as int],
                popcount(class) > 1,
                v <= self.num_vertices,
                best_ok(self@, *best),
                (exists|x: int| 0 <= x < v && #[trigger] bit(class, x)) ==> (*best) is Some,
                leaves == Set::new(|lam: Seq<u8>| is_leaf(adj, classes@, n, lam)),
                forall|lam: Seq<u8>| #[trigger] is_leaf(adj, classes@, n, lam) ==> !seen.contains(lam),
                best_state(self@, *best, seen.union(Set::new(|lam: Seq<u8>| leaf_below(adj, classes@, n, lam, v as int)))),
                (*best is None) ==> seen.union(Set::new(|lam: Seq<u8>| leaf_below(adj, classes@, n, lam, v as int))) =~= Set::<Seq<u8>>::empty(),
            decreases self.num_vertices - v,
        {
            let ghost cur_set = seen.union(Set::new(|lam: Seq<u8>| leaf_below(adj, classes@, n, lam, v as int)));
            let ghost next_set = seen.union(Set::new(|lam: Seq<u8>| leaf_below(adj, classes@, n, lam, v as int + 1)));
            let single = 1u64 << v;
            if class & single != 0 {
                proof {
                    lemma_bits_all();
                    crate::bits::lemma_bit_single(v as u64);
                    crate::bits::lemma_bit_zero();
                    if !bit(class, v as int) {
                        assert forall|x: int| 0 <= x < 64 implies (bit(class & single, x) <==> bit(0u64, x)) by {}
                        lemma_bits_ext(class & single, 0);
                    }
                }
                let others = class & !single;
                let mut new_classes: Vec<u64> = Vec::with_capacity(classes.len() + 1);
                let mut k: usize = 0;
                while k < classes.len()
                    invariant
                        class_pos < classes@.len(),
                        k <= classes@.len(),
                        new_classes@ == (if k <= class_pos {
                            classes@.take(k as int)
                        } else {
                            classes@.take(class_pos as int) + seq![others, single] + classes@.skip(class_pos + 1).take(k - class_pos - 1)
                        }),
                    decreases classes@.len() - k,
                {
                    if k == class_pos {
                        new_classes.push(others);
                        new_classes.push(single);
                        assert(classes@.skip(class_pos + 1).take(0) =~= Seq::<u64>::empty());
                        assert(new_classes@ =~= classes@.take(class_pos as int) + seq![others, single]
                            + classes@.skip(class_pos + 1).take(0));
                    } else {
                        new_classes.push(classes[k]);
                        if k < class_pos {
                            assert(new_classes@ =~= classes@.take(k as int + 1));
                        } else {
                            assert(new_classes@ =~= classes@.take(class_pos as int) + seq![others, single]
                                + classes@.skip(class_pos + 1).take(k + 1 - class_pos - 1));
                        }
                    }
                    k = k + 1;
                }
                proof {
                    assert(classes@.skip(class_pos + 1).take(classes@.len() - class_pos - 1) =~= classes@.skip(class_pos + 1));
                    assert(single == 1u64 << (v as u64));
                    assert(new_classes@ =~= individualised(classes@, class_pos as int, v as int));
                    lemma_individualise_splits(class, v as int);
                    lemma_replace_split(classes@, class_pos as int, seq![others, single], n);
                    lemma_partition_len(new_classes@, n);
                }
                let mut refined = new_classes;
                self.refine(&mut refined);
                proof {
                    lemma_partition_len(refined@, n);
                    lemma_child_props(adj, classes@, n, class_pos as int, v as int);
                    assert(refined@ == child(adj, classes@, v as int));
                    assert forall|lam: Seq<u8>| #[trigger] is_leaf(adj, refined@, n, lam) implies !cur_set.contains(lam) by {
                        lemma_leaf_below(adj, classes@, n, lam, n);
                        assert(bit(classes@[first_big(classes@, 0)], v as int));
                        assert(leaf_below(adj, classes@, n, lam, n));
                        assert(is_leaf(adj, classes@, n, lam));
                        assert(!seen.contains(lam));
                        lemma_leaf_below(adj, classes@, n, lam, v as int);
                        if leaf_below(adj, classes@, n, lam, v as int) {
                            let x = choose|x: int| 0 <= x < v && #[trigger] bit(classes@[first_big(classes@, 0)], x)
                                && child(adj, classes@, x).len() > classes@.len() && child(adj, classes@, x).len() <= 64
                                && is_leaf(adj, child(adj, classes@, x), n, lam);
                            lemma_children_disjoint(adj, classes@, n, x, v as int, lam);
                        }
                    }
                }
                self.search_multi_bm(&refined, best, Ghost(cur_set));
                proof {
                    assert(cur_set.union(Set::new(|lam: Seq<u8>| is_leaf(adj, refined@, n, lam))) =~= next_set) by {
                        assert forall|lam: Seq<u8>| #[trigger] next_set.contains(lam) <==> cur_set.union(Set::new(|lam: Seq<u8>| is_leaf(adj, refined@, n, lam))).contains(lam) by {
                            assert(leaf_below(adj, classes@, n, lam, v as int + 1) == (leaf_below(adj, classes@, n, lam, v as int)
                                || (bit(classes@[first_big(classes@, 0)], v as int) && child(adj, classes@, v as int).len() > classes@.len()
                                && child(adj, classes@, v as int).len() <= 64 && is_leaf(adj, child(adj, classes@, v as int), n, lam))));
                        }
                    }
                }
            } else {
                proof {
                    lemma_bits_all();
                    crate::bits::lemma_bit_single(v as u64);
                    crate::bits::lemma_bit_zero();
                    assert(!bit(class & single, v as int));
                    assert(!bit(class, v as int));
                    if exists|x: int| 0 <= x < v + 1 && #[trigger] bit(class, x) {
                        let x = choose|x: int| 0 <= x < v + 1 && #[trigger] bit(class, x);
                        assert(x < v);
                    }
                    assert(cur_set =~= next_set) by {
                        assert forall|lam: Seq<u8>| #[trigger] next_set.contains(lam) <==> cur_set.contains(lam) by {
                            assert(leaf_below(adj, classes@, n, lam, v as int + 1) == (leaf_below(adj, classes@, n, lam, v as int)
                                || (bit(classes@[first_big(classes@, 0)], v as int) && child(adj, classes@, v as int).len() > classes@.len()
                                && child(adj, classes@, v as int).len() <= 64 && is_leaf(adj, child(adj, classes@, v as int), n, lam))));
                        }
                    }
                }
            }
            v = v + 1;
        }
        proof {
            lemma_bits_seq(class);
            let x = bits_seq(class)[0];
            assert(bit(class, x));
            assert(in_class(classes@, class_pos as int, x));
            assert(seen.union(Set::new(|lam: Seq<u8>| leaf_below(adj, classes@, n, lam, n))) =~= seen.union(leaves)) by {
                assert forall|lam: Seq<u8>| #[trigger] leaves.contains(lam) <==> leaf_below(adj, classes@, n, lam, n) by {
                    assert(is_leaf(adj, classes@, n, lam) == leaf_below(adj, classes@, n, lam, n));
                }
            }
        }
    }
}

/// Taking one position `v` out of a mask with several positions splits it into
/// the rest and `v`.
pub(crate) proof fn lemma_individualise_splits(class: u64, v: int)
    requires
        0 <= v < 64,
        bit(class, v),
        popcount(class) > 1,
    ensures
        splits(seq![class & !(1u64 << (v as u64)), 1u64 << (v as u64)], class),
{
    let single = 1u64 << (v as u64);
    let others = class & !single;
    let parts = seq![others, single];
    lemma_bits_all();
    crate::bits::lemma_bit_single(v as u64);
    lemma_bits_seq(class);
    assert(others != 0) by {
        let a = bits_seq(class)[0];
        let b = bits_seq(class)[1];
        assert(a < b);
        let w = if a == v { b } else { a };
        assert(bit(class, w));
        assert(bit(others, w));
        crate::bits::lemma_bit_zero();
    }
    assert(single != 0) by {
        crate::bits::lemma_bit_zero();
        assert(bit(single, v));
    }
    assert forall|a: int, b: int, x: int| #[trigger] in_class(parts, a, x) && #[trigger] in_class(parts, b, x) implies a == b by {
        assert(parts[0] == others && parts[1] == single);
    }
    assert forall|x: int| #[trigger] covered(parts, x) <==> bit(class, x) by {
        if bit(class, x) {
            if x == v {
                assert(in_class(parts, 1, x));
            } else {
                assert(in_class(parts, 0, x));
            }
        }
        if covered(parts, x) {
            let k = choose|k: int| #[trigger] in_class(parts, k, x);
            assert(k == 0 || k == 1);
        }
    }
}


/// `perm` is an isomorphism from `g` onto `h`: a permutation of the vertices
/// under which adjacency in `g` is adjacency in `h`.
pub open spec fn maps_onto(g: GraphView, perm: Seq<u8>, h: GraphView) -> bool {
    &&& g.n == h.n
    &&& perm.len() == g.n
    &&& is_perm(perm)
    &&& forall|u: int, v: int| 0 <= u < g.n && 0 <= v < g.n ==>
        (#[trigger] g.adjacent(u, v) <==> h.adjacent(perm[u] as int, perm[v] as int))
}

/// `g` and `h` are isomorphic.
pub open spec fn isomorphic(g: GraphView, h: GraphView) -> bool {
    exists|perm: Seq<u8>| #[trigger] maps_onto(g, perm, h)
}

/// Two lists with the same edges, counted with multiplicity, join the same pairs.
pub proof fn lemma_same_edges_adjacent(s1: Seq<(u8, u8)>, s2: Seq<(u8, u8)>, a: int, b: int)
    requires
        s1.to_multiset() == s2.to_multiset(),
    ensures
        adjacent_in(s1, a, b) <==> adjacent_in(s2, a, b),
{
    if adjacent_in(s1, a, b) {
        let k = choose|k: int| 0 <= k < s1.len() && #[trigger] edge_joins(s1[k], a, b);
        assert(s1.contains(s1[k]));
        assert(s2.to_multiset().count(s1[k]) > 0);
        assert(s2.contains(s1[k]));
        let j = choose|j: int| 0 <= j < s2.len() && s2[j] == s1[k];
        assert(edge_joins(s2[j], a, b));
    }
    if adjacent_in(s2, a, b) {
        let k = choose|k: int| 0 <= k < s2.len() && #[trigger] edge_joins(s2[k], a, b);
        assert(s2.contains(s2[k]));
        assert(s1.to_multiset().count(s2[k]) > 0);
        assert(s1.contains(s2[k]));
        let j = choose|j: int| 0 <= j < s1.len() && s1[j] == s2[k];
        assert(edge_joins(s1[j], a, b));
    }
}

/// Relabelling by a permutation carries adjacency of `u` and `v` to adjacency
/// of their images.
pub(crate) proof fn lemma_permuted_adjacent(g: GraphView, perm: Seq<u8>, u: int, v: int)
    requires
        is_perm(perm),
        perm.len() == g.n,
        edges_within(g.edges, g.n as int),
        0 <= u < g.n,
        0 <= v < g.n,
    ensures
        adjacent_in(permuted_edges(g, perm), perm[u] as int, perm[v] as int) <==> g.adjacent(u, v),
{
    let pe = permuted_edges(g, perm);
    let a = perm[u] as int;
    let b = perm[v] as int;
    if g.adjacent(u, v) {
        let k = choose|k: int| 0 <= k < g.edges.len() && #[trigger] edge_joins(g.edges[k], u, v);
        assert(pe[k] == permute_edge(g.edges[k], perm));
        assert(edge_joins(pe[k], a, b));
    }
    if adjacent_in(pe, a, b) {
        let k = choose|k: int| 0 <= k < pe.len() && #[trigger] edge_joins(pe[k], a, b);
        let e = g.edges[k];
        assert(pe[k] == permute_edge(e, perm));
        assert(e.0 < g.n && e.1 < g.n);
        assert(edge_joins(e, u, v));
    }
}

/// The relabelled adjacency rows are unique.
pub(crate) proof fn lemma_scores_unique(g: GraphView, perm: Seq<u8>, r1: Seq<u64>, r2: Seq<u64>)
    requires
        scores_as(g, perm, r1),
        scores_as(g, perm, r2),
    ensures
        r1 == r2,
{
    assert forall|a: int| 0 <= a < r1.len() implies r1[a] == r2[a] by {
        assert forall|b: int| 0 <= b < 64 implies (bit(r1[a], b) <==> bit(r2[a], b)) by {}
        lemma_bits_ext(r1[a], r2[a]);
    }
    assert(r1 =~= r2);
}

/// A graph built from the relabelled edges has the relabelled rows, and the
/// relabelling is an isomorphism onto it.
proof fn lemma_built_relabelled(g: GraphView, perm: Seq<u8>, h: &Graph)
    requires
        is_perm(perm),
        perm.len() == g.n,
        edges_within(g.edges, g.n as int),
        h.built_from(g.n, permuted_edges(g, perm)),
    ensures
        scores_as(g, perm, h.adj@),
        maps_onto(g, perm, h@),
{
    let pe = permuted_edges(g, perm);
    assert(normalized(pe) =~= pe) by {
        assert forall|k: int| 0 <= k < pe.len() implies #[trigger] normalized(pe)[k] == pe[k] by {
            assert(pe[k] == permute_edge(g.edges[k], perm));
        }
    }
    assert forall|a: int, b: int| 0 <= a < g.n implies (#[trigger] bit(h.adj@[a], b) <==> adjacent_in(pe, a, b)) by {
        lemma_same_edges_adjacent(h.edges@, pe, a, b);
    }
    assert forall|u: int, v: int| 0 <= u < g.n && 0 <= v < g.n implies
        (#[trigger] g.adjacent(u, v) <==> h@.adjacent(perm[u] as int, perm[v] as int)) by {
        lemma_permuted_adjacent(g, perm, u, v);
        lemma_same_edges_adjacent(h.edges@, pe, perm[u] as int, perm[v] as int);
    }
}

/// Relabelling with the same rows gives an isomorphism onto a graph with those rows.
proof fn lemma_scores_maps_onto(g: GraphView, perm: Seq<u8>, h: &Graph)
    requires
        is_perm(perm),
        perm.len() == g.n,
        edges_within(g.edges, g.n as int),
        h.wf(),
        h.num_vertices == g.n,
        scores_as(g, perm, h.adj@),
    ensures
        maps_onto(g, perm, h@),
{
    assert forall|u: int, v: int| 0 <= u < g.n && 0 <= v < g.n implies
        (#[trigger] g.adjacent(u, v) <==> h@.adjacent(perm[u] as int, perm[v] as int)) by {
        lemma_permuted_adjacent(g, perm, u, v);
        assert(bit(h.adj@[perm[u] as int], perm[v] as int) <==> h@.adjacent(perm[u] as int, perm[v] as int));
    }
}

/// Following an isomorphism by another gives an isomorphism.
pub proof fn lemma_maps_onto_compose(g: GraphView, p: Seq<u8>, h: GraphView, q: Seq<u8>, k: GraphView)
    requires
        maps_onto(g, p, h),
        maps_onto(h, q, k),
    ensures
        maps_onto(g, compose_spec(p, q), k),
{
    let c = compose_spec(p, q);
    assert forall|i: int| 0 <= i < c.len() implies #[trigger] c[i] < c.len() by {
        assert(p[i] < p.len());
    }
    assert forall|i: int, j: int| 0 <= i < c.len() && 0 <= j < c.len() && i != j implies c[i] != c[j] by {
        assert(p[i] != p[j]);
    }
    assert forall|u: int, v: int| 0 <= u < g.n && 0 <= v < g.n implies
        (#[trigger] g.adjacent(u, v) <==> k.adjacent(c[u] as int, c[v] as int)) by {
        assert(g.adjacent(u, v) <==> h.adjacent(p[u] as int, p[v] as int));
        assert(p[u] < g.n && p[v] < g.n);
        assert(h.adjacent(p[u] as int, p[v] as int) <==> k.adjacent(q[p[u] as int] as int, q[p[v] as int] as int));
    }
}

/// The inverse of an isomorphism is an isomorphism back.
pub proof fn lemma_maps_onto_inverse(g: GraphView, p: Seq<u8>, h: GraphView)
    requires
        maps_onto(g, p, h),
    ensures
        maps_onto(h, Seq::new(p.len(), |j: int| inverse_entry(p, j)), g),
{
    lemma_inverse_of_perm(p);
    let inv = Seq::new(p.len(), |j: int| inverse_entry(p, j));
    assert forall|x: int, y: int| 0 <= x < h.n && 0 <= y < h.n implies
        (#[trigger] h.adjacent(x, y) <==> g.adjacent(inv[x] as int, inv[y] as int)) by {
        assert(compose_spec(inv, p)[x] == identity(p.len())[x]);
        assert(compose_spec(inv, p)[y] == identity(p.len())[y]);
        assert(inv[x] < g.n && inv[y] < g.n);
        assert(g.adjacent(inv[x] as int, inv[y] as int) <==> h.adjacent(p[inv[x] as int] as int, p[inv[y] as int] as int));
    }
}

/// Relabelling by `p` and then by `q` is relabelling by their composition,
/// `i` going to `q[p[i]]`.
pub proof fn lemma_permute_compose(g: GraphView, h1: GraphView, h2: GraphView, p: Seq<u8>, q: Seq<u8>)
    requires
        maps_onto(g, p, h1),
        maps_onto(h1, q, h2),
    ensures
        maps_onto(g, compose_spec(p, q), h2),
{
    let c = compose_spec(p, q);
    assert forall|i: int| 0 <= i < c.len() implies #[trigger] c[i] < c.len() by {
        assert(p[i] < p.len());
    }
    assert forall|i: int, j: int| 0 <= i < c.len() && 0 <= j < c.len() && i != j implies c[i] != c[j] by {
        assert(p[i] != p[j]);
        assert(p[i] < q.len() && p[j] < q.len());
    }
    assert forall|u: int, v: int| 0 <= u < g.n && 0 <= v < g.n implies
        (#[trigger] g.adjacent(u, v) <==> h2.adjacent(c[u] as int, c[v] as int)) by {
        assert(p[u] < h1.n && p[v] < h1.n);
        assert(h1.adjacent(p[u] as int, p[v] as int) <==> h2.adjacent(q[p[u] as int] as int, q[p[v] as int] as int));
    }
}

/// Relabelling a well-formed graph by the identity keeps its adjacency rows.
pub proof fn lemma_permute_identity(g: &Graph, h: &Graph)
    requires
        g.wf(),
        h.wf(),
        maps_onto(g@, identity(g.num_vertices as nat), h@),
    ensures
        h.num_vertices == g.num_vertices,
        h.adj@ == g.adj@,
{
    let n = g.num_vertices as int;
    assert forall|u: int| 0 <= u < n implies #[trigger] h.adj@[u] == g.adj@[u] by {
        assert forall|v: int| 0 <= v < 64 implies (bit(h.adj@[u], v) <==> bit(g.adj@[u], v)) by {
            if v < n {
                assert(identity(g.num_vertices as nat)[u] == u as u8);
                assert(identity(g.num_vertices as nat)[v] == v as u8);
            } else {
                if g@.adjacent(u, v) {
                    let k = choose|k: int| 0 <= k < g.edges@.len() && #[trigger] edge_joins(g.edges@[k], u, v);
                    assert(g.edges@[k].0 < n && g.edges@[k].1 < n);
                }
                if h@.adjacent(u, v) {
                    let k = choose|k: int| 0 <= k < h.edges@.len() && #[trigger] edge_joins(h.edges@[k], u, v);
                    assert(h.edges@[k].0 < n && h.edges@[k].1 < n);
                }
            }
        }
        lemma_bits_ext(h.adj@[u], g.adj@[u]);
    }
    assert(h.adj@ =~= g.adj@);
}

impl Graph {
    /// Permute the graph with the provided permutation.
    pub fn permute(&self, perm: &[u8]) -> (g: Graph)
        requires
            self.wf(),
            is_perm(perm@),
            perm@.len() == self.num_vertices,
        ensures
            g.built_from(self.num_vertices as nat, permuted_edges(self@, perm@)),
            maps_onto(self@, perm@, g@),
    {
        let pe = permute_edges(self.edges.as_slice(), perm);
        proof {
            assert forall|k: int| 0 <= k < pe@.len() implies #[trigger] pe@[k].0 < self.num_vertices
                && pe@[k].1 < self.num_vertices by {
                assert(pe@[k] == permute_edge(self.edges@[k], perm@));
            }
            assert(pe@ =~= permuted_edges(self@, perm@));
        }
        let g = Graph::new(self.num_vertices, pe);
        proof {
            lemma_built_relabelled(self@, perm@, &g);
        }
        g
    }

    /// Return the graph in the canonical form and a list of all isomorphisms
    /// into it, respecting the initial vertex colouring.
    pub fn canonical_labels_col(&self, init_colors: &[u128]) -> (res: (Graph, Vec<Vec<u8>>))
        requires
            self.wf(),
            self.num_vertices < 64,
            init_colors@.len() == self.num_vertices,
            self.keys_fit(),
        ensures
            res.1@.len() >= 1,
            res.0.built_from(self.num_vertices as nat, permuted_edges(self@, res.1@[0]@)),
            forall|k: int| 0 <= k < res.1@.len() ==> #[trigger] maps_onto(self@, res.1@[k]@, res.0@),
            search_done(*self, init_colors@),
            res.0.adj@ == canon_score(*self, init_colors@),
            forall|k: int| 0 <= k < res.1@.len() ==> search_leaf(*self, init_colors@, #[trigger] res.1@[k]@)
                && score_of(self@, res.1@[k]@) == canon_score(*self, init_colors@),
            forall|lam: Seq<u8>| #[trigger] search_leaf(*self, init_colors@, lam) && score_of(self@, lam) == canon_score(*self, init_colors@)
                ==> exists|k: int| 0 <= k < res.1@.len() && #[trigger] res.1@[k]@ == lam,
            forall|a: int, b: int| 0 <= a < b < res.1@.len() ==> #[trigger] res.1@[a]@ != #[trigger] res.1@[b]@,
    {
        let n = self.num_vertices;
        let ghost nn = n as int;
        proof {
            lemma_full_mask(n as u64);
        }
        let full: u64 = (1u64 << n) - 1;
        let mut start: Vec<u64> = Vec::new();
        start.push(full);
        proof {
            assert forall|i: int, j: int, v: int| #[trigger] in_class(start@, i, v) && #[trigger] in_class(start@, j, v) implies i == j by {}
            assert forall|v: int| 0 <= v < nn implies #[trigger] covered(start@, v) by {
                assert(in_class(start@, 0, v));
            }
        }
        let mut colors: Vec<u128> = Vec::with_capacity(init_colors.len());
        let mut k: usize = 0;
        while k < init_colors.len()
            invariant
                k <= init_colors@.len(),
                colors@ == init_colors@.take(k as int),
            decreases init_colors@.len() - k,
        {
            colors.push(init_colors[k]);
            assert(colors@ =~= init_colors@.take(k as int + 1));
            k = k + 1;
        }
        proof {
            assert(colors@ =~= init_colors@.take(init_colors@.len() as int));
            assert(colors@ =~= init_colors@);
            assert(start@ =~= seq![full_mask(nn)]);
        }
        let classes = self.refined_coloring(&start, &colors);
        let hash = self.distance_histogram_keys();
        proof {
            assert(hash@ =~= distance_keys(self@));
        }
        let mut classes = self.refined_coloring(&classes, &hash);
        proof {
            assert(classes@ == coloured_classes(*self, init_colors@));
        }
        self.refine(&mut classes);
        proof {
            assert(classes@ == initial_classes(*self, init_colors@));
        }
        let mut best: Option<(Vec<u64>, Vec<Vec<u8>>)> = None;
        proof {
            assert(best_state(self@, best, Set::<Seq<u8>>::empty()));
        }
        self.search_multi_bm(&classes, &mut best, Ghost(Set::<Seq<u8>>::empty()));
        match best {
            Some((score, perms)) => {
                proof {
                    assert(is_perm(perms@[0]@) && perms@[0]@.len() == nn);
                }
                let gcanon = self.permute(perms[0].as_slice());
                proof {
                    let leaves = Set::<Seq<u8>>::empty().union(Set::new(|lam: Seq<u8>| is_leaf(self.adj@, classes@, nn, lam)));
                    assert forall|lam: Seq<u8>| #[trigger] search_leaf(*self, init_colors@, lam) <==> leaves.contains(lam) by {}
                    assert(is_min_score(*self, init_colors@, score@)) by {
                        assert(leaves.contains(perms@[0]@));
                        assert(search_leaf(*self, init_colors@, perms@[0]@));
                    }
                    assert forall|lam: Seq<u8>| #[trigger] search_leaf(*self, init_colors@, lam) implies scores_as(self@, lam, score_of(self@, lam)) by {
                        assert(leaves.contains(lam));
                    }
                    lemma_min_unique(*self, init_colors@, score@, canon_score(*self, init_colors@));
                    assert(search_done(*self, init_colors@));
                    assert forall|k: int| 0 <= k < perms@.len() implies search_leaf(*self, init_colors@, #[trigger] perms@[k]@)
                        && score_of(self@, perms@[k]@) == canon_score(*self, init_colors@) by {
                        assert(leaves.contains(perms@[k]@));
                    }
                    assert forall|lam: Seq<u8>| #[trigger] search_leaf(*self, init_colors@, lam) && score_of(self@, lam) == canon_score(*self, init_colors@)
                        implies exists|k: int| 0 <= k < perms@.len() && #[trigger] perms@[k]@ == lam by {
                        assert(leaves.contains(lam));
                    }
                    lemma_built_relabelled(self@, perms@[0]@, &gcanon);
                    assert(scores_as(self@, perms@[0]@, score@));
                    lemma_scores_unique(self@, perms@[0]@, score@, gcanon.adj@);
                    assert forall|k: int| 0 <= k < perms@.len() implies #[trigger] maps_onto(self@, perms@[k]@, gcanon@) by {
                        assert(is_perm(perms@[k]@) && perms@[k]@.len() == nn);
                        assert(scores_as(self@, perms@[k]@, score@));
                        lemma_scores_maps_onto(self@, perms@[k]@, &gcanon);
                    }
                }
                (gcanon, perms)
            },
            None => {
                proof {
                    assert(false);
                }
                (self.copy(), Vec::new())
            },
        }
    }
}

/// The mask of the positions below `n`.
pub(crate) proof fn lemma_full_mask(n: u64)
    requires
        n < 64,
    ensures
        (1u64 << n) >= 1,
        forall|v: int| #[trigger] bit(((1u64 << n) - 1) as u64, v) <==> 0 <= v < n,
{
    assert(n < 64 ==> (1u64 << n) >= 1) by (bit_vector);
    assert forall|v: int| #[trigger] bit(((1u64 << n) - 1) as u64, v) <==> 0 <= v < n by {
        if 0 <= v < 64 {
            let w = v as u64;
            assert(n < 64 && w < 64 ==> (((((1u64 << n) - 1) as u64 >> w) & 1u64 == 1u64) <==> w < n)) by (bit_vector);
        }
    }
}


/// Graphs on `n` vertices whose adjacency rows agree have the same adjacency.
proof fn lemma_same_rows_adjacent(a: &Graph, b: &Graph)
    requires
        a.wf(),
        b.wf(),
        a.adj@ == b.adj@,
    ensures
        a.num_vertices == b.num_vertices,
        forall|x: int, y: int| 0 <= x < a.num_vertices ==> (#[trigger] a@.adjacent(x, y) <==> b@.adjacent(x, y)),
{
    assert forall|x: int, y: int| 0 <= x < a.num_vertices implies (#[trigger] a@.adjacent(x, y) <==> b@.adjacent(x, y)) by {
        assert(bit(a.adj@[x], y) <==> a@.adjacent(x, y));
        assert(bit(b.adj@[x], y) <==> b@.adjacent(x, y));
    }
}

/// Whether two lists of rows are equal.
fn rows_equal(a: &Vec<u64>, b: &Vec<u64>) -> (r: bool)
    ensures
        r == (a@ == b@),
{
    if a.len() != b.len() {
        return false;
    }
    compare_rows(a, b) == 0
}

impl Graph {
    /// Return the graph in the canonical form and a list of all isomorphisms into it.
    pub fn canonical_labels(&self) -> (res: (Graph, Vec<Vec<u8>>))
        requires
            self.wf(),
            self.num_vertices < 64,
            self.keys_fit(),
        ensures
            res.1@.len() >= 1,
            res.0.built_from(self.num_vertices as nat, permuted_edges(self@, res.1@[0]@)),
            forall|k: int| 0 <= k < res.1@.len() ==> #[trigger] maps_onto(self@, res.1@[k]@, res.0@),
            search_done(*self, no_colours(self.num_vertices as int)),
            res.0.adj@ == canon_score(*self, no_colours(self.num_vertices as int)),
            forall|k: int| 0 <= k < res.1@.len() ==> search_leaf(*self, no_colours(self.num_vertices as int), #[trigger] res.1@[k]@)
                && score_of(self@, res.1@[k]@) == canon_score(*self, no_colours(self.num_vertices as int)),
            forall|lam: Seq<u8>| #[trigger] search_leaf(*self, no_colours(self.num_vertices as int), lam)
                && score_of(self@, lam) == canon_score(*self, no_colours(self.num_vertices as int))
                ==> exists|k: int| 0 <= k < res.1@.len() && #[trigger] res.1@[k]@ == lam,
            forall|a: int, b: int| 0 <= a < b < res.1@.len() ==> #[trigger] res.1@[a]@ != #[trigger] res.1@[b]@,
    {
        let zero_colors = vec![0u128; self.num_vertices as usize];
        proof {
            assert(zero_colors@ =~= no_colours(self.num_vertices as int));
        }
        self.canonical_labels_col(zero_colors.as_slice())
    }

    /// Return the graph in the canonical form, an isomorphism into it and a list
    /// of automorphisms of the canonical graph, respecting the initial vertex
    /// colouring.
    pub fn canonical_label_col(&self, init_colors: &[u128]) -> (res: (Graph, Vec<u8>, Vec<Vec<u8>>))
        requires
            self.wf(),
            self.num_vertices < 64,
            init_colors@.len() == self.num_vertices,
            self.keys_fit(),
        ensures
            res.0.built_from(self.num_vertices as nat, permuted_edges(self@, res.1@)),
            maps_onto(self@, res.1@, res.0@),
            forall|k: int| 0 <= k < res.2@.len() ==> #[trigger] maps_onto(res.0@, res.2@[k]@, res.0@),
            search_done(*self, init_colors@),
            res.0.adj@ == canon_score(*self, init_colors@),
            forall|k: int| 0 <= k < res.2@.len() ==> #[trigger] res.2@[k]@ != identity(self.num_vertices as nat),
            forall|a: int, b: int| 0 <= a < b < res.2@.len() ==> #[trigger] res.2@[a]@ != #[trigger] res.2@[b]@,
            forall|tau: Seq<u8>| #[trigger] maps_onto(res.0@, tau, res.0@) && tau != identity(self.num_vertices as nat)
                && keeps_colours(init_colors@, res.1@, tau, self.num_vertices as int)
                ==> has_perm(res.2@, tau),
    {
        let (g, perms) = self.canonical_labels_col(init_colors);
        let ghost n = self.num_vertices as int;
        let ghost ps = perms@.map_values(|v: Vec<u8>| v@);
        proof {
            assert(best_labellings(*self, init_colors@, ps)) by {
                assert forall|lam: Seq<u8>| #[trigger] search_leaf(*self, init_colors@, lam) && score_of(self@, lam) == canon_score(*self, init_colors@)
                    implies exists|k: int| 0 <= k < ps.len() && #[trigger] ps[k] == lam by {
                    let k = choose|k: int| 0 <= k < perms@.len() && #[trigger] perms@[k]@ == lam;
                    assert(ps[k] == lam);
                }
                assert forall|k: int| 0 <= k < ps.len() implies search_leaf(*self, init_colors@, #[trigger] ps[k]) && score_of(self@, ps[k]) == canon_score(*self, init_colors@) by {
                    assert(ps[k] == perms@[k]@);
                }
                assert forall|a: int, b: int| 0 <= a < b < ps.len() implies #[trigger] ps[a] != #[trigger] ps[b] by {
                    assert(ps[a] == perms@[a]@);
                    assert(ps[b] == perms@[b]@);
                }
            }
            crate::labelling::lemma_refine_props(self.adj@, coloured_classes(*self, init_colors@), n);
            assert forall|j: int| 0 <= j < ps.len() implies #[trigger] perm_of(ps[j], n) by {
                lemma_leaf_perm(self.adj@, initial_classes(*self, init_colors@), n, ps[j]);
            }
        }
        let base = perms[0].clone();
        proof {
            assert(base@ == perms@[0]@);
            assert(maps_onto(self@, perms@[0]@, g@));
            lemma_maps_onto_inverse(self@, base@, g@);
        }
        let inv = inverse(base.as_slice());
        proof {
            assert(inv@ =~= Seq::new(base@.len(), |j: int| inverse_entry(base@, j)));
            assert(inv@ =~= inv_perm(ps[0]));
        }
        let mut autos: Vec<Vec<u8>> = Vec::new();
        let mut k: usize = 1;
        while k < perms.len()
            invariant
                1 <= k <= perms@.len(),
                maps_onto(g@, inv@, self@),
                forall|j: int| 0 <= j < perms@.len() ==> #[trigger] maps_onto(self@, perms@[j]@, g@),
                forall|j: int| 0 <= j < autos@.len() ==> #[trigger] maps_onto(g@, autos@[j]@, g@),
                ps == perms@.map_values(|v: Vec<u8>| v@),
                inv@ == inv_perm(ps[0]),
                autos@.len() == k - 1,
                forall|j: int| 0 <= j < autos@.len() ==> #[trigger] autos@[j]@ == crate::perm::compose_spec(inv_perm(ps[0]), ps[j + 1]),
            decreases perms@.len() - k,
        {
            proof {
                assert(maps_onto(self@, perms@[k as int]@, g@));
                lemma_maps_onto_compose(g@, inv@, self@, perms@[k as int]@, g@);
            }
            let c = compose(inv.as_slice(), perms[k].as_slice());
            let ghost before = autos@;
            autos.push(c);
            proof {
                assert forall|j: int| 0 <= j < autos@.len() implies #[trigger] maps_onto(g@, autos@[j]@, g@) by {
                    if j < before.len() {
                        assert(autos@[j] == before[j]);
                    }
                }
                assert forall|j: int| 0 <= j < autos@.len() implies #[trigger] autos@[j]@ == crate::perm::compose_spec(inv_perm(ps[0]), ps[j + 1]) by {
                    if j < before.len() {
                        assert(autos@[j] == before[j]);
                    } else {
                        assert(ps[j + 1] == perms@[k as int]@);
                    }
                }
            }
            k = k + 1;
        }
        proof {
            let idn = identity(n as nat);
            assert(perm_of(idn, n)) by {
                assert forall|i: int, j: int| 0 <= i < n && 0 <= j < n && i != j implies idn[i] != idn[j] by {}
            }
            assert forall|j: int| 0 <= j < autos@.len() implies #[trigger] autos@[j]@ != idn by {
                lemma_left_inverse(ps[0], ps[j + 1], ps[0], idn, n);
            }
            assert forall|a: int, b: int| 0 <= a < b < autos@.len() implies #[trigger] autos@[a]@ != #[trigger] autos@[b]@ by {
                lemma_left_inverse(ps[0], ps[a + 1], ps[b + 1], idn, n);
            }
            assert forall|tau: Seq<u8>| #[trigger] maps_onto(g@, tau, g@) && tau != identity(self.num_vertices as nat)
                && keeps_colours(init_colors@, base@, tau, self.num_vertices as int)
                implies has_perm(autos@, tau) by {
                assert(base@ == ps[0]);
                lemma_form_automorphism(*self, init_colors@, ps, g@, tau);
                let k = choose|k: int| 0 <= k < ps.len() && #[trigger] ps[k] == crate::perm::compose_spec(ps[0], tau);
                lemma_left_inverse(ps[0], ps[0], ps[0], tau, n);
                assert(k != 0);
                assert(autos@[k - 1]@ == tau);
            }
        }
        (g, base, autos)
    }

    /// Return the graph in the canonical form, an isomorphism into it and a list
    /// of automorphisms of the canonical graph.
    pub fn canonical_label(&self) -> (res: (Graph, Vec<u8>, Vec<Vec<u8>>))
        requires
            self.wf(),
            self.num_vertices < 64,
            self.keys_fit(),
        ensures
            res.0.built_from(self.num_vertices as nat, permuted_edges(self@, res.1@)),
            maps_onto(self@, res.1@, res.0@),
            forall|k: int| 0 <= k < res.2@.len() ==> #[trigger] maps_onto(res.0@, res.2@[k]@, res.0@),
            search_done(*self, no_colours(self.num_vertices as int)),
            res.0.adj@ == canon_score(*self, no_colours(self.num_vertices as int)),
            forall|k: int| 0 <= k < res.2@.len() ==> #[trigger] res.2@[k]@ != identity(self.num_vertices as nat),
            forall|a: int, b: int| 0 <= a < b < res.2@.len() ==> #[trigger] res.2@[a]@ != #[trigger] res.2@[b]@,
            forall|tau: Seq<u8>| #[trigger] maps_onto(res.0@, tau, res.0@) && tau != identity(self.num_vertices as nat)
                ==> has_perm(res.2@, tau),
    {
        let zero_colors = vec![0u128; self.num_vertices as usize];
        proof {
            assert(zero_colors@ =~= no_colours(self.num_vertices as int));
        }
        let res = self.canonical_label_col(zero_colors.as_slice());
        proof {
            let n = self.num_vertices as int;
            assert forall|tau: Seq<u8>| #[trigger] maps_onto(res.0@, tau, res.0@) && tau != identity(self.num_vertices as nat)
                implies has_perm(res.2@, tau) by {
                lemma_no_colours_read_back(res.1@, tau, n);
            }
        }
        res
    }

    /// The automorphisms of the graph that respect the initial colouring, each
    /// as the canonical isomorphism followed by the inverse of another one.
    pub fn automorphisms_col(&self, init_colors: &[u128]) -> (res: Vec<Vec<u8>>)
        requires
            self.wf(),
            self.num_vertices < 64,
            init_colors@.len() == self.num_vertices,
            self.keys_fit(),
        ensures
            res@.len() >= 1,
            res@[0]@ == identity(self.num_vertices as nat),
            forall|k: int| 0 <= k < res@.len() ==> #[trigger] maps_onto(self@, res@[k]@, self@),
            forall|sigma: Seq<u8>| #[trigger] colour_automorphism(*self, init_colors@, sigma)
                ==> exists|k: int| 0 <= k < res@.len() && #[trigger] res@[k]@ == sigma,
            forall|a: int, b: int| 0 <= a < b < res@.len() ==> #[trigger] res@[a]@ != #[trigger] res@[b]@,
    {
        let (canon, best_perms) = self.canonical_labels_col(init_colors);
        let ghost ps = best_perms@.map_values(|v: Vec<u8>| v@);
        proof {
            assert(best_labellings(*self, init_colors@, ps)) by {
                assert forall|lam: Seq<u8>| #[trigger] search_leaf(*self, init_colors@, lam) && score_of(self@, lam) == canon_score(*self, init_colors@)
                    implies exists|k: int| 0 <= k < ps.len() && #[trigger] ps[k] == lam by {
                    let k = choose|k: int| 0 <= k < best_perms@.len() && #[trigger] best_perms@[k]@ == lam;
                    assert(ps[k] == lam);
                }
                assert forall|k: int| 0 <= k < ps.len() implies search_leaf(*self, init_colors@, #[trigger] ps[k]) && score_of(self@, ps[k]) == canon_score(*self, init_colors@) by {
                    assert(ps[k] == best_perms@[k]@);
                }
                assert forall|a: int, b: int| 0 <= a < b < ps.len() implies #[trigger] ps[a] != #[trigger] ps[b] by {
                    assert(ps[a] == best_perms@[a]@);
                    assert(ps[b] == best_perms@[b]@);
                }
            }
        }
        if best_perms.len() == 0 {
            return Vec::new();
        }
        let base = &best_perms[0];
        proof {
            assert(maps_onto(self@, best_perms@[0]@, canon@));
        }
        let mut res: Vec<Vec<u8>> = Vec::new();
        let mut k: usize = 0;
        while k < best_perms.len()
            invariant
                k <= best_perms@.len(),
                *base == best_perms@[0],
                res@.len() == k,
                base@.len() == self.num_vertices,
                k > 0 ==> res@[0]@ == identity(self.num_vertices as nat),
                forall|j: int| 0 <= j < best_perms@.len() ==> #[trigger] maps_onto(self@, best_perms@[j]@, canon@),
                forall|j: int| 0 <= j < res@.len() ==> #[trigger] maps_onto(self@, res@[j]@, self@),
                ps == best_perms@.map_values(|v: Vec<u8>| v@),
                forall|j: int| 0 <= j < res@.len() ==> #[trigger] res@[j]@ == crate::perm::compose_spec(ps[0], inv_perm(ps[j])),
            decreases best_perms@.len() - k,
        {
            let p = &best_perms[k];
            proof {
                assert(maps_onto(self@, p@, canon@));
                lemma_maps_onto_inverse(self@, p@, canon@);
            }
            let inv = inverse(p.as_slice());
            proof {
                assert(inv@ =~= Seq::new(p@.len(), |j: int| inverse_entry(p@, j)));
                lemma_maps_onto_compose(self@, base@, canon@, inv@, self@);
                assert(maps_onto(self@, base@, canon@));
                assert forall|i: int| 0 <= i < base@.len() implies #[trigger] base@[i] < inv@.len() by {
                    assert(is_perm(base@));
                }
            }
            let c = compose(base.as_slice(), inv.as_slice());
            proof {
                assert(inv@ =~= inv_perm(ps[k as int]));
                assert(c@ == crate::perm::compose_spec(ps[0], inv_perm(ps[k as int])));
                if k == 0 {
                    lemma_inverse_of_perm(base@);
                    assert(p@ == base@);
                    assert(c@ == identity(self.num_vertices as nat));
                }
            }
            let ghost before = res@;
            res.push(c);
            proof {
                if k > 0 {
                    assert(res@[0] == before[0]);
                }
                assert forall|j: int| 0 <= j < res@.len() implies #[trigger] maps_onto(self@, res@[j]@, self@) by {
                    if j < before.len() {
                        assert(res@[j] == before[j]);
                    }
                }
                assert forall|j: int| 0 <= j < res@.len() implies #[trigger] res@[j]@ == crate::perm::compose_spec(ps[0], inv_perm(ps[j])) by {
                    if j < before.len() {
                        assert(res@[j] == before[j]);
                    }
                }
            }
            k = k + 1;
        }
        proof {
            let n = self.num_vertices as int;
            assert forall|sigma: Seq<u8>| #[trigger] colour_automorphism(*self, init_colors@, sigma)
                implies exists|k: int| 0 <= k < res@.len() && #[trigger] res@[k]@ == sigma by {
                lemma_automorphisms_complete(*self, init_colors@, ps, sigma);
                let k = choose|k: int| 0 <= k < ps.len() && crate::perm::compose_spec(ps[0], inv_perm(#[trigger] ps[k])) == sigma;
                assert(res@[k]@ == sigma);
            }
            assert forall|a: int, b: int| 0 <= a < b < res@.len() implies #[trigger] res@[a]@ != #[trigger] res@[b]@ by {
                if res@[a]@ == res@[b]@ {
                    crate::labelling::lemma_refine_props(self.adj@, coloured_classes(*self, init_colors@), n);
                    lemma_leaf_perm(self.adj@, initial_classes(*self, init_colors@), n, ps[0]);
                    lemma_leaf_perm(self.adj@, initial_classes(*self, init_colors@), n, ps[a]);
                    lemma_leaf_perm(self.adj@, initial_classes(*self, init_colors@), n, ps[b]);
                    lemma_compose_inverse(ps[0], ps[a], ps[b], n);
                }
            }
        }
        res
    }

    /// The automorphisms of the graph.
    pub fn automorphisms(&self) -> (res: Vec<Vec<u8>>)
        requires
            self.wf(),
            self.num_vertices < 64,
            self.keys_fit(),
        ensures
            res@.len() >= 1,
            res@[0]@ == identity(self.num_vertices as nat),
            forall|k: int| 0 <= k < res@.len() ==> #[trigger] maps_onto(self@, res@[k]@, self@),
            forall|sigma: Seq<u8>| #[trigger] maps_onto(self@, sigma, self@) ==> has_perm(res@, sigma),
            forall|a: int, b: int| 0 <= a < b < res@.len() ==> #[trigger] res@[a]@ != #[trigger] res@[b]@,
    {
        let zero_colors = vec![0u128; self.num_vertices as usize];
        proof {
            assert(zero_colors@ =~= no_colours(self.num_vertices as int));
        }
        let res = self.automorphisms_col(zero_colors.as_slice());
        proof {
            assert forall|sigma: Seq<u8>| #[trigger] maps_onto(self@, sigma, self@) implies has_perm(res@, sigma) by {
                lemma_no_colours_kept(*self, sigma);
                assert(colour_automorphism(*self, zero_colors@, sigma));
            }
        }
        res
    }

    /// Whether the graph is isomorphic to the given graph: their canonical
    /// forms have the same adjacency rows.
    pub fn is_isomorphic_to(&self, graph: &Graph) -> (r: bool)
        requires
            self.wf(),
            self.num_vertices < 64,
            self.keys_fit(),
            graph.wf(),
            graph.num_vertices < 64,
            graph.keys_fit(),
        ensures
            r == isomorphic(self@, graph@),
    {
        let (a, base_a, _) = self.canonical_label();
        let (b, base_b, _) = graph.canonical_label();
        let r = rows_equal(&a.adj, &b.adj);
        proof {
            if isomorphic(self@, graph@) {
                let t = choose|t: Seq<u8>| #[trigger] maps_onto(self@, t, graph@);
                let n = self.num_vertices as int;
                assert(graph.num_vertices == self.num_vertices);
                lemma_canonical_form(*self, no_colours(n), t, *graph, no_colours(n));
                assert(a.adj@ == b.adj@);
            }
            if r {
                lemma_same_rows_adjacent(&a, &b);
                assert(maps_onto(self@, base_a@, b@)) by {
                    assert forall|u: int, v: int| 0 <= u < self@.n && 0 <= v < self@.n implies
                        (#[trigger] self@.adjacent(u, v) <==> b@.adjacent(base_a@[u] as int, base_a@[v] as int)) by {
                        assert(self@.adjacent(u, v) <==> a@.adjacent(base_a@[u] as int, base_a@[v] as int));
                        assert(base_a@[u] < a.num_vertices);
                    }
                }
                lemma_maps_onto_inverse(graph@, base_b@, b@);
                let inv = Seq::new(base_b@.len(), |j: int| inverse_entry(base_b@, j));
                lemma_maps_onto_compose(self@, base_a@, b@, inv, graph@);
                assert(maps_onto(self@, compose_spec(base_a@, inv), graph@));
            }
        }
        r
    }
}

} // verus!
