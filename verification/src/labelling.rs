//! Why the canonical labelling is canonical: every step of the search (the
//! splitting of classes by signatures, the refinement, the individualisation
//! of a vertex and the labelling read off a discrete colouring) commutes with
//! relabelling the graph, so isomorphic graphs reach the same relabelled
//! adjacency rows, and the automorphisms of a graph permute the leaves of its
//! own search.
use vstd::prelude::*;
use crate::bits::{bit, bits_seq, lemma_bits_all, lemma_bits_ext, lemma_bits_seq, lemma_bit_single, lemma_bit_zero, popcount};
use crate::canon::{lex_less, maps_onto, scores_as, signature};
use crate::distances::{bfs, histogram, histogram_key, is_histogram, lemma_histogram_unique};
use crate::canon::lemma_scores_unique;
use crate::graph::Graph;
use crate::graph::{adjacent_in, GraphView};
use crate::partition::{in_class, is_cover, is_partition, covered, groups_of, member_with_key, has_group};
use crate::sort::{sorted_by_key, SortKey};
use crate::perm::{image_upto, is_perm, lemma_image_bits, lemma_permuted_mask_popcount, mask_image, permuted_mask};

verus! {

/// The image of a mask holds the image of each of its first `k` positions.
proof fn lemma_image_has(mask: u64, perm: Seq<u8>, k: int)
    requires
        0 <= k <= bits_seq(mask).len(),
        forall|j: int| #[trigger] bit(mask, j) ==> j < perm.len() && perm[j] < 64,
    ensures
        forall|t: int| 0 <= t < k ==> #[trigger] bit(image_upto(bits_seq(mask), perm, k), perm[bits_seq(mask)[t]] as int),
    decreases k,
{
    lemma_bits_seq(mask);
    lemma_bits_all();
    if k > 0 {
        lemma_image_has(mask, perm, k - 1);
        let j = bits_seq(mask)[k - 1];
        assert(bit(mask, j));
        lemma_bit_single(perm[j] as u64);
        assert forall|t: int| 0 <= t < k implies #[trigger] bit(image_upto(bits_seq(mask), perm, k), perm[bits_seq(mask)[t]] as int) by {
            if t < k - 1 {
                assert(bit(image_upto(bits_seq(mask), perm, k - 1), perm[bits_seq(mask)[t]] as int));
            }
        }
    }
}

/// The positions of the image of a mask are exactly the images of its
/// positions.
pub proof fn lemma_mask_image(mask: u64, perm: Seq<u8>)
    requires
        forall|j: int| #[trigger] bit(mask, j) ==> j < perm.len() && perm[j] < 64,
    ensures
        forall|i: int| #[trigger] bit(mask_image(mask, perm), i) <==> permuted_mask(mask, perm, i),
{
    lemma_bits_seq(mask);
    let k = bits_seq(mask).len() as int;
    lemma_image_bits(mask, perm, k);
    lemma_image_has(mask, perm, k);
    assert forall|i: int| #[trigger] bit(mask_image(mask, perm), i) <==> permuted_mask(mask, perm, i) by {
        if bit(mask_image(mask, perm), i) {
            let t = choose|t: int| 0 <= t < k && perm[bits_seq(mask)[t]] == i;
            assert(bit(mask, bits_seq(mask)[t]));
        }
        if permuted_mask(mask, perm, i) {
            let j = choose|j: int| bit(mask, j) && perm[j] == i;
            assert(bits_seq(mask).contains(j));
            let t = choose|t: int| 0 <= t < k && bits_seq(mask)[t] == j;
            assert(bit(image_upto(bits_seq(mask), perm, k), perm[bits_seq(mask)[t]] as int));
        }
    }
}

/// `t` is a permutation of `0..n`, `n <= 64`.
pub open spec fn perm_of(t: Seq<u8>, n: int) -> bool {
    &&& is_perm(t)
    &&& t.len() == n
    &&& n <= 64
}

/// The mask `c` holds only vertices below `n`.
pub open spec fn mask_within(c: u64, n: int) -> bool {
    forall|v: int| #[trigger] bit(c, v) ==> 0 <= v < n
}

/// The image of a mask of vertices below `n` under a permutation of `0..n`
/// holds `t[v]` exactly where the mask holds `v`, and nothing else.
pub proof fn lemma_relabel_mask(c: u64, t: Seq<u8>, n: int)
    requires
        perm_of(t, n),
        mask_within(c, n),
    ensures
        forall|v: int| 0 <= v < n ==> (#[trigger] bit(mask_image(c, t), t[v] as int) <==> bit(c, v)),
        forall|i: int| #[trigger] bit(mask_image(c, t), i) ==> exists|v: int| 0 <= v < n && bit(c, v) && t[v] == i,
        mask_within(mask_image(c, t), n),
{
    lemma_mask_image(c, t);
    assert forall|v: int| 0 <= v < n implies (#[trigger] bit(mask_image(c, t), t[v] as int) <==> bit(c, v)) by {
        if bit(mask_image(c, t), t[v] as int) {
            let j = choose|j: int| bit(c, j) && t[j] == t[v];
            assert(j == v);
        }
        if bit(c, v) {
            assert(permuted_mask(c, t, t[v] as int));
        }
    }
}

/// The classes relabelled: each mask replaced by its image.
pub open spec fn relabel_classes(classes: Seq<u64>, t: Seq<u8>) -> Seq<u64> {
    classes.map_values(|c: u64| mask_image(c, t))
}

/// The adjacency rows `b` are the rows `a` relabelled by `t`: `u` is joined
/// to `w` in `a` exactly where `t[u]` is joined to `t[w]` in `b`, and no row
/// reaches past `n`.
pub open spec fn rows_relabelled(a: Seq<u64>, t: Seq<u8>, b: Seq<u64>, n: int) -> bool {
    &&& perm_of(t, n)
    &&& a.len() == n
    &&& b.len() == n
    &&& forall|u: int| 0 <= u < n ==> #[trigger] mask_within(a[u], n)
    &&& forall|u: int| 0 <= u < n ==> #[trigger] mask_within(b[u], n)
    &&& forall|u: int, w: int| 0 <= u < n && 0 <= w < n ==> (#[trigger] bit(a[u], w) <==> bit(b[t[u] as int], t[w] as int))
}

/// The signature of `t[u]` in the relabelled rows and classes is that of `u`.
pub proof fn lemma_signature_relabelled(a: Seq<u64>, t: Seq<u8>, b: Seq<u64>, n: int, classes: Seq<u64>, u: int, j: int)
    requires
        rows_relabelled(a, t, b, n),
        forall|i: int| 0 <= i < classes.len() ==> #[trigger] mask_within(classes[i], n),
        0 <= u < n,
        0 <= j <= classes.len(),
    ensures
        signature(b[t[u] as int], relabel_classes(classes, t), j) == signature(a[u], classes, j),
    decreases j,
{
    if j > 0 {
        lemma_signature_relabelled(a, t, b, n, classes, u, j - 1);
        let c = classes[j - 1];
        let rc = relabel_classes(classes, t);
        assert(rc[j - 1] == mask_image(c, t));
        lemma_relabel_mask(c, t, n);
        lemma_bits_all();
        let m0 = a[u] & c;
        let m1 = b[t[u] as int] & mask_image(c, t);
        assert(mask_within(c, n));
        assert forall|i: int| #[trigger] bit(m1, i) <==> permuted_mask(m0, t, i) by {
            if bit(m1, i) {
                let v = choose|v: int| 0 <= v < n && bit(c, v) && t[v] == i;
                assert(bit(a[u], v));
                assert(bit(m0, v));
            }
            if permuted_mask(m0, t, i) {
                let v = choose|v: int| bit(m0, v) && t[v] == i;
                assert(bit(c, v));
                assert(0 <= v < n);
                assert(bit(b[t[u] as int], t[v] as int));
            }
        }
        assert(t.no_duplicates()) by {
            assert forall|x: int, y: int| 0 <= x < t.len() && 0 <= y < t.len() && x != y implies t[x] != t[y] by {}
        }
        lemma_permuted_mask_popcount(m0, t, m1);
    }
}

/// Groups of positions by key, sorted by key.
pub open spec fn groups_ok(gs: Seq<(u128, u64)>, vs: Seq<usize>, keys: Seq<u128>) -> bool {
    groups_of(gs, vs, keys) && sorted_by_key(gs)
}

/// The keys of the groups.
pub open spec fn keys_of(gs: Seq<(u128, u64)>) -> Seq<u128> {
    gs.map_values(|g: (u128, u64)| g.0)
}

/// Strictly increasing keys.
pub open spec fn increasing(a: Seq<u128>) -> bool {
    forall|i: int, j: int| 0 <= i < j < a.len() ==> #[trigger] a[i] < #[trigger] a[j]
}

/// What groups by key hold: increasing keys, each the key of some position;
/// the key of every position; and in each group, the positions of its key.
proof fn lemma_group_facts(gs: Seq<(u128, u64)>, vs: Seq<usize>, keys: Seq<u128>)
    requires
        groups_ok(gs, vs, keys),
    ensures
        increasing(keys_of(gs)),
        forall|x: u128| #[trigger] keys_of(gs).contains(x) ==> exists|v: int| member_with_key(vs, keys, v, x),
        forall|v: int, x: u128| #[trigger] member_with_key(vs, keys, v, x) ==> keys_of(gs).contains(x),
        forall|i: int, v: int| 0 <= i < gs.len() ==> (#[trigger] bit(gs[i].1, v) <==> member_with_key(vs, keys, v, gs[i].0)),
{
    let ks = keys_of(gs);
    assert forall|i: int, j: int| 0 <= i < j < ks.len() implies #[trigger] ks[i] < #[trigger] ks[j] by {
        assert(gs[i].key_spec() <= gs[j].key_spec());
        assert(gs[i].0 != gs[j].0);
    }
    assert forall|x: u128| #[trigger] ks.contains(x) implies exists|v: int| member_with_key(vs, keys, v, x) by {
        let i = choose|i: int| 0 <= i < ks.len() && ks[i] == x;
        let m = gs[i].1;
        assert(m != 0);
        lemma_bits_seq(m);
        assert(bits_seq(m).len() > 0);
        assert(bit(m, bits_seq(m)[0]));
        assert(member_with_key(vs, keys, bits_seq(m)[0], x));
    }
    assert forall|v: int, x: u128| #[trigger] member_with_key(vs, keys, v, x) implies ks.contains(x) by {
        let t = choose|t: int| 0 <= t < vs.len() && vs[t] == v && #[trigger] keys[t] == x;
        assert(has_group(gs, keys[t]));
        let i = choose|i: int| 0 <= i < gs.len() && #[trigger] gs[i].0 == keys[t];
        assert(ks[i] == x);
    }
    assert forall|i: int, v: int| 0 <= i < gs.len() implies (#[trigger] bit(gs[i].1, v) <==> member_with_key(vs, keys, v, gs[i].0)) by {
        if member_with_key(vs, keys, v, gs[i].0) {
            let t = choose|t: int| 0 <= t < vs.len() && vs[t] == v && #[trigger] keys[t] == gs[i].0;
            assert(bit(gs[i].1, vs[t] as int));
        }
    }
}

/// Two increasing sequences with the same entries are equal.
proof fn lemma_increasing_same(a: Seq<u128>, b: Seq<u128>)
    requires
        increasing(a),
        increasing(b),
        forall|x: u128| #[trigger] a.contains(x) <==> b.contains(x),
    ensures
        a == b,
    decreases a.len(),
{
    if a.len() == 0 {
        if b.len() > 0 {
            assert(b.contains(b[0]));
            assert(a.contains(b[0]));
        }
        assert(a =~= b);
    } else {
        assert(a.contains(a[0]));
        assert(b.contains(a[0]));
        let j = choose|j: int| 0 <= j < b.len() && b[j] == a[0];
        assert(b.contains(b[0]));
        assert(a.contains(b[0]));
        let i = choose|i: int| 0 <= i < a.len() && a[i] == b[0];
        if j > 0 {
            assert(b[0] < b[j]);
            if i > 0 {
                assert(a[0] < a[i]);
            }
        }
        assert(b[0] == a[0]);
        let a1 = a.drop_first();
        let b1 = b.drop_first();
        assert forall|x: u128| #[trigger] a1.contains(x) <==> b1.contains(x) by {
            if a1.contains(x) {
                let p = choose|p: int| 0 <= p < a1.len() && a1[p] == x;
                assert(a[p + 1] == x);
                assert(a.contains(x));
                assert(b.contains(x));
                assert(x != a[0]) by {
                    assert(a[0] < a[p + 1]);
                }
                let q = choose|q: int| 0 <= q < b.len() && b[q] == x;
                assert(q != 0);
                assert(b1[q - 1] == x);
            }
            if b1.contains(x) {
                let p = choose|p: int| 0 <= p < b1.len() && b1[p] == x;
                assert(b[p + 1] == x);
                assert(b.contains(x));
                assert(a.contains(x));
                assert(x != b[0]) by {
                    assert(b[0] < b[p + 1]);
                }
                let q = choose|q: int| 0 <= q < a.len() && a[q] == x;
                assert(q != 0);
                assert(a1[q - 1] == x);
            }
        }
        assert(increasing(a1)) by {
            assert forall|i: int, j: int| 0 <= i < j < a1.len() implies #[trigger] a1[i] < #[trigger] a1[j] by {
                assert(a[i + 1] < a[j + 1]);
            }
        }
        assert(increasing(b1)) by {
            assert forall|i: int, j: int| 0 <= i < j < b1.len() implies #[trigger] b1[i] < #[trigger] b1[j] by {
                assert(b[i + 1] < b[j + 1]);
            }
        }
        lemma_increasing_same(a1, b1);
        assert(a =~= b) by {
            assert forall|i: int| 0 <= i < a.len() implies a[i] == b[i] by {
                if i > 0 {
                    assert(a1[i - 1] == b1[i - 1]);
                }
            }
        }
    }
}

/// Groups by key of the same positions with the same keys are the same.
pub proof fn lemma_groups_unique(g1: Seq<(u128, u64)>, vs1: Seq<usize>, k1: Seq<u128>, g2: Seq<(u128, u64)>, vs2: Seq<usize>, k2: Seq<u128>)
    requires
        groups_ok(g1, vs1, k1),
        groups_ok(g2, vs2, k2),
        forall|v: int, x: u128| #[trigger] member_with_key(vs1, k1, v, x) <==> member_with_key(vs2, k2, v, x),
    ensures
        g1 == g2,
{
    lemma_group_facts(g1, vs1, k1);
    lemma_group_facts(g2, vs2, k2);
    assert forall|x: u128| #[trigger] keys_of(g1).contains(x) <==> keys_of(g2).contains(x) by {
        if keys_of(g1).contains(x) {
            let v = choose|v: int| member_with_key(vs1, k1, v, x);
            assert(member_with_key(vs2, k2, v, x));
        }
        if keys_of(g2).contains(x) {
            let v = choose|v: int| member_with_key(vs2, k2, v, x);
            assert(member_with_key(vs1, k1, v, x));
        }
    }
    lemma_increasing_same(keys_of(g1), keys_of(g2));
    assert forall|i: int| 0 <= i < g1.len() implies g1[i] == g2[i] by {
        assert(keys_of(g1)[i] == keys_of(g2)[i]);
        assert forall|v: int| 0 <= v < 64 implies (bit(g1[i].1, v) <==> bit(g2[i].1, v)) by {
            assert(bit(g1[i].1, v) <==> member_with_key(vs1, k1, v, g1[i].0));
            assert(bit(g2[i].1, v) <==> member_with_key(vs2, k2, v, g2[i].0));
        }
        lemma_bits_ext(g1[i].1, g2[i].1);
    }
    assert(g1 =~= g2);
}

/// Groups by key of the positions relabelled by `t`, with their keys kept,
/// are the groups with their masks relabelled.
pub proof fn lemma_groups_relabel(g1: Seq<(u128, u64)>, vs1: Seq<usize>, k1: Seq<u128>, g2: Seq<(u128, u64)>, vs2: Seq<usize>, k2: Seq<u128>, t: Seq<u8>, n: int)
    requires
        groups_ok(g1, vs1, k1),
        groups_ok(g2, vs2, k2),
        perm_of(t, n),
        forall|v: int, x: u128| #[trigger] member_with_key(vs1, k1, v, x) ==> 0 <= v < n,
        forall|w: int, x: u128| #[trigger] member_with_key(vs2, k2, w, x) ==> 0 <= w < n,
        forall|v: int, x: u128| 0 <= v < n ==> (#[trigger] member_with_key(vs1, k1, v, x) <==> member_with_key(vs2, k2, t[v] as int, x)),
    ensures
        g2 == g1.map_values(|g: (u128, u64)| (g.0, mask_image(g.1, t))),
{
    lemma_group_facts(g1, vs1, k1);
    lemma_group_facts(g2, vs2, k2);
    lemma_perm_onto(t, n);
    assert forall|x: u128| #[trigger] keys_of(g1).contains(x) <==> keys_of(g2).contains(x) by {
        if keys_of(g1).contains(x) {
            let v = choose|v: int| member_with_key(vs1, k1, v, x);
            assert(member_with_key(vs2, k2, t[v] as int, x));
        }
        if keys_of(g2).contains(x) {
            let w = choose|w: int| member_with_key(vs2, k2, w, x);
            let v = inv_perm(t)[w] as int;
            assert(t[v] == w);
            assert(member_with_key(vs1, k1, v, x));
        }
    }
    lemma_increasing_same(keys_of(g1), keys_of(g2));
    let r = g1.map_values(|g: (u128, u64)| (g.0, mask_image(g.1, t)));
    assert forall|i: int| 0 <= i < g1.len() implies g2[i] == r[i] by {
        assert(keys_of(g1)[i] == keys_of(g2)[i]);
        let m = g1[i].1;
        assert(mask_within(m, n)) by {
            assert forall|v: int| #[trigger] bit(m, v) implies 0 <= v < n by {
                assert(member_with_key(vs1, k1, v, g1[i].0));
            }
        }
        lemma_relabel_mask(m, t, n);
        assert forall|w: int| 0 <= w < 64 implies (bit(g2[i].1, w) <==> bit(mask_image(m, t), w)) by {
            if bit(g2[i].1, w) {
                assert(member_with_key(vs2, k2, w, g2[i].0));
                let v = inv_perm(t)[w] as int;
                assert(t[v] == w);
                assert(member_with_key(vs1, k1, v, g1[i].0));
                assert(bit(m, v));
            }
            if bit(mask_image(m, t), w) {
                let v = choose|v: int| 0 <= v < n && bit(m, v) && t[v] == w;
                assert(member_with_key(vs1, k1, v, g1[i].0));
                assert(member_with_key(vs2, k2, w, g2[i].0));
            }
        }
        lemma_bits_ext(g2[i].1, mask_image(m, t));
    }
    assert(g2 =~= r);
}

/// The inverse of a permutation.
pub open spec fn inv_perm(t: Seq<u8>) -> Seq<u8> {
    Seq::new(t.len(), |j: int| crate::perm::inverse_entry(t, j))
}

/// A permutation of `0..n` reaches every vertex below `n`, from its inverse.
pub proof fn lemma_perm_onto(t: Seq<u8>, n: int)
    requires
        perm_of(t, n),
    ensures
        perm_of(inv_perm(t), n),
        forall|w: int| 0 <= w < n ==> #[trigger] t[inv_perm(t)[w] as int] == w,
        forall|v: int| 0 <= v < n ==> #[trigger] inv_perm(t)[t[v] as int] == v,
{
    crate::perm::lemma_inverse_of_perm(t);
    let inv = inv_perm(t);
    assert forall|w: int| 0 <= w < n implies #[trigger] t[inv[w] as int] == w by {
        assert(crate::perm::compose_spec(inv, t)[w] == crate::perm::identity(t.len())[w]);
    }
    assert forall|v: int| 0 <= v < n implies #[trigger] inv[t[v] as int] == v by {
        assert(crate::perm::compose_spec(t, inv)[v] == crate::perm::identity(t.len())[v]);
    }
}

/// Where a new key goes among increasing keys.
proof fn lemma_insert_point(ks: Seq<u128>, key: u128) -> (p: int)
    requires
        increasing(ks),
        !ks.contains(key),
    ensures
        0 <= p <= ks.len(),
        forall|i: int| 0 <= i < p ==> #[trigger] ks[i] < key,
        forall|i: int| p <= i < ks.len() ==> #[trigger] ks[i] > key,
    decreases ks.len(),
{
    if ks.len() == 0 {
        0
    } else if ks.last() < key {
        assert forall|i: int| 0 <= i < ks.len() implies #[trigger] ks[i] < key by {
            if i < ks.len() - 1 {
                assert(ks[i] < ks[ks.len() - 1]);
            }
        }
        ks.len() as int
    } else {
        let init = ks.drop_last();
        assert(increasing(init)) by {
            assert forall|i: int, j: int| 0 <= i < j < init.len() implies #[trigger] init[i] < #[trigger] init[j] by {
                assert(ks[i] < ks[j]);
            }
        }
        assert(!init.contains(key)) by {
            if init.contains(key) {
                let i = choose|i: int| 0 <= i < init.len() && init[i] == key;
                assert(ks[i] == key);
            }
        }
        assert(ks.last() != key) by {
            assert(ks[ks.len() - 1] == ks.last());
        }
        let p = lemma_insert_point(init, key);
        assert forall|i: int| 0 <= i < p implies #[trigger] ks[i] < key by {
            assert(init[i] == ks[i]);
        }
        assert forall|i: int| p <= i < ks.len() implies #[trigger] ks[i] > key by {
            if i < ks.len() - 1 {
                assert(init[i] == ks[i]);
            }
        }
        p
    }
}

/// Groups by key of the first `m` positions exist.
pub proof fn lemma_groups_exist(vs: Seq<usize>, keys: Seq<u128>, m: int) -> (gs: Seq<(u128, u64)>)
    requires
        vs.len() == keys.len(),
        0 <= m <= vs.len(),
        forall|t: int| 0 <= t < vs.len() ==> #[trigger] vs[t] < 64,
        forall|a: int, b: int| 0 <= a < vs.len() && 0 <= b < vs.len() && #[trigger] vs[a] == #[trigger] vs[b] ==> a == b,
    ensures
        groups_ok(gs, vs.take(m), keys.take(m)),
    decreases m,
{
    lemma_bits_all();
    if m == 0 {
        let gs = Seq::<(u128, u64)>::empty();
        assert(groups_ok(gs, vs.take(0), keys.take(0)));
        gs
    } else {
        let prev = lemma_groups_exist(vs, keys, m - 1);
        let v0 = vs.take(m - 1);
        let k0 = keys.take(m - 1);
        let v1 = vs.take(m);
        let k1 = keys.take(m);
        let v = vs[m - 1];
        let key = keys[m - 1];
        lemma_bit_single(v as u64);
        lemma_group_facts(prev, v0, k0);
        assert forall|w: int, x: u128| #[trigger] member_with_key(v0, k0, w, x) implies member_with_key(v1, k1, w, x) by {
            let t = choose|t: int| 0 <= t < v0.len() && v0[t] == w && #[trigger] k0[t] == x;
            assert(v1[t] == w && k1[t] == x);
        }
        assert(member_with_key(v1, k1, v as int, key)) by {
            assert(v1[m - 1] == v && k1[m - 1] == key);
        }
        assert forall|w: int, x: u128| #[trigger] member_with_key(v1, k1, w, x) implies member_with_key(v0, k0, w, x) || (w == v && x == key) by {
            let t = choose|t: int| 0 <= t < v1.len() && v1[t] == w && #[trigger] k1[t] == x;
            if t < m - 1 {
                assert(v0[t] == w && k0[t] == x);
            }
        }
        assert forall|w: int, x: u128| #[trigger] member_with_key(v0, k0, w, x) implies w != v by {
            let t = choose|t: int| 0 <= t < v0.len() && v0[t] == w && #[trigger] k0[t] == x;
            assert(vs[t] == w);
        }
        if keys_of(prev).contains(key) {
            let i = choose|i: int| 0 <= i < keys_of(prev).len() && keys_of(prev)[i] == key;
            let gs = prev.update(i, (key, prev[i].1 | (1u64 << v)));
            assert forall|k: int, w: int| 0 <= k < gs.len() implies (#[trigger] bit(gs[k].1, w) <==> member_with_key(v1, k1, w, gs[k].0)) by {
                assert(bit(prev[k].1, w) <==> member_with_key(v0, k0, w, prev[k].0));
                if k != i {
                    assert(prev[k].0 != key);
                }
            }
            assert forall|k: int, t: int| 0 <= k < gs.len() && 0 <= t < v1.len() && k1[t] == gs[k].0
                implies #[trigger] bit(gs[k].1, #[trigger] v1[t] as int) by {
                assert(member_with_key(v1, k1, v1[t] as int, k1[t]));
            }
            assert forall|t: int| 0 <= t < v1.len() implies #[trigger] has_group(gs, k1[t]) by {
                assert(member_with_key(v1, k1, v1[t] as int, k1[t]));
                if t < m - 1 {
                    assert(member_with_key(v0, k0, v1[t] as int, k1[t]));
                    assert(keys_of(prev).contains(k1[t]));
                    let j = choose|j: int| 0 <= j < keys_of(prev).len() && keys_of(prev)[j] == k1[t];
                    assert(gs[j].0 == k1[t]);
                } else {
                    assert(gs[i].0 == k1[t]);
                }
            }
            assert forall|k: int| 0 <= k < gs.len() implies #[trigger] gs[k].1 != 0 by {
                if k == i {
                    assert(bit(gs[k].1, v as int));
                    lemma_bit_zero();
                }
            }
            assert(sorted_by_key(gs)) by {
                assert forall|a: int, b: int| 0 <= a < b < gs.len() implies #[trigger] gs[a].key_spec() <= #[trigger] gs[b].key_spec() by {
                    assert(prev[a].key_spec() <= prev[b].key_spec());
                }
            }
            assert(groups_of(gs, v1, k1));
            gs
        } else {
            let p = lemma_insert_point(keys_of(prev), key);
            let gs = prev.take(p).push((key, 1u64 << v)) + prev.skip(p);
            assert(gs.len() == prev.len() + 1);
            assert forall|k: int| 0 <= k < gs.len() implies #[trigger] gs[k] == (if k < p { prev[k] } else if k == p { (key, 1u64 << v) } else { prev[k - 1] }) by {}
            assert forall|k: int, w: int| 0 <= k < gs.len() implies (#[trigger] bit(gs[k].1, w) <==> member_with_key(v1, k1, w, gs[k].0)) by {
                if k < p {
                    assert(bit(prev[k].1, w) <==> member_with_key(v0, k0, w, prev[k].0));
                    assert(keys_of(prev)[k] < key);
                } else if k > p {
                    assert(bit(prev[k - 1].1, w) <==> member_with_key(v0, k0, w, prev[k - 1].0));
                    assert(keys_of(prev)[k - 1] > key);
                } else {
                    if member_with_key(v0, k0, w, key) {
                        assert(keys_of(prev).contains(key));
                    }
                }
            }
            assert forall|k: int, t: int| 0 <= k < gs.len() && 0 <= t < v1.len() && k1[t] == gs[k].0
                implies #[trigger] bit(gs[k].1, #[trigger] v1[t] as int) by {
                assert(member_with_key(v1, k1, v1[t] as int, k1[t]));
            }
            assert forall|t: int| 0 <= t < v1.len() implies #[trigger] has_group(gs, k1[t]) by {
                if t < m - 1 {
                    assert(member_with_key(v0, k0, v1[t] as int, k1[t])) by {
                        assert(v0[t] == v1[t] && k0[t] == k1[t]);
                    }
                    assert(keys_of(prev).contains(k1[t]));
                    let j = choose|j: int| 0 <= j < keys_of(prev).len() && keys_of(prev)[j] == k1[t];
                    if j < p {
                        assert(gs[j].0 == k1[t]);
                    } else {
                        assert(gs[j + 1].0 == k1[t]);
                    }
                } else {
                    assert(gs[p].0 == k1[t]);
                }
            }
            assert forall|k: int| 0 <= k < gs.len() implies #[trigger] gs[k].1 != 0 by {
                if k == p {
                    assert(bit(gs[k].1, v as int));
                    lemma_bit_zero();
                }
            }
            assert forall|a: int, b: int| 0 <= a < gs.len() && 0 <= b < gs.len() && #[trigger] gs[a].0 == #[trigger] gs[b].0 implies a == b by {
                if a != p && b != p {
                    let a0 = if a < p { a } else { a - 1 };
                    let b0 = if b < p { b } else { b - 1 };
                    assert(keys_of(prev)[a0] == gs[a].0);
                    assert(keys_of(prev)[b0] == gs[b].0);
                    if a0 < b0 {
                        assert(keys_of(prev)[a0] < keys_of(prev)[b0]);
                    } else if b0 < a0 {
                        assert(keys_of(prev)[b0] < keys_of(prev)[a0]);
                    }
                } else if a == p && b != p {
                    let b0 = if b < p { b } else { b - 1 };
                    assert(keys_of(prev)[b0] == gs[b].0);
                } else if b == p && a != p {
                    let a0 = if a < p { a } else { a - 1 };
                    assert(keys_of(prev)[a0] == gs[a].0);
                }
            }
            assert(sorted_by_key(gs)) by {
                assert forall|a: int, b: int| 0 <= a < b < gs.len() implies #[trigger] gs[a].key_spec() <= #[trigger] gs[b].key_spec() by {
                    let a0 = if a < p { a } else { a - 1 };
                    let b0 = if b < p { b } else { b - 1 };
                    if a != p && b != p {
                        assert(keys_of(prev)[a0] == gs[a].0);
                        assert(keys_of(prev)[b0] == gs[b].0);
                        if a0 < b0 {
                            assert(keys_of(prev)[a0] < keys_of(prev)[b0]);
                        }
                    } else if a == p {
                        assert(keys_of(prev)[b0] == gs[b].0);
                    } else {
                        assert(keys_of(prev)[a0] == gs[a].0);
                    }
                }
            }
            assert(groups_of(gs, v1, k1));
            gs
        }
    }
}

/// The vertices of the mask `c`, in order.
pub open spec fn class_vs(c: u64) -> Seq<usize> {
    bits_seq(c).map_values(|x: int| x as usize)
}

/// The signatures of the vertices of `c` in the colouring `classes`.
pub open spec fn sig_keys(adj: Seq<u64>, classes: Seq<u64>, c: u64) -> Seq<u128> {
    bits_seq(c).map_values(|x: int| signature(adj[x], classes, classes.len() as int))
}

/// The split of class `i` by the signatures of its vertices: the groups of
/// equal signature, sorted by signature.
pub open spec fn split_of(adj: Seq<u64>, classes: Seq<u64>, i: int) -> Seq<(u128, u64)> {
    choose|gs: Seq<(u128, u64)>| groups_ok(gs, class_vs(classes[i]), sig_keys(adj, classes, classes[i]))
}

/// Class `i` holds several vertices whose signatures differ.
pub open spec fn splittable(adj: Seq<u64>, classes: Seq<u64>, i: int) -> bool {
    popcount(classes[i]) > 1 && split_of(adj, classes, i).len() > 1
}

/// The first class from `i` on that splits, or the number of classes.
pub open spec fn first_split(adj: Seq<u64>, classes: Seq<u64>, i: int) -> int
    decreases classes.len() - i,
{
    if i >= classes.len() {
        classes.len() as int
    } else if splittable(adj, classes, i) {
        i
    } else {
        first_split(adj, classes, i + 1)
    }
}

/// Class `i` replaced, in place, by `parts`.
pub open spec fn replaced(classes: Seq<u64>, i: int, parts: Seq<u64>) -> Seq<u64> {
    classes.take(i) + parts + classes.skip(i + 1)
}

/// The masks of the split of class `i`.
pub open spec fn split_parts(adj: Seq<u64>, classes: Seq<u64>, i: int) -> Seq<u64> {
    split_of(adj, classes, i).map_values(|g: (u128, u64)| g.1)
}

/// The refinement: while some class splits, the first one is replaced by its
/// split; the colouring where none does.
pub open spec fn refine_spec(adj: Seq<u64>, classes: Seq<u64>) -> Seq<u64>
    decreases 65 - classes.len(),
{
    let i = first_split(adj, classes, 0);
    let parts = split_parts(adj, classes, i);
    let next = replaced(classes, i, parts);
    if i < 0 || i >= classes.len() || classes.len() > 64 || parts.len() <= 1 || next.len() > 64 {
        classes
    } else {
        proof {
            assert(next.len() == classes.len() + parts.len() - 1);
        }
        refine_spec(adj, next)
    }
}

/// The vertices of a mask with their signatures, as grouping sees them.
pub proof fn lemma_class_members(adj: Seq<u64>, classes: Seq<u64>, c: u64)
    ensures
        forall|v: int, x: u128| #[trigger] member_with_key(class_vs(c), sig_keys(adj, classes, c), v, x)
            <==> (bit(c, v) && signature(adj[v], classes, classes.len() as int) == x),
        forall|t: int| 0 <= t < class_vs(c).len() ==> #[trigger] class_vs(c)[t] < 64,
        forall|a: int, b: int| 0 <= a < class_vs(c).len() && 0 <= b < class_vs(c).len() && #[trigger] class_vs(c)[a] == #[trigger] class_vs(c)[b] ==> a == b,
        class_vs(c).len() == sig_keys(adj, classes, c).len(),
        class_vs(c).len() == bits_seq(c).len(),
        forall|t: int| 0 <= t < class_vs(c).len() ==> #[trigger] class_vs(c)[t] as int == bits_seq(c)[t],
{
    lemma_bits_seq(c);
    let vs = class_vs(c);
    let ks = sig_keys(adj, classes, c);
    assert forall|t: int| 0 <= t < vs.len() implies #[trigger] vs[t] as int == bits_seq(c)[t] by {
        assert(0 <= bits_seq(c)[t] < 64);
    }
    assert forall|v: int, x: u128| #[trigger] member_with_key(vs, ks, v, x)
        <==> (bit(c, v) && signature(adj[v], classes, classes.len() as int) == x) by {
        if member_with_key(vs, ks, v, x) {
            let t = choose|t: int| 0 <= t < vs.len() && vs[t] == v && #[trigger] ks[t] == x;
            assert(bits_seq(c)[t] == v);
        }
        if bit(c, v) && signature(adj[v], classes, classes.len() as int) == x {
            assert(bits_seq(c).contains(v));
            let t = choose|t: int| 0 <= t < bits_seq(c).len() && bits_seq(c)[t] == v;
            assert(vs[t] == v && ks[t] == x);
        }
    }
    assert forall|a: int, b: int| 0 <= a < vs.len() && 0 <= b < vs.len() && #[trigger] vs[a] == #[trigger] vs[b] implies a == b by {
        if a < b {
            assert(bits_seq(c)[a] < bits_seq(c)[b]);
        } else if b < a {
            assert(bits_seq(c)[b] < bits_seq(c)[a]);
        }
    }
}

/// The split of a class is groups by signature.
pub proof fn lemma_split_ok(adj: Seq<u64>, classes: Seq<u64>, i: int)
    ensures
        groups_ok(split_of(adj, classes, i), class_vs(classes[i]), sig_keys(adj, classes, classes[i])),
{
    let c = classes[i];
    lemma_class_members(adj, classes, c);
    let vs = class_vs(c);
    let ks = sig_keys(adj, classes, c);
    let g = lemma_groups_exist(vs, ks, vs.len() as int);
    assert(vs.take(vs.len() as int) =~= vs);
    assert(ks.take(ks.len() as int) =~= ks);
}

/// Relabelling a partition of `0..n` gives a partition of `0..n`, with `t[v]`
/// in the class of `v`.
pub proof fn lemma_relabel_partition(classes: Seq<u64>, t: Seq<u8>, n: int)
    requires
        is_partition(classes, n),
        perm_of(t, n),
    ensures
        is_partition(relabel_classes(classes, t), n),
        relabel_classes(classes, t).len() == classes.len(),
        forall|i: int| 0 <= i < classes.len() ==> #[trigger] mask_within(classes[i], n),
        forall|i: int, v: int| 0 <= v < n ==> (#[trigger] in_class(relabel_classes(classes, t), i, t[v] as int) <==> in_class(classes, i, v)),
{
    let rc = relabel_classes(classes, t);
    lemma_perm_onto(t, n);
    assert forall|i: int| 0 <= i < classes.len() implies #[trigger] mask_within(classes[i], n) by {
        assert forall|v: int| #[trigger] bit(classes[i], v) implies 0 <= v < n by {
            assert(in_class(classes, i, v));
        }
    }
    assert forall|i: int, v: int| 0 <= v < n implies (#[trigger] in_class(rc, i, t[v] as int) <==> in_class(classes, i, v)) by {
        if 0 <= i < classes.len() {
            lemma_relabel_mask(classes[i], t, n);
        }
    }
    assert forall|i: int, j: int, w: int| #[trigger] in_class(rc, i, w) && #[trigger] in_class(rc, j, w) implies i == j by {
        lemma_relabel_mask(classes[i], t, n);
        let v = choose|v: int| 0 <= v < n && bit(classes[i], v) && t[v] == w;
        assert(in_class(rc, j, t[v] as int));
        assert(in_class(classes, i, v) && in_class(classes, j, v));
    }
    assert forall|w: int| 0 <= w < n implies #[trigger] covered(rc, w) by {
        let v = inv_perm(t)[w] as int;
        assert(covered(classes, v));
        let i = choose|i: int| #[trigger] in_class(classes, i, v);
        assert(in_class(rc, i, t[v] as int));
    }
    assert forall|i: int, w: int| #[trigger] in_class(rc, i, w) implies 0 <= w < n by {
        lemma_relabel_mask(classes[i], t, n);
    }
    assert forall|i: int| 0 <= i < rc.len() implies #[trigger] rc[i] != 0 by {
        lemma_bits_seq(classes[i]);
        let v = bits_seq(classes[i])[0];
        assert(bits_seq(classes[i]).len() > 0);
        assert(bit(classes[i], v));
        assert(in_class(classes, i, v));
        lemma_relabel_mask(classes[i], t, n);
        assert(bit(rc[i], t[v] as int));
        lemma_bit_zero();
    }
}

/// The image of a mask of vertices below `n` has as many vertices.
pub proof fn lemma_relabel_popcount(c: u64, t: Seq<u8>, n: int)
    requires
        perm_of(t, n),
        mask_within(c, n),
    ensures
        popcount(mask_image(c, t)) == popcount(c),
{
    lemma_mask_image(c, t);
    assert(t.no_duplicates()) by {
        assert forall|x: int, y: int| 0 <= x < t.len() && 0 <= y < t.len() && x != y implies t[x] != t[y] by {}
    }
    lemma_permuted_mask_popcount(c, t, mask_image(c, t));
}

/// The split of a relabelled class is the split with its masks relabelled.
pub proof fn lemma_split_relabel(a: Seq<u64>, t: Seq<u8>, b: Seq<u64>, n: int, classes: Seq<u64>, i: int)
    requires
        rows_relabelled(a, t, b, n),
        is_partition(classes, n),
        0 <= i < classes.len(),
    ensures
        split_of(b, relabel_classes(classes, t), i) == split_of(a, classes, i).map_values(|g: (u128, u64)| (g.0, mask_image(g.1, t))),
{
    let rc = relabel_classes(classes, t);
    lemma_relabel_partition(classes, t, n);
    let c = classes[i];
    let d = rc[i];
    assert(d == mask_image(c, t));
    lemma_relabel_mask(c, t, n);
    lemma_class_members(a, classes, c);
    lemma_class_members(b, rc, d);
    lemma_split_ok(a, classes, i);
    lemma_split_ok(b, rc, i);
    let vs1 = class_vs(c);
    let k1 = sig_keys(a, classes, c);
    let vs2 = class_vs(d);
    let k2 = sig_keys(b, rc, d);
    assert forall|v: int, x: u128| 0 <= v < n implies (#[trigger] member_with_key(vs1, k1, v, x) <==> member_with_key(vs2, k2, t[v] as int, x)) by {
        lemma_signature_relabelled(a, t, b, n, classes, v, classes.len() as int);
        assert(rc.len() == classes.len());
    }
    assert forall|v: int, x: u128| #[trigger] member_with_key(vs1, k1, v, x) implies 0 <= v < n by {
        assert(in_class(classes, i, v));
    }
    assert forall|w: int, x: u128| #[trigger] member_with_key(vs2, k2, w, x) implies 0 <= w < n by {
        assert(bit(d, w));
    }
    lemma_groups_relabel(split_of(a, classes, i), vs1, k1, split_of(b, rc, i), vs2, k2, t, n);
}

/// The first class that splits is the same after relabelling.
pub proof fn lemma_first_split_relabel(a: Seq<u64>, t: Seq<u8>, b: Seq<u64>, n: int, classes: Seq<u64>, i: int)
    requires
        rows_relabelled(a, t, b, n),
        is_partition(classes, n),
        0 <= i,
    ensures
        first_split(b, relabel_classes(classes, t), i) == first_split(a, classes, i),
    decreases classes.len() - i,
{
    let rc = relabel_classes(classes, t);
    lemma_relabel_partition(classes, t, n);
    if i < classes.len() {
        lemma_split_relabel(a, t, b, n, classes, i);
        lemma_relabel_popcount(classes[i], t, n);
        assert(rc[i] == mask_image(classes[i], t));
        assert(splittable(b, rc, i) == splittable(a, classes, i));
        lemma_first_split_relabel(a, t, b, n, classes, i + 1);
    }
}

/// The first class that splits lies between `i` and the number of classes.
pub proof fn lemma_first_split_range(adj: Seq<u64>, classes: Seq<u64>, i: int)
    requires
        0 <= i,
    ensures
        i <= first_split(adj, classes, i) || first_split(adj, classes, i) == classes.len(),
        0 <= first_split(adj, classes, i) <= classes.len() || i > classes.len(),
        first_split(adj, classes, i) < classes.len() ==> splittable(adj, classes, first_split(adj, classes, i)),
    decreases classes.len() - i,
{
    if i < classes.len() && !splittable(adj, classes, i) {
        lemma_first_split_range(adj, classes, i + 1);
    }
}

/// Refining the relabelled colouring of the relabelled rows gives the
/// refinement relabelled.
pub proof fn lemma_refine_relabel(a: Seq<u64>, t: Seq<u8>, b: Seq<u64>, n: int, classes: Seq<u64>)
    requires
        rows_relabelled(a, t, b, n),
        is_partition(classes, n),
    ensures
        refine_spec(b, relabel_classes(classes, t)) == relabel_classes(refine_spec(a, classes), t),
    decreases 65 - classes.len(),
{
    let rc = relabel_classes(classes, t);
    lemma_relabel_partition(classes, t, n);
    lemma_first_split_relabel(a, t, b, n, classes, 0);
    lemma_first_split_range(a, classes, 0);
    let i = first_split(a, classes, 0);
    let pa = split_parts(a, classes, i);
    let na = replaced(classes, i, pa);
    if 0 <= i < classes.len() {
        lemma_split_relabel(a, t, b, n, classes, i);
        let pb = split_parts(b, rc, i);
        assert(pb =~= relabel_classes(pa, t));
        let nb = replaced(rc, i, pb);
        assert(nb =~= relabel_classes(na, t));
        if classes.len() <= 64 && pa.len() > 1 && na.len() <= 64 {
            assert(na.len() == classes.len() + pa.len() - 1);
            let c = classes[i];
            lemma_class_members(a, classes, c);
            lemma_split_ok(a, classes, i);
            crate::canon::lemma_groups_split(split_of(a, classes, i), c, class_vs(c), sig_keys(a, classes, c));
            crate::canon::lemma_replace_split(classes, i, pa, n);
            lemma_refine_relabel(a, t, b, n, na);
        }
    }
}

/// The hashes of the vertices of `c`.
pub open spec fn hash_keys(c: u64, hashes: Seq<u128>) -> Seq<u128> {
    bits_seq(c).map_values(|x: int| hashes[x])
}

/// The classes of `c` by hash, sorted by hash.
pub open spec fn hash_groups(c: u64, hashes: Seq<u128>) -> Seq<(u128, u64)> {
    choose|gs: Seq<(u128, u64)>| groups_ok(gs, class_vs(c), hash_keys(c, hashes))
}

/// The first `j` classes of `orig` each split by hash, empty classes dropped.
pub open spec fn recolor_spec(orig: Seq<u64>, hashes: Seq<u128>, j: int) -> Seq<u64>
    decreases j,
{
    if j <= 0 {
        Seq::empty()
    } else {
        let prev = recolor_spec(orig, hashes, j - 1);
        let c = orig[j - 1];
        if c == 0 {
            prev
        } else {
            prev + hash_groups(c, hashes).map_values(|g: (u128, u64)| g.1)
        }
    }
}

/// The vertices of a mask with their hashes, as grouping sees them.
pub proof fn lemma_hash_members(c: u64, hashes: Seq<u128>)
    ensures
        forall|v: int, x: u128| #[trigger] member_with_key(class_vs(c), hash_keys(c, hashes), v, x)
            <==> (bit(c, v) && hashes[v] == x),
        class_vs(c).len() == hash_keys(c, hashes).len(),
        groups_ok(hash_groups(c, hashes), class_vs(c), hash_keys(c, hashes)),
{
    lemma_bits_seq(c);
    lemma_class_members(Seq::empty(), Seq::empty(), c);
    let vs = class_vs(c);
    let ks = hash_keys(c, hashes);
    assert forall|v: int, x: u128| #[trigger] member_with_key(vs, ks, v, x) <==> (bit(c, v) && hashes[v] == x) by {
        if member_with_key(vs, ks, v, x) {
            let t = choose|t: int| 0 <= t < vs.len() && vs[t] == v && #[trigger] ks[t] == x;
            assert(bits_seq(c)[t] == v);
        }
        if bit(c, v) && hashes[v] == x {
            assert(bits_seq(c).contains(v));
            let t = choose|t: int| 0 <= t < bits_seq(c).len() && bits_seq(c)[t] == v;
            assert(vs[t] as int == v && ks[t] == x);
        }
    }
    let g = lemma_groups_exist(vs, ks, vs.len() as int);
    assert(vs.take(vs.len() as int) =~= vs);
    assert(ks.take(ks.len() as int) =~= ks);
}

/// Splitting the relabelled classes by hashes that agree under the
/// relabelling gives the split classes relabelled.
pub proof fn lemma_recolor_relabel(orig: Seq<u64>, t: Seq<u8>, n: int, ha: Seq<u128>, hb: Seq<u128>, j: int)
    requires
        perm_of(t, n),
        forall|i: int| 0 <= i < orig.len() ==> #[trigger] mask_within(orig[i], n),
        forall|v: int| 0 <= v < n ==> #[trigger] hb[t[v] as int] == ha[v],
        0 <= j <= orig.len(),
    ensures
        recolor_spec(relabel_classes(orig, t), hb, j) == relabel_classes(recolor_spec(orig, ha, j), t),
    decreases j,
{
    if j > 0 {
        lemma_recolor_relabel(orig, t, n, ha, hb, j - 1);
        let c = orig[j - 1];
        let d = relabel_classes(orig, t)[j - 1];
        assert(d == mask_image(c, t));
        assert(mask_within(c, n));
        lemma_relabel_mask(c, t, n);
        lemma_relabel_popcount(c, t, n);
        lemma_bits_seq(c);
        lemma_bits_seq(d);
        assert((c == 0) == (d == 0)) by {
            if c != 0 {
                assert(bits_seq(c).len() > 0);
            }
            if d != 0 {
                assert(bits_seq(d).len() > 0);
            }
            if c == 0 {
                assert(bits_seq(c).len() == 0) by {
                    if bits_seq(c).len() > 0 {
                        assert(bit(c, bits_seq(c)[0]));
                        lemma_bit_zero();
                    }
                }
            }
            if d == 0 {
                assert(bits_seq(d).len() == 0) by {
                    if bits_seq(d).len() > 0 {
                        assert(bit(d, bits_seq(d)[0]));
                        lemma_bit_zero();
                    }
                }
            }
        }
        if c != 0 {
            lemma_hash_members(c, ha);
            lemma_hash_members(d, hb);
            lemma_perm_onto(t, n);
            assert forall|v: int, x: u128| #[trigger] member_with_key(class_vs(c), hash_keys(c, ha), v, x) implies 0 <= v < n by {
                assert(bit(c, v));
            }
            assert forall|w: int, x: u128| #[trigger] member_with_key(class_vs(d), hash_keys(d, hb), w, x) implies 0 <= w < n by {
                assert(bit(d, w));
            }
            assert forall|v: int, x: u128| 0 <= v < n implies (#[trigger] member_with_key(class_vs(c), hash_keys(c, ha), v, x)
                <==> member_with_key(class_vs(d), hash_keys(d, hb), t[v] as int, x)) by {
                assert(hb[t[v] as int] == ha[v]);
            }
            lemma_groups_relabel(hash_groups(c, ha), class_vs(c), hash_keys(c, ha), hash_groups(d, hb), class_vs(d), hash_keys(d, hb), t, n);
            let pa = hash_groups(c, ha).map_values(|g: (u128, u64)| g.1);
            let pb = hash_groups(d, hb).map_values(|g: (u128, u64)| g.1);
            assert(pb =~= relabel_classes(pa, t));
            assert(recolor_spec(relabel_classes(orig, t), hb, j) =~= relabel_classes(recolor_spec(orig, ha, j), t));
        }
    }
}

/// Adjacency stays among the vertices.
pub open spec fn closed_adjacency(g: GraphView) -> bool {
    forall|x: int, y: int| #[trigger] g.adjacent(x, y) ==> 0 <= x < g.n && 0 <= y < g.n
}

/// The image of a set of vertices under `t`.
pub open spec fn set_image(s: Set<int>, t: Seq<u8>) -> Set<int> {
    s.map(|x: int| t[x] as int)
}

/// The layers and balls of a breadth-first search from `t[v]` in the graph
/// relabelled by `t` are those from `v`, relabelled.
proof fn lemma_bfs_relabel(g: GraphView, t: Seq<u8>, h: GraphView, v: int, k: nat)
    requires
        maps_onto(g, t, h),
        g.n <= 64,
        0 <= v < g.n,
    ensures
        bfs(h, t[v] as int, k).0 == set_image(bfs(g, v, k).0, t),
        bfs(h, t[v] as int, k).1 == set_image(bfs(g, v, k).1, t),
        forall|x: int| #[trigger] bfs(g, v, k).1.contains(x) ==> 0 <= x < g.n,
        forall|x: int| #[trigger] bfs(g, v, k).0.contains(x) ==> bfs(g, v, k).1.contains(x),
    decreases k,
{
    let n = g.n as int;
    lemma_perm_onto(t, n);
    if k == 0 {
        assert(set![v].contains(v));
        assert(set_image(set![v], t).contains(t[v] as int));
        assert forall|x: int| #[trigger] set_image(set![v], t).contains(x) implies x == t[v] as int by {
            let z = choose|z: int| set![v].contains(z) && t[z] as int == x;
        }
        assert(set![t[v] as int] =~= set_image(set![v], t));
    } else {
        lemma_bfs_relabel(g, t, h, v, (k - 1) as nat);
        let (lg, bg) = bfs(g, v, (k - 1) as nat);
        let (lh, bh) = bfs(h, t[v] as int, (k - 1) as nat);
        let ng = bfs(g, v, k).0;
        let nh = bfs(h, t[v] as int, k).0;
        assert(ng == Set::new(|x: int| 0 <= x < g.n && !bg.contains(x) && exists|y: int| lg.contains(y) && #[trigger] g.adjacent(y, x)));
        assert(nh == Set::new(|x: int| 0 <= x < h.n && !bh.contains(x) && exists|y: int| lh.contains(y) && #[trigger] h.adjacent(y, x)));
        assert forall|x: int| #[trigger] nh.contains(x) <==> set_image(ng, t).contains(x) by {
            if nh.contains(x) {
                let x0 = inv_perm(t)[x] as int;
                assert(t[x0] == x);
                let y = choose|y: int| lh.contains(y) && #[trigger] h.adjacent(y, x);
                assert(set_image(lg, t).contains(y));
                let y0 = choose|y0: int| lg.contains(y0) && t[y0] as int == y;
                assert(bg.contains(y0));
                assert(g.adjacent(y0, x0));
                assert(!bg.contains(x0)) by {
                    if bg.contains(x0) {
                        assert(set_image(bg, t).contains(x));
                    }
                }
                assert(ng.contains(x0));
            }
            if set_image(ng, t).contains(x) {
                let x0 = choose|x0: int| ng.contains(x0) && t[x0] as int == x;
                let y0 = choose|y0: int| lg.contains(y0) && #[trigger] g.adjacent(y0, x0);
                assert(bg.contains(y0));
                assert(h.adjacent(t[y0] as int, t[x0] as int));
                assert(set_image(lg, t).contains(t[y0] as int));
                assert(!bh.contains(x)) by {
                    if bh.contains(x) {
                        let z = choose|z: int| bg.contains(z) && t[z] as int == x;
                        assert(z == x0);
                    }
                }
            }
        }
        assert(nh =~= set_image(ng, t));
        assert(bfs(h, t[v] as int, k).1 =~= set_image(bfs(g, v, k).1, t)) by {
            assert forall|x: int| #[trigger] bfs(h, t[v] as int, k).1.contains(x) <==> set_image(bfs(g, v, k).1, t).contains(x) by {
                if set_image(bfs(g, v, k).1, t).contains(x) {
                    let x0 = choose|x0: int| bfs(g, v, k).1.contains(x0) && t[x0] as int == x;
                    if bg.contains(x0) {
                        assert(set_image(bg, t).contains(x));
                    } else {
                        assert(set_image(ng, t).contains(x));
                    }
                }
                if bfs(h, t[v] as int, k).1.contains(x) {
                    if bh.contains(x) {
                        let x0 = choose|x0: int| bg.contains(x0) && t[x0] as int == x;
                        assert(bfs(g, v, k).1.contains(x0));
                    } else {
                        let x0 = choose|x0: int| ng.contains(x0) && t[x0] as int == x;
                        assert(bfs(g, v, k).1.contains(x0));
                    }
                }
            }
        }
    }
}

/// Relabelling a set of vertices below `n` keeps its size.
proof fn lemma_set_image_len(s: Set<int>, t: Seq<u8>, n: int)
    requires
        perm_of(t, n),
        forall|x: int| #[trigger] s.contains(x) ==> 0 <= x < n,
    ensures
        set_image(s, t).len() == s.len(),
        set_image(s, t).finite(),
{
    let r = vstd::set_lib::set_int_range(0, n);
    assert(s.subset_of(r));
    vstd::set_lib::lemma_int_range(0, n);
    vstd::set_lib::lemma_len_subset(s, r);
    let f = |x: int| t[x] as int;
    assert(vstd::relations::injective_on(f, s)) by {
        assert forall|x1: int, x2: int| s.contains(x1) && s.contains(x2) && #[trigger] f(x1) == #[trigger] f(x2) implies x1 == x2 by {}
    }
    vstd::set_lib::lemma_map_size(s, set_image(s, t), f);
}

/// The distance histogram of `t[v]` in the relabelled graph is that of `v`.
pub proof fn lemma_histogram_relabel(g: GraphView, t: Seq<u8>, h: GraphView, v: int)
    requires
        maps_onto(g, t, h),
        g.n <= 64,
        0 <= v < g.n,
        is_histogram(g, v, histogram(g, v)),
    ensures
        histogram(h, t[v] as int) == histogram(g, v),
{
    let hist = histogram(g, v);
    let n = g.n as int;
    assert forall|k: nat| #[trigger] bfs(h, t[v] as int, k).0.len() == bfs(g, v, k).0.len() by {
        lemma_bfs_relabel(g, t, h, v, k);
        lemma_set_image_len(bfs(g, v, k).0, t, n);
    }
    assert(is_histogram(h, t[v] as int, hist)) by {
        assert forall|i: int| 0 <= i < hist.len() implies #[trigger] hist[i] == bfs(h, t[v] as int, i as nat).0.len() && hist[i] > 0 by {
            assert(bfs(h, t[v] as int, i as nat).0.len() == bfs(g, v, i as nat).0.len());
        }
        assert(bfs(h, t[v] as int, hist.len()).0.len() == bfs(g, v, hist.len()).0.len());
    }
    lemma_histogram_unique(h, t[v] as int, hist, histogram(h, t[v] as int));
}

/// The first class from `i` on with several vertices, or the number of
/// classes.
pub open spec fn first_big(classes: Seq<u64>, i: int) -> int
    decreases classes.len() - i,
{
    if i >= classes.len() {
        classes.len() as int
    } else if popcount(classes[i]) > 1 {
        i
    } else {
        first_big(classes, i + 1)
    }
}

/// Vertex `v` of class `cp` individualised: the class replaced by the rest
/// of it and then `v` alone.
pub open spec fn individualised(classes: Seq<u64>, cp: int, v: int) -> Seq<u64> {
    replaced(classes, cp, seq![classes[cp] & !(1u64 << (v as u64)), 1u64 << (v as u64)])
}

/// The class of `v`.
pub open spec fn class_index(classes: Seq<u64>, v: int) -> int {
    choose|i: int| in_class(classes, i, v)
}

/// The labelling read off a colouring: each vertex below `n` to the index of
/// its class.
pub open spec fn leaf_labelling(classes: Seq<u64>, n: int) -> Seq<u8> {
    Seq::new(n as nat, |v: int| class_index(classes, v) as u8)
}

/// The colouring below `classes` after individualising `v` of the first
/// class with several vertices, and refining.
pub open spec fn child(adj: Seq<u64>, classes: Seq<u64>, v: int) -> Seq<u64> {
    refine_spec(adj, individualised(classes, first_big(classes, 0), v))
}

/// `lam` is a leaf of the search below `classes`: where every class holds
/// one vertex, the labelling read off; else a leaf below the child of some
/// vertex of the first class with several vertices.
pub open spec fn is_leaf(adj: Seq<u64>, classes: Seq<u64>, n: int, lam: Seq<u8>) -> bool
    decreases 65 - classes.len(), 65int,
{
    let cp = first_big(classes, 0);
    if classes.len() > 64 || cp < 0 || n > 64 || n < 0 {
        false
    } else if cp >= classes.len() {
        lam == leaf_labelling(classes, n)
    } else {
        leaf_below(adj, classes, n, lam, n)
    }
}

/// `lam` is a leaf below the child of some vertex below `v` of the first
/// class with several vertices.
pub open spec fn leaf_below(adj: Seq<u64>, classes: Seq<u64>, n: int, lam: Seq<u8>, v: int) -> bool
    decreases 65 - classes.len(), v,
{
    if v <= 0 || v > 64 || classes.len() > 64 {
        false
    } else {
        let c = child(adj, classes, v - 1);
        leaf_below(adj, classes, n, lam, v - 1) || (bit(classes[first_big(classes, 0)], v - 1)
            && c.len() > classes.len() && c.len() <= 64 && is_leaf(adj, c, n, lam))
    }
}

/// A leaf below some vertex below `v`.
pub proof fn lemma_leaf_below(adj: Seq<u64>, classes: Seq<u64>, n: int, lam: Seq<u8>, v: int)
    requires
        0 <= v <= 64,
        classes.len() <= 64,
    ensures
        leaf_below(adj, classes, n, lam, v) <==> exists|x: int| 0 <= x < v && #[trigger] bit(classes[first_big(classes, 0)], x)
            && child(adj, classes, x).len() > classes.len() && child(adj, classes, x).len() <= 64
            && is_leaf(adj, child(adj, classes, x), n, lam),
    decreases v,
{
    if v > 0 {
        lemma_leaf_below(adj, classes, n, lam, v - 1);
        if leaf_below(adj, classes, n, lam, v) {
            if !leaf_below(adj, classes, n, lam, v - 1) {
                assert(bit(classes[first_big(classes, 0)], v - 1));
            }
        }
    }
}

/// What `first_big` finds.
pub proof fn lemma_first_big(classes: Seq<u64>, i: int)
    requires
        0 <= i <= classes.len(),
    ensures
        i <= first_big(classes, i) <= classes.len(),
        forall|j: int| i <= j < first_big(classes, i) ==> popcount(#[trigger] classes[j]) <= 1,
        first_big(classes, i) < classes.len() ==> popcount(classes[first_big(classes, i)]) > 1,
    decreases classes.len() - i,
{
    if i < classes.len() && popcount(classes[i]) <= 1 {
        lemma_first_big(classes, i + 1);
    }
}

/// Vertex `u` lies in an earlier class than `w`.
pub open spec fn before(classes: Seq<u64>, u: int, w: int) -> bool {
    exists|i: int, j: int| i < j && #[trigger] in_class(classes, i, u) && #[trigger] in_class(classes, j, w)
}

/// Replacing a class by a split of it keeps the order of the other classes,
/// and puts the parts in order in its place.
pub proof fn lemma_replace_order(classes: Seq<u64>, k: int, parts: Seq<u64>, n: int, u: int, w: int)
    requires
        is_partition(classes, n),
        0 <= k < classes.len(),
        crate::canon::splits(parts, classes[k]),
    ensures
        before(classes, u, w) ==> before(replaced(classes, k, parts), u, w),
        forall|a: int, b: int| #[trigger] in_class(parts, a, u) && #[trigger] in_class(parts, b, w) && a < b ==> before(replaced(classes, k, parts), u, w),
{
    let r = replaced(classes, k, parts);
    let p = parts.len() as int;
    assert forall|i: int, x: int| #[trigger] in_class(classes, i, x) && i != k implies in_class(r, if i < k { i } else { i + p - 1 }, x) by {
        if i < k {
            assert(r[i] == classes[i]);
        } else {
            assert(r[i + p - 1] == classes[i]);
        }
    }
    assert forall|q: int, x: int| #[trigger] in_class(parts, q, x) implies in_class(r, k + q, x) by {
        assert(r[k + q] == parts[q]);
    }
    if before(classes, u, w) {
        let (i, j) = choose|i: int, j: int| i < j && #[trigger] in_class(classes, i, u) && #[trigger] in_class(classes, j, w);
        let iu = if i < k { i } else if i == k { k + choose|q: int| #[trigger] in_class(parts, q, u) } else { i + p - 1 };
        let jw = if j < k { j } else if j == k { k + choose|q: int| #[trigger] in_class(parts, q, w) } else { j + p - 1 };
        if i == k {
            assert(covered(parts, u));
            let q = choose|q: int| #[trigger] in_class(parts, q, u);
            assert(in_class(r, k + q, u));
            assert(in_class(r, jw, w));
            assert(before(r, u, w));
        } else if j == k {
            assert(covered(parts, w));
            let q = choose|q: int| #[trigger] in_class(parts, q, w);
            assert(in_class(r, k + q, w));
            assert(in_class(r, iu, u));
            assert(before(r, u, w));
        } else {
            assert(in_class(r, iu, u));
            assert(in_class(r, jw, w));
            assert(before(r, u, w));
        }
    }
    assert forall|a: int, b: int| #[trigger] in_class(parts, a, u) && #[trigger] in_class(parts, b, w) && a < b implies before(r, u, w) by {
        assert(in_class(r, k + a, u));
        assert(in_class(r, k + b, w));
    }
}

/// The refinement of a partition is a partition with at least as many
/// classes, and keeps vertices of earlier classes in earlier classes.
pub proof fn lemma_refine_props(adj: Seq<u64>, classes: Seq<u64>, n: int)
    requires
        is_partition(classes, n),
        0 <= n <= 64,
    ensures
        is_partition(refine_spec(adj, classes), n),
        refine_spec(adj, classes).len() >= classes.len(),
        forall|u: int, w: int| #[trigger] before(classes, u, w) ==> #[trigger] before(refine_spec(adj, classes), u, w),
    decreases 65 - classes.len(),
{
    crate::partition::lemma_partition_len(classes, n);
    lemma_first_split_range(adj, classes, 0);
    let i = first_split(adj, classes, 0);
    let parts = split_parts(adj, classes, i);
    let next = replaced(classes, i, parts);
    if 0 <= i < classes.len() && classes.len() <= 64 && parts.len() > 1 && next.len() <= 64 {
        let c = classes[i];
        lemma_class_members(adj, classes, c);
        lemma_split_ok(adj, classes, i);
        crate::canon::lemma_groups_split(split_of(adj, classes, i), c, class_vs(c), sig_keys(adj, classes, c));
        crate::canon::lemma_replace_split(classes, i, parts, n);
        assert(next.len() == classes.len() + parts.len() - 1);
        lemma_refine_props(adj, next, n);
        assert forall|u: int, w: int| #[trigger] before(classes, u, w) implies #[trigger] before(refine_spec(adj, classes), u, w) by {
            lemma_replace_order(classes, i, parts, n, u, w);
            assert(before(next, u, w));
        }
    }
}

/// Individualising a vertex of a class with several vertices, then
/// refining, gives a partition with more classes, keeps the order, and puts
/// the other vertices of the class before the individualised one.
pub proof fn lemma_child_props(adj: Seq<u64>, classes: Seq<u64>, n: int, cp: int, x: int)
    requires
        is_partition(classes, n),
        0 <= n <= 64,
        0 <= cp < classes.len(),
        popcount(classes[cp]) > 1,
        bit(classes[cp], x),
    ensures
        is_partition(individualised(classes, cp, x), n),
        is_partition(refine_spec(adj, individualised(classes, cp, x)), n),
        refine_spec(adj, individualised(classes, cp, x)).len() > classes.len(),
        forall|u: int, w: int| #[trigger] before(classes, u, w) ==> before(refine_spec(adj, individualised(classes, cp, x)), u, w),
        forall|y: int| y != x && #[trigger] bit(classes[cp], y) ==> before(refine_spec(adj, individualised(classes, cp, x)), y, x),
{
    assert(in_class(classes, cp, x));
    assert(0 <= x < 64);
    crate::canon::lemma_individualise_splits(classes[cp], x);
    let parts = seq![classes[cp] & !(1u64 << (x as u64)), 1u64 << (x as u64)];
    let ind = individualised(classes, cp, x);
    crate::canon::lemma_replace_split(classes, cp, parts, n);
    assert(ind.len() == classes.len() + 1);
    lemma_refine_props(adj, ind, n);
    let r = refine_spec(adj, ind);
    assert forall|u: int, w: int| #[trigger] before(classes, u, w) implies before(r, u, w) by {
        lemma_replace_order(classes, cp, parts, n, u, w);
    }
    assert forall|y: int| y != x && #[trigger] bit(classes[cp], y) implies before(r, y, x) by {
        lemma_bits_all();
        lemma_bit_single(x as u64);
        assert(in_class(parts, 0, y));
        assert(in_class(parts, 1, x));
        lemma_replace_order(classes, cp, parts, n, y, x);
        assert(before(ind, y, x));
    }
}

/// The leaves below a partition label vertices of earlier classes lower.
pub proof fn lemma_leaf_order(adj: Seq<u64>, classes: Seq<u64>, n: int, lam: Seq<u8>, u: int, w: int)
    requires
        is_partition(classes, n),
        0 <= n <= 64,
        is_leaf(adj, classes, n, lam),
        before(classes, u, w),
    ensures
        lam[u] < lam[w],
    decreases 65 - classes.len(),
{
    lemma_first_big(classes, 0);
    crate::partition::lemma_partition_len(classes, n);
    let cp = first_big(classes, 0);
    let (i, j) = choose|i: int, j: int| i < j && #[trigger] in_class(classes, i, u) && #[trigger] in_class(classes, j, w);
    if cp >= classes.len() {
        assert(in_class(classes, class_index(classes, u), u));
        assert(in_class(classes, class_index(classes, w), w));
        assert(class_index(classes, u) == i);
        assert(class_index(classes, w) == j);
        assert(0 <= u < n && 0 <= w < n);
    } else {
        lemma_leaf_below(adj, classes, n, lam, n);
        let v = choose|v: int| 0 <= v < n && #[trigger] bit(classes[first_big(classes, 0)], v)
            && child(adj, classes, v).len() > classes.len() && child(adj, classes, v).len() <= 64
            && is_leaf(adj, child(adj, classes, v), n, lam);
        lemma_child_props(adj, classes, n, cp, v);
        lemma_leaf_order(adj, child(adj, classes, v), n, lam, u, w);
    }
}

/// Leaves below different vertices of the class that is individualised
/// differ.
pub proof fn lemma_children_disjoint(adj: Seq<u64>, classes: Seq<u64>, n: int, x: int, y: int, lam: Seq<u8>)
    requires
        is_partition(classes, n),
        0 <= n <= 64,
        first_big(classes, 0) < classes.len(),
        x != y,
        bit(classes[first_big(classes, 0)], x),
        bit(classes[first_big(classes, 0)], y),
    ensures
        !(is_leaf(adj, child(adj, classes, x), n, lam) && is_leaf(adj, child(adj, classes, y), n, lam)),
{
    lemma_first_big(classes, 0);
    let cp = first_big(classes, 0);
    if is_leaf(adj, child(adj, classes, x), n, lam) && is_leaf(adj, child(adj, classes, y), n, lam) {
        lemma_child_props(adj, classes, n, cp, x);
        lemma_child_props(adj, classes, n, cp, y);
        lemma_leaf_order(adj, child(adj, classes, x), n, lam, y, x);
        lemma_leaf_order(adj, child(adj, classes, y), n, lam, x, y);
    }
}

/// A leaf below a partition is a permutation of `0..n`.
pub proof fn lemma_leaf_perm(adj: Seq<u64>, classes: Seq<u64>, n: int, lam: Seq<u8>)
    requires
        is_partition(classes, n),
        0 <= n <= 64,
        is_leaf(adj, classes, n, lam),
    ensures
        perm_of(lam, n),
    decreases 65 - classes.len(),
{
    lemma_first_big(classes, 0);
    crate::partition::lemma_partition_len(classes, n);
    let cp = first_big(classes, 0);
    if cp >= classes.len() {
        assert(crate::canon::labels_classes(lam, classes, n)) by {
            assert forall|v: int| 0 <= v < n implies #[trigger] in_class(classes, lam[v] as int, v) by {
                assert(covered(classes, v));
                assert(in_class(classes, class_index(classes, v), v));
                crate::partition::lemma_partition_len(classes, n);
            }
        }
        crate::canon::lemma_discrete_perm(lam, classes, n);
    } else {
        lemma_leaf_below(adj, classes, n, lam, n);
        let v = choose|v: int| 0 <= v < n && #[trigger] bit(classes[first_big(classes, 0)], v)
            && child(adj, classes, v).len() > classes.len() && child(adj, classes, v).len() <= 64
            && is_leaf(adj, child(adj, classes, v), n, lam);
        lemma_child_props(adj, classes, n, cp, v);
        lemma_leaf_perm(adj, child(adj, classes, v), n, lam);
    }
}

/// The adjacency rows of `g` relabelled by `lam`.
pub open spec fn score_of(g: GraphView, lam: Seq<u8>) -> Seq<u64> {
    choose|r: Seq<u64>| scores_as(g, lam, r)
}

/// The best candidates among the labellings `s`: none where `s` is empty;
/// else the least relabelled rows, and, once each, exactly the labellings of
/// `s` that give them.
pub open spec fn best_state(g: GraphView, best: Option<(Vec<u64>, Vec<Vec<u8>>)>, s: Set<Seq<u8>>) -> bool {
    &&& forall|lam: Seq<u8>| #[trigger] s.contains(lam) ==> scores_as(g, lam, score_of(g, lam))
    &&& match best {
        None => s =~= Set::<Seq<u8>>::empty(),
        Some((sc, ps)) => {
            &&& forall|k: int| 0 <= k < ps@.len() ==> s.contains(#[trigger] ps@[k]@) && score_of(g, ps@[k]@) == sc@
            &&& forall|lam: Seq<u8>| #[trigger] s.contains(lam) ==> !lex_less(score_of(g, lam), sc@)
            &&& forall|lam: Seq<u8>| #[trigger] s.contains(lam) && score_of(g, lam) == sc@ ==> exists|k: int| 0 <= k < ps@.len() && #[trigger] ps@[k]@ == lam
            &&& forall|a: int, b: int| 0 <= a < b < ps@.len() ==> #[trigger] ps@[a]@ != #[trigger] ps@[b]@
        },
    }
}

/// The lexicographic order is transitive.
pub proof fn lemma_lex_trans(a: Seq<u64>, b: Seq<u64>, c: Seq<u64>)
    requires
        a.len() == b.len(),
        b.len() == c.len(),
        lex_less(a, b),
        lex_less(b, c),
    ensures
        lex_less(a, c),
{
    let i = choose|i: int| 0 <= i < a.len() && a.take(i) == b.take(i) && #[trigger] a[i] < b[i];
    let j = choose|j: int| 0 <= j < b.len() && b.take(j) == c.take(j) && #[trigger] b[j] < c[j];
    if i < j {
        assert(a.take(i) =~= c.take(i)) by {
            assert forall|x: int| 0 <= x < i implies a.take(i)[x] == c.take(i)[x] by {
                assert(a.take(i)[x] == b.take(i)[x]);
                assert(b.take(j)[x] == c.take(j)[x]);
            }
        }
        assert(b[i] == c[i]) by {
            assert(b.take(j)[i] == c.take(j)[i]);
        }
        assert(a[i] < c[i]);
    } else if j < i {
        assert(a.take(j) =~= c.take(j)) by {
            assert forall|x: int| 0 <= x < j implies a.take(j)[x] == c.take(j)[x] by {
                assert(a.take(i)[x] == b.take(i)[x]);
                assert(b.take(j)[x] == c.take(j)[x]);
            }
        }
        assert(a[j] == b[j]) by {
            assert(a.take(i)[j] == b.take(i)[j]);
        }
        assert(a[j] < c[j]);
    } else {
        assert(a.take(i) =~= c.take(i)) by {
            assert forall|x: int| 0 <= x < i implies a.take(i)[x] == c.take(i)[x] by {
                assert(a.take(i)[x] == b.take(i)[x]);
                assert(b.take(j)[x] == c.take(j)[x]);
            }
        }
        assert(a[i] < c[i]);
    }
}

/// The first class with several vertices is the same after relabelling.
proof fn lemma_first_big_relabel(classes: Seq<u64>, t: Seq<u8>, n: int, i: int)
    requires
        is_partition(classes, n),
        perm_of(t, n),
        0 <= i,
    ensures
        first_big(relabel_classes(classes, t), i) == first_big(classes, i),
    decreases classes.len() - i,
{
    lemma_relabel_partition(classes, t, n);
    if i < classes.len() {
        lemma_relabel_popcount(classes[i], t, n);
        assert(relabel_classes(classes, t)[i] == mask_image(classes[i], t));
        lemma_first_big_relabel(classes, t, n, i + 1);
    }
}

/// Individualising `t[v]` in the relabelled colouring is individualising `v`
/// and relabelling.
proof fn lemma_individualised_relabel(classes: Seq<u64>, t: Seq<u8>, n: int, cp: int, v: int)
    requires
        is_partition(classes, n),
        perm_of(t, n),
        0 <= cp < classes.len(),
        0 <= v < n,
    ensures
        individualised(relabel_classes(classes, t), cp, t[v] as int) == relabel_classes(individualised(classes, cp, v), t),
{
    lemma_relabel_partition(classes, t, n);
    lemma_perm_onto(t, n);
    let c = classes[cp];
    let sv = 1u64 << (v as u64);
    let tv = t[v] as int;
    let stv = 1u64 << (tv as u64);
    let o = c & !sv;
    lemma_bits_all();
    lemma_bit_single(v as u64);
    lemma_bit_single(tv as u64);
    lemma_relabel_mask(c, t, n);
    assert(mask_within(sv, n));
    lemma_relabel_mask(sv, t, n);
    assert(mask_within(o, n)) by {
        assert forall|x: int| #[trigger] bit(o, x) implies 0 <= x < n by {
            assert(bit(c, x));
            assert(in_class(classes, cp, x));
        }
    }
    lemma_relabel_mask(o, t, n);
    assert forall|w: int| 0 <= w < 64 implies (bit(mask_image(sv, t), w) <==> bit(stv, w)) by {
        if bit(mask_image(sv, t), w) {
            let x = choose|x: int| 0 <= x < n && bit(sv, x) && t[x] == w;
        }
        if bit(stv, w) {
            assert(bit(mask_image(sv, t), t[v] as int));
        }
    }
    lemma_bits_ext(mask_image(sv, t), stv);
    let rc = mask_image(c, t);
    assert forall|w: int| 0 <= w < 64 implies (bit(mask_image(o, t), w) <==> bit(rc & !stv, w)) by {
        if bit(mask_image(o, t), w) {
            let x = choose|x: int| 0 <= x < n && bit(o, x) && t[x] == w;
            assert(x != v);
            assert(t[x] != t[v]);
        }
        if bit(rc & !stv, w) {
            let x = choose|x: int| 0 <= x < n && bit(c, x) && t[x] == w;
            assert(x != v);
            assert(bit(o, x));
        }
    }
    lemma_bits_ext(mask_image(o, t), rc & !stv);
    let lhs = individualised(relabel_classes(classes, t), cp, tv);
    let rhs = relabel_classes(individualised(classes, cp, v), t);
    assert(relabel_classes(classes, t)[cp] == rc);
    assert(lhs =~= rhs);
}

/// The leaves below the relabelled colouring of the relabelled rows are the
/// leaves below the colouring, composed with the relabelling.
pub proof fn lemma_leaf_relabel(a: Seq<u64>, t: Seq<u8>, b: Seq<u64>, n: int, classes: Seq<u64>, mu: Seq<u8>)
    requires
        rows_relabelled(a, t, b, n),
        is_partition(classes, n),
        0 <= n,
        mu.len() == n,
    ensures
        is_leaf(b, relabel_classes(classes, t), n, mu) == is_leaf(a, classes, n, crate::perm::compose_spec(t, mu)),
    decreases 65 - classes.len(),
{
    let rc = relabel_classes(classes, t);
    let lam = crate::perm::compose_spec(t, mu);
    lemma_relabel_partition(classes, t, n);
    lemma_perm_onto(t, n);
    lemma_first_big_relabel(classes, t, n, 0);
    lemma_first_big(classes, 0);
    crate::partition::lemma_partition_len(classes, n);
    let cp = first_big(classes, 0);
    if cp >= classes.len() {
        assert forall|v: int| 0 <= v < n implies #[trigger] leaf_labelling(rc, n)[t[v] as int] == leaf_labelling(classes, n)[v] by {
            assert(covered(classes, v));
            assert(in_class(classes, class_index(classes, v), v));
            assert(in_class(rc, class_index(classes, v), t[v] as int));
            assert(covered(rc, t[v] as int));
            assert(in_class(rc, class_index(rc, t[v] as int), t[v] as int));
            assert(in_class(classes, class_index(rc, t[v] as int), v));
        }
        if mu == leaf_labelling(rc, n) {
            assert(lam =~= leaf_labelling(classes, n));
        }
        if lam == leaf_labelling(classes, n) {
            assert forall|w: int| 0 <= w < n implies mu[w] == leaf_labelling(rc, n)[w] by {
                let v = inv_perm(t)[w] as int;
                assert(t[v] == w);
                assert(lam[v] == mu[t[v] as int]);
            }
            assert(mu =~= leaf_labelling(rc, n));
        }
    } else {
        lemma_leaf_below(b, rc, n, mu, n);
        lemma_leaf_below(a, classes, n, lam, n);
        assert(rc[cp] == mask_image(classes[cp], t));
        lemma_relabel_mask(classes[cp], t, n);
        assert forall|v: int| 0 <= v < n && #[trigger] bit(classes[cp], v) implies
            child(b, rc, t[v] as int) == relabel_classes(child(a, classes, v), t)
            && child(b, rc, t[v] as int).len() == child(a, classes, v).len()
            && is_partition(child(a, classes, v), n)
            && child(a, classes, v).len() > classes.len()
            && (is_leaf(b, child(b, rc, t[v] as int), n, mu) == is_leaf(a, child(a, classes, v), n, lam)) by {
            lemma_individualised_relabel(classes, t, n, cp, v);
            lemma_child_props(a, classes, n, cp, v);
            lemma_refine_relabel(a, t, b, n, individualised(classes, cp, v));
            lemma_relabel_partition(child(a, classes, v), t, n);
            crate::partition::lemma_partition_len(child(a, classes, v), n);
            lemma_leaf_relabel(a, t, b, n, child(a, classes, v), mu);
        }
        if leaf_below(b, rc, n, mu, n) {
            let x = choose|x: int| 0 <= x < n && #[trigger] bit(rc[first_big(rc, 0)], x)
                && child(b, rc, x).len() > rc.len() && child(b, rc, x).len() <= 64 && is_leaf(b, child(b, rc, x), n, mu);
            let v = inv_perm(t)[x] as int;
            assert(t[v] == x);
            assert(bit(classes[cp], v));
            assert(leaf_below(a, classes, n, lam, n));
        }
        if leaf_below(a, classes, n, lam, n) {
            let v = choose|v: int| 0 <= v < n && #[trigger] bit(classes[first_big(classes, 0)], v)
                && child(a, classes, v).len() > classes.len() && child(a, classes, v).len() <= 64 && is_leaf(a, child(a, classes, v), n, lam);
            assert(bit(rc[cp], t[v] as int));
            assert(leaf_below(b, rc, n, mu, n));
        }
    }
}

/// Relabelling the graph by `t` and labelling by `mu` gives the rows of
/// labelling by `mu` after `t`.
pub proof fn lemma_score_relabel(g: GraphView, t: Seq<u8>, h: GraphView, mu: Seq<u8>, r: Seq<u64>)
    requires
        maps_onto(g, t, h),
        g.n <= 64,
        crate::perm::edges_within(g.edges, g.n as int),
        crate::perm::edges_within(h.edges, h.n as int),
        perm_of(mu, g.n as int),
    ensures
        scores_as(h, mu, r) == scores_as(g, crate::perm::compose_spec(t, mu), r),
{
    let n = g.n as int;
    let lam = crate::perm::compose_spec(t, mu);
    lemma_perm_onto(t, n);
    lemma_perm_onto(mu, n);
    assert(perm_of(lam, n)) by {
        assert forall|i: int, j: int| 0 <= i < n && 0 <= j < n && i != j implies lam[i] != lam[j] by {
            assert(t[i] != t[j]);
        }
    }
    assert forall|p: int, q: int| (adjacent_in(crate::canon::permuted_edges(h, mu), p, q) <==> adjacent_in(crate::canon::permuted_edges(g, lam), p, q)) by {
        if 0 <= p < n && 0 <= q < n {
            let x = inv_perm(mu)[p] as int;
            let y = inv_perm(mu)[q] as int;
            let x0 = inv_perm(t)[x] as int;
            let y0 = inv_perm(t)[y] as int;
            crate::canon::lemma_permuted_adjacent(h, mu, x, y);
            crate::canon::lemma_permuted_adjacent(g, lam, x0, y0);
            assert(lam[x0] == mu[t[x0] as int]);
            assert(t[x0] == x && t[y0] == y);
            assert(g.adjacent(x0, y0) == h.adjacent(x, y));
        } else {
            if adjacent_in(crate::canon::permuted_edges(h, mu), p, q) {
                lemma_permuted_within(h, mu, p, q);
            }
            if adjacent_in(crate::canon::permuted_edges(g, lam), p, q) {
                lemma_permuted_within(g, lam, p, q);
            }
        }
    }
}

/// Relabelled edges join only vertices below `n`.
proof fn lemma_permuted_within(g: GraphView, p: Seq<u8>, a: int, b: int)
    requires
        perm_of(p, g.n as int),
        crate::perm::edges_within(g.edges, g.n as int),
        adjacent_in(crate::canon::permuted_edges(g, p), a, b),
    ensures
        0 <= a < g.n && 0 <= b < g.n,
{
    let pe = crate::canon::permuted_edges(g, p);
    let k = choose|k: int| 0 <= k < pe.len() && #[trigger] crate::graph::edge_joins(pe[k], a, b);
    let e = g.edges[k];
    assert(pe[k] == crate::perm::permute_edge(e, p));
    assert(e.0 < g.n && e.1 < g.n);
}

/// The mask of the vertices below `n`.
pub open spec fn full_mask(n: int) -> u64 {
    ((1u64 << (n as u64)) - 1) as u64
}

/// The keys of the distance histograms of the vertices.
pub open spec fn distance_keys(g: GraphView) -> Seq<u128> {
    Seq::new(g.n, |v: int| histogram_key(histogram(g, v), g.n as int, histogram(g, v).len() as int) as u128)
}

/// The colouring before refinement: all vertices split by colour, then by
/// the key of their distance histogram.
pub open spec fn coloured_classes(g: Graph, colors: Seq<u128>) -> Seq<u64> {
    let first = recolor_spec(seq![full_mask(g.num_vertices as int)], colors, 1);
    recolor_spec(first, distance_keys(g@), first.len() as int)
}

/// The colouring at the root of the search.
pub open spec fn initial_classes(g: Graph, colors: Seq<u128>) -> Seq<u64> {
    refine_spec(g.adj@, coloured_classes(g, colors))
}

/// `lam` is a leaf of the search for `g` with the colours `colors`.
pub open spec fn search_leaf(g: Graph, colors: Seq<u128>, lam: Seq<u8>) -> bool {
    is_leaf(g.adj@, initial_classes(g, colors), g.num_vertices as int, lam)
}

/// `r` is the least of the rows that the leaves of the search give.
pub open spec fn is_min_score(g: Graph, colors: Seq<u128>, r: Seq<u64>) -> bool {
    &&& exists|lam: Seq<u8>| #[trigger] search_leaf(g, colors, lam) && score_of(g@, lam) == r
    &&& forall|lam: Seq<u8>| #[trigger] search_leaf(g, colors, lam) ==> !lex_less(score_of(g@, lam), r)
}

/// The canonical rows: the least rows that a leaf of the search gives.
pub open spec fn canon_score(g: Graph, colors: Seq<u128>) -> Seq<u64> {
    choose|r: Seq<u64>| is_min_score(g, colors, r)
}

/// What a completed search shows of `g`: the colouring before refinement is
/// a partition, the distance histograms exist, every leaf has its rows, and
/// the canonical rows are the least.
pub open spec fn search_done(g: Graph, colors: Seq<u128>) -> bool {
    &&& is_partition(coloured_classes(g, colors), g.num_vertices as int)
    &&& forall|v: int| 0 <= v < g.num_vertices ==> is_histogram(g@, v, #[trigger] histogram(g@, v))
    &&& forall|lam: Seq<u8>| #[trigger] search_leaf(g, colors, lam) ==> scores_as(g@, lam, score_of(g@, lam))
    &&& is_min_score(g, colors, canon_score(g, colors))
}

/// The first position where two different sequences of one length differ.
proof fn lemma_first_difference(a: Seq<u64>, b: Seq<u64>, k: int) -> (i: int)
    requires
        a.len() == b.len(),
        0 <= k <= a.len(),
        a.take(k) != b.take(k),
    ensures
        0 <= i < k,
        a.take(i) == b.take(i),
        a[i] != b[i],
    decreases k,
{
    if k == 0 {
        assert(a.take(0) =~= b.take(0));
        0
    } else if a.take(k - 1) == b.take(k - 1) {
        assert(a[k - 1] != b[k - 1]) by {
            if a[k - 1] == b[k - 1] {
                assert(a.take(k) =~= b.take(k)) by {
                    assert forall|x: int| 0 <= x < k implies a.take(k)[x] == b.take(k)[x] by {
                        if x < k - 1 {
                            assert(a.take(k - 1)[x] == b.take(k - 1)[x]);
                        }
                    }
                }
            }
        }
        k - 1
    } else {
        let i = lemma_first_difference(a, b, k - 1);
        assert(a.take(i) == b.take(i));
        i
    }
}

/// Two different sequences of one length are ordered one way or the other.
pub proof fn lemma_lex_total(a: Seq<u64>, b: Seq<u64>)
    requires
        a.len() == b.len(),
        a != b,
    ensures
        lex_less(a, b) || lex_less(b, a),
{
    assert(a.take(a.len() as int) =~= a);
    assert(b.take(b.len() as int) =~= b);
    let i = lemma_first_difference(a, b, a.len() as int);
    if a[i] < b[i] {
        assert(lex_less(a, b));
    } else {
        assert(b.take(i) == a.take(i));
        assert(lex_less(b, a));
    }
}

/// Two least rows are the same.
pub proof fn lemma_min_unique(g: Graph, colors: Seq<u128>, r1: Seq<u64>, r2: Seq<u64>)
    requires
        forall|lam: Seq<u8>| #[trigger] search_leaf(g, colors, lam) ==> scores_as(g@, lam, score_of(g@, lam)),
        is_min_score(g, colors, r1),
        is_min_score(g, colors, r2),
    ensures
        r1 == r2,
{
    let l1 = choose|lam: Seq<u8>| #[trigger] search_leaf(g, colors, lam) && score_of(g@, lam) == r1;
    let l2 = choose|lam: Seq<u8>| #[trigger] search_leaf(g, colors, lam) && score_of(g@, lam) == r2;
    assert(scores_as(g@, l1, r1));
    assert(scores_as(g@, l2, r2));
    if r1 != r2 {
        lemma_lex_total(r1, r2);
        assert(!lex_less(score_of(g@, l2), r1));
        assert(!lex_less(score_of(g@, l1), r2));
    }
}

/// The rows of a well-formed graph and of its relabelling by an isomorphism.
pub proof fn lemma_rows_of_iso(g: Graph, t: Seq<u8>, h: Graph)
    requires
        g.wf(),
        h.wf(),
        maps_onto(g@, t, h@),
    ensures
        rows_relabelled(g.adj@, t, h.adj@, g.num_vertices as int),
        closed_adjacency(g@),
        closed_adjacency(h@),
{
    let n = g.num_vertices as int;
    lemma_closed(g);
    lemma_closed(h);
    assert forall|u: int| 0 <= u < n implies #[trigger] mask_within(g.adj@[u], n) by {
        assert forall|w: int| #[trigger] bit(g.adj@[u], w) implies 0 <= w < n by {
            assert(g@.adjacent(u, w));
        }
    }
    assert forall|u: int| 0 <= u < n implies #[trigger] mask_within(h.adj@[u], n) by {
        assert forall|w: int| #[trigger] bit(h.adj@[u], w) implies 0 <= w < n by {
            assert(h@.adjacent(u, w));
        }
    }
    assert forall|u: int, w: int| 0 <= u < n && 0 <= w < n implies (#[trigger] bit(g.adj@[u], w) <==> bit(h.adj@[t[u] as int], t[w] as int)) by {
        assert(g@.adjacent(u, w) <==> h@.adjacent(t[u] as int, t[w] as int));
    }
}

/// Adjacency in a well-formed graph stays among its vertices.
pub proof fn lemma_closed(g: Graph)
    requires
        g.wf(),
    ensures
        closed_adjacency(g@),
{
    assert forall|x: int, y: int| #[trigger] g@.adjacent(x, y) implies 0 <= x < g@.n && 0 <= y < g@.n by {
        let k = choose|k: int| 0 <= k < g@.edges.len() && #[trigger] crate::graph::edge_joins(g@.edges[k], x, y);
        assert(g.edges@[k].0 < g.num_vertices && g.edges@[k].1 < g.num_vertices);
    }
}

/// The classes split by hash hold only vertices of the classes they split.
proof fn lemma_recolor_within(orig: Seq<u64>, hashes: Seq<u128>, n: int, j: int)
    requires
        forall|i: int| 0 <= i < orig.len() ==> #[trigger] mask_within(orig[i], n),
        0 <= j <= orig.len(),
    ensures
        forall|i: int| 0 <= i < recolor_spec(orig, hashes, j).len() ==> #[trigger] mask_within(recolor_spec(orig, hashes, j)[i], n),
    decreases j,
{
    if j > 0 {
        lemma_recolor_within(orig, hashes, n, j - 1);
        let c = orig[j - 1];
        assert(mask_within(c, n));
        if c == 0 {
            assert(recolor_spec(orig, hashes, j) == recolor_spec(orig, hashes, j - 1));
        } else {
            lemma_hash_members(c, hashes);
            let gs = hash_groups(c, hashes);
            lemma_group_facts(gs, class_vs(c), hash_keys(c, hashes));
            let prev = recolor_spec(orig, hashes, j - 1);
            let cur = recolor_spec(orig, hashes, j);
            assert forall|i: int| 0 <= i < cur.len() implies #[trigger] mask_within(cur[i], n) by {
                if i >= prev.len() {
                    let k = i - prev.len();
                    assert(cur[i] == gs[k].1);
                    assert forall|v: int| #[trigger] bit(cur[i], v) implies 0 <= v < n by {
                        assert(member_with_key(class_vs(c), hash_keys(c, hashes), v, gs[k].0));
                        assert(bit(c, v));
                    }
                } else {
                    assert(cur[i] == prev[i]);
                }
            }
        }
    }
}

/// The colouring at the root of the search of the relabelled graph, with
/// colours that agree under the relabelling, is the colouring relabelled.
pub proof fn lemma_initial_relabel(g: Graph, cg: Seq<u128>, t: Seq<u8>, h: Graph, ch: Seq<u128>)
    requires
        g.wf(),
        h.wf(),
        g.num_vertices < 64,
        maps_onto(g@, t, h@),
        forall|v: int| 0 <= v < g.num_vertices ==> #[trigger] ch[t[v] as int] == cg[v],
        search_done(g, cg),
    ensures
        coloured_classes(h, ch) == relabel_classes(coloured_classes(g, cg), t),
        initial_classes(h, ch) == relabel_classes(initial_classes(g, cg), t),
        is_partition(initial_classes(g, cg), g.num_vertices as int),
{
    let n = g.num_vertices as int;
    lemma_rows_of_iso(g, t, h);
    lemma_perm_onto(t, n);
    crate::canon::lemma_full_mask(n as u64);
    let full = full_mask(n);
    assert(mask_within(full, n));
    lemma_relabel_mask(full, t, n);
    assert forall|w: int| 0 <= w < 64 implies (bit(mask_image(full, t), w) <==> bit(full, w)) by {
        if bit(full, w) {
            let v = inv_perm(t)[w] as int;
            assert(t[v] == w);
            assert(bit(mask_image(full, t), t[v] as int));
        }
    }
    lemma_bits_ext(mask_image(full, t), full);
    let start = seq![full];
    assert(relabel_classes(start, t) =~= start);
    lemma_recolor_relabel(start, t, n, cg, ch, 1);
    let fg = recolor_spec(start, cg, 1);
    let fh = recolor_spec(start, ch, 1);
    assert(fh == relabel_classes(fg, t));
    lemma_recolor_within(start, cg, n, 1);
    assert forall|v: int| 0 <= v < n implies #[trigger] distance_keys(h@)[t[v] as int] == distance_keys(g@)[v] by {
        lemma_histogram_relabel(g@, t, h@, v);
    }
    lemma_recolor_relabel(fg, t, n, distance_keys(g@), distance_keys(h@), fg.len() as int);
    assert(fh.len() == fg.len());
    assert(coloured_classes(h, ch) == relabel_classes(coloured_classes(g, cg), t));
    lemma_refine_relabel(g.adj@, t, h.adj@, n, coloured_classes(g, cg));
    lemma_refine_props(g.adj@, coloured_classes(g, cg), n);
}

/// Isomorphic graphs, with colours that agree under the isomorphism, have
/// the same canonical rows.
pub proof fn lemma_canonical_form(g: Graph, cg: Seq<u128>, t: Seq<u8>, h: Graph, ch: Seq<u128>)
    requires
        g.wf(),
        h.wf(),
        g.num_vertices < 64,
        maps_onto(g@, t, h@),
        forall|v: int| 0 <= v < g.num_vertices ==> #[trigger] ch[t[v] as int] == cg[v],
        search_done(g, cg),
        search_done(h, ch),
    ensures
        canon_score(h, ch) == canon_score(g, cg),
        forall|mu: Seq<u8>| mu.len() == g.num_vertices ==> (#[trigger] search_leaf(h, ch, mu) <==> search_leaf(g, cg, crate::perm::compose_spec(t, mu))),
{
    let n = g.num_vertices as int;
    lemma_initial_relabel(g, cg, t, h, ch);
    lemma_rows_of_iso(g, t, h);
    lemma_perm_onto(t, n);
    let pg = initial_classes(g, cg);
    lemma_relabel_partition(pg, t, n);
    assert forall|mu: Seq<u8>| mu.len() == n implies (#[trigger] search_leaf(h, ch, mu) <==> search_leaf(g, cg, crate::perm::compose_spec(t, mu))) by {
        lemma_leaf_relabel(g.adj@, t, h.adj@, n, pg, mu);
    }
    let r = canon_score(g, cg);
    // r is least for h too
    let l = choose|lam: Seq<u8>| #[trigger] search_leaf(g, cg, lam) && score_of(g@, lam) == r;
    let tinv = inv_perm(t);
    let mu = crate::perm::compose_spec(tinv, l);
    lemma_leaf_perm(g.adj@, pg, n, l);
    assert(crate::perm::compose_spec(t, mu) =~= l) by {
        assert forall|v: int| 0 <= v < n implies crate::perm::compose_spec(t, mu)[v] == l[v] by {
            assert(tinv[t[v] as int] == v);
        }
    }
    assert(search_leaf(h, ch, mu));
    assert(perm_of(mu, n)) by {
        assert forall|i: int, j: int| 0 <= i < n && 0 <= j < n && i != j implies mu[i] != mu[j] by {
            assert(tinv[i] != tinv[j]) by {
                if tinv[i] == tinv[j] {
                    assert(t[tinv[i] as int] == i);
                    assert(t[tinv[j] as int] == j);
                }
            }
        }
    }
    lemma_edges_ok(g);
    lemma_edges_ok(h);
    lemma_score_relabel(g@, t, h@, mu, score_of(h@, mu));
    lemma_score_relabel(g@, t, h@, mu, score_of(g@, l));
    lemma_scores_unique(g@, l, score_of(g@, l), score_of(h@, mu));
    assert(score_of(h@, mu) == r);
    assert forall|m: Seq<u8>| #[trigger] search_leaf(h, ch, m) implies !lex_less(score_of(h@, m), r) by {
        lemma_leaf_perm(h.adj@, initial_classes(h, ch), n, m);
        let lm = crate::perm::compose_spec(t, m);
        assert(search_leaf(g, cg, lm));
        lemma_score_relabel(g@, t, h@, m, score_of(h@, m));
        lemma_score_relabel(g@, t, h@, m, score_of(g@, lm));
        lemma_scores_unique(g@, lm, score_of(g@, lm), score_of(h@, m));
    }
    assert(is_min_score(h, ch, r));
    lemma_min_unique(h, ch, r, canon_score(h, ch));
}

/// The edges of a well-formed graph lie among its vertices.
proof fn lemma_edges_ok(g: Graph)
    requires
        g.wf(),
    ensures
        crate::perm::edges_within(g@.edges, g@.n as int),
        g@.n <= 64,
{
}

/// The labellings `ps` are, once each, exactly the leaves of the search that
/// give the canonical rows.
pub open spec fn best_labellings(g: Graph, colors: Seq<u128>, ps: Seq<Seq<u8>>) -> bool {
    &&& forall|k: int| 0 <= k < ps.len() ==> search_leaf(g, colors, #[trigger] ps[k]) && score_of(g@, ps[k]) == canon_score(g, colors)
    &&& forall|lam: Seq<u8>| #[trigger] search_leaf(g, colors, lam) && score_of(g@, lam) == canon_score(g, colors)
        ==> exists|k: int| 0 <= k < ps.len() && #[trigger] ps[k] == lam
    &&& forall|a: int, b: int| 0 <= a < b < ps.len() ==> #[trigger] ps[a] != #[trigger] ps[b]
}

/// `sigma` is an automorphism of `g` that keeps the colours.
pub open spec fn colour_automorphism(g: Graph, colors: Seq<u128>, sigma: Seq<u8>) -> bool {
    &&& maps_onto(g@, sigma, g@)
    &&& forall|v: int| 0 <= v < g.num_vertices ==> #[trigger] colors[sigma[v] as int] == colors[v]
}

/// The best labellings are closed under automorphisms that keep the colours:
/// with `p`, the labelling `p` after the inverse of `sigma` is among them.
pub proof fn lemma_best_closed(g: Graph, colors: Seq<u128>, ps: Seq<Seq<u8>>, sigma: Seq<u8>, k0: int)
    requires
        g.wf(),
        g.num_vertices < 64,
        search_done(g, colors),
        best_labellings(g, colors, ps),
        colour_automorphism(g, colors, sigma),
        0 <= k0 < ps.len(),
    ensures
        exists|k: int| 0 <= k < ps.len() && #[trigger] ps[k] == crate::perm::compose_spec(inv_perm(sigma), ps[k0]),
        perm_of(ps[k0], g.num_vertices as int),
{
    let n = g.num_vertices as int;
    let base = ps[k0];
    lemma_canonical_form(g, colors, sigma, g, colors);
    lemma_initial_relabel(g, colors, sigma, g, colors);
    assert(search_leaf(g, colors, base));
    lemma_leaf_perm(g.adj@, initial_classes(g, colors), n, base);
    lemma_perm_onto(sigma, n);
    let mu = crate::perm::compose_spec(inv_perm(sigma), base);
    assert(crate::perm::compose_spec(sigma, mu) =~= base) by {
        assert forall|v: int| 0 <= v < n implies crate::perm::compose_spec(sigma, mu)[v] == base[v] by {
            assert(inv_perm(sigma)[sigma[v] as int] == v);
        }
    }
    assert(search_leaf(g, colors, mu));
    lemma_leaf_perm(g.adj@, initial_classes(g, colors), n, mu);
    lemma_edges_ok(g);
    let c = canon_score(g, colors);
    assert(scores_as(g@, base, score_of(g@, base)));
    lemma_score_relabel(g@, sigma, g@, mu, c);
    assert(scores_as(g@, mu, c));
    assert(scores_as(g@, mu, score_of(g@, mu)));
    lemma_scores_unique(g@, mu, score_of(g@, mu), c);
}

/// The labellings of one graph that give the same relabelled rows differ
/// by automorphisms: for two of them `p` and `q`, the map `p` then the
/// inverse of `q` is an automorphism, and distinct `q` give distinct maps.
pub proof fn lemma_compose_inverse(base: Seq<u8>, p: Seq<u8>, q: Seq<u8>, n: int)
    requires
        perm_of(base, n),
        perm_of(p, n),
        perm_of(q, n),
        crate::perm::compose_spec(base, inv_perm(p)) == crate::perm::compose_spec(base, inv_perm(q)),
    ensures
        p == q,
{
    lemma_perm_onto(base, n);
    lemma_perm_onto(p, n);
    lemma_perm_onto(q, n);
    assert forall|j: int| 0 <= j < n implies inv_perm(p)[j] == inv_perm(q)[j] by {
        let v = inv_perm(base)[j] as int;
        assert(base[v] == j);
        assert(0 <= v < n);
        assert(crate::perm::compose_spec(base, inv_perm(p))[v] == inv_perm(p)[base[v] as int]);
        assert(crate::perm::compose_spec(base, inv_perm(q))[v] == inv_perm(q)[base[v] as int]);
        assert(crate::perm::compose_spec(base, inv_perm(p))[v] == crate::perm::compose_spec(base, inv_perm(q))[v]);
    }
    assert forall|x: int| 0 <= x < n implies p[x] == q[x] by {
        let j = p[x] as int;
        assert(inv_perm(p)[j] == x);
        assert(inv_perm(q)[j] == x);
        assert(q[inv_perm(q)[j] as int] == j);
    }
    assert(p =~= q);
}

/// Every automorphism that keeps the colours is the first best labelling
/// followed by the inverse of some best labelling.
pub proof fn lemma_automorphisms_complete(g: Graph, colors: Seq<u128>, ps: Seq<Seq<u8>>, sigma: Seq<u8>)
    requires
        g.wf(),
        g.num_vertices < 64,
        search_done(g, colors),
        best_labellings(g, colors, ps),
        ps.len() >= 1,
        colour_automorphism(g, colors, sigma),
    ensures
        exists|k: int| 0 <= k < ps.len() && crate::perm::compose_spec(ps[0], inv_perm(#[trigger] ps[k])) == sigma,
{
    let n = g.num_vertices as int;
    lemma_best_closed(g, colors, ps, sigma, 0);
    let base = ps[0];
    let mu = crate::perm::compose_spec(inv_perm(sigma), base);
    let k = choose|k: int| 0 <= k < ps.len() && #[trigger] ps[k] == mu;
    lemma_best_closed(g, colors, ps, sigma, k);
    lemma_perm_onto(sigma, n);
    lemma_perm_onto(mu, n);
    assert(crate::perm::compose_spec(base, inv_perm(mu)) =~= sigma) by {
        assert forall|v: int| 0 <= v < n implies crate::perm::compose_spec(base, inv_perm(mu))[v] == sigma[v] by {
            let w = sigma[v] as int;
            assert(inv_perm(sigma)[w] == v);
            assert(mu[w] == base[v]);
            assert(inv_perm(mu)[mu[w] as int] == w);
        }
    }
}

/// An automorphism `tau` of the canonical form, read back on `g` through the
/// labelling `base`: `base`, then the inverse of `tau`, then the inverse of
/// `base`.
pub open spec fn read_back(base: Seq<u8>, tau: Seq<u8>) -> Seq<u8> {
    crate::perm::compose_spec(crate::perm::compose_spec(base, inv_perm(tau)), inv_perm(base))
}

/// Some entry of `s` is `p`.
pub open spec fn has_perm(s: Seq<Vec<u8>>, p: Seq<u8>) -> bool {
    exists|k: int| 0 <= k < s.len() && #[trigger] s[k]@ == p
}

/// The automorphism `tau` of the canonical form, read back through `base`,
/// keeps the colours of the vertices below `n`.
pub open spec fn keeps_colours(colors: Seq<u128>, base: Seq<u8>, tau: Seq<u8>, n: int) -> bool {
    forall|v: int| 0 <= v < n ==> #[trigger] colors[read_back(base, tau)[v] as int] == colors[v]
}

/// Every automorphism of the canonical form whose reading back keeps the
/// colours is the first best labelling followed by it, another best
/// labelling.
pub proof fn lemma_form_automorphism(g: Graph, colors: Seq<u128>, ps: Seq<Seq<u8>>, c: GraphView, tau: Seq<u8>)
    requires
        g.wf(),
        g.num_vertices < 64,
        search_done(g, colors),
        best_labellings(g, colors, ps),
        ps.len() >= 1,
        maps_onto(g@, ps[0], c),
        maps_onto(c, tau, c),
        keeps_colours(colors, ps[0], tau, g.num_vertices as int),
    ensures
        exists|k: int| 0 <= k < ps.len() && #[trigger] ps[k] == crate::perm::compose_spec(ps[0], tau),
{
    let n = g.num_vertices as int;
    let base = ps[0];
    let sigma = read_back(base, tau);
    lemma_perm_onto(base, n);
    lemma_perm_onto(tau, n);
    crate::canon::lemma_maps_onto_inverse(c, tau, c);
    crate::canon::lemma_maps_onto_inverse(g@, base, c);
    assert(inv_perm(tau) =~= Seq::new(tau.len(), |j: int| crate::perm::inverse_entry(tau, j)));
    assert(inv_perm(base) =~= Seq::new(base.len(), |j: int| crate::perm::inverse_entry(base, j)));
    crate::canon::lemma_maps_onto_compose(g@, base, c, inv_perm(tau), c);
    crate::canon::lemma_maps_onto_compose(g@, crate::perm::compose_spec(base, inv_perm(tau)), c, inv_perm(base), g@);
    assert(colour_automorphism(g, colors, sigma));
    lemma_best_closed(g, colors, ps, sigma, 0);
    lemma_perm_onto(sigma, n);
    let mu = crate::perm::compose_spec(inv_perm(sigma), base);
    assert(mu =~= crate::perm::compose_spec(base, tau)) by {
        assert forall|x: int| 0 <= x < n implies mu[x] == crate::perm::compose_spec(base, tau)[x] by {
            let v = inv_perm(sigma)[x] as int;
            assert(sigma[v] == x);
            assert(sigma[v] == inv_perm(base)[inv_perm(tau)[base[v] as int] as int]);
            let y = inv_perm(tau)[base[v] as int] as int;
            assert(base[inv_perm(base)[y] as int] == y);
            assert(base[x] == y);
            assert(tau[y] == base[v]);
        }
    }
}

/// Composing with the inverse of `base` in front: cancels, is the identity
/// only on `base`, and undoes a composition with `base`.
pub proof fn lemma_left_inverse(base: Seq<u8>, p: Seq<u8>, q: Seq<u8>, tau: Seq<u8>, n: int)
    requires
        perm_of(base, n),
        perm_of(p, n),
        perm_of(q, n),
        perm_of(tau, n),
    ensures
        crate::perm::compose_spec(inv_perm(base), p) == crate::perm::compose_spec(inv_perm(base), q) ==> p == q,
        crate::perm::compose_spec(inv_perm(base), p) == crate::perm::identity(n as nat) ==> p == base,
        crate::perm::compose_spec(inv_perm(base), crate::perm::compose_spec(base, tau)) == tau,
        crate::perm::compose_spec(base, tau) == base ==> tau == crate::perm::identity(n as nat),
{
    lemma_perm_onto(base, n);
    lemma_perm_onto(tau, n);
    let ib = inv_perm(base);
    if crate::perm::compose_spec(ib, p) == crate::perm::compose_spec(ib, q) {
        assert forall|x: int| 0 <= x < n implies p[x] == q[x] by {
            let y = base[x] as int;
            assert(ib[y] == x);
            assert(crate::perm::compose_spec(ib, p)[y] == crate::perm::compose_spec(ib, q)[y]);
        }
        assert(p =~= q);
    }
    if crate::perm::compose_spec(ib, p) == crate::perm::identity(n as nat) {
        assert forall|x: int| 0 <= x < n implies p[x] == base[x] by {
            let y = base[x] as int;
            assert(ib[y] == x);
            assert(crate::perm::compose_spec(ib, p)[y] == crate::perm::identity(n as nat)[y]);
        }
        assert(p =~= base);
    }
    assert(crate::perm::compose_spec(ib, crate::perm::compose_spec(base, tau)) =~= tau) by {
        assert forall|y: int| 0 <= y < n implies crate::perm::compose_spec(ib, crate::perm::compose_spec(base, tau))[y] == tau[y] by {
            assert(base[ib[y] as int] == y);
        }
    }
    if crate::perm::compose_spec(base, tau) == base {
        assert forall|y: int| 0 <= y < n implies tau[y] == crate::perm::identity(n as nat)[y] by {
            let x = ib[y] as int;
            assert(base[x] == y);
            assert(crate::perm::compose_spec(base, tau)[x] == base[x]);
        }
        assert(tau =~= crate::perm::identity(n as nat));
    }
}

/// All vertices with colour 0.
pub open spec fn no_colours(n: int) -> Seq<u128> {
    Seq::new(n as nat, |i: int| 0u128)
}

/// Every automorphism keeps the colours where all colours are 0.
pub proof fn lemma_no_colours_kept(g: Graph, sigma: Seq<u8>)
    requires
        maps_onto(g@, sigma, g@),
    ensures
        colour_automorphism(g, no_colours(g.num_vertices as int), sigma),
{
}

/// Reading an automorphism of the canonical form back keeps the colours
/// where all colours are 0.
pub proof fn lemma_no_colours_read_back(base: Seq<u8>, tau: Seq<u8>, n: int)
    requires
        perm_of(base, n),
        perm_of(tau, n),
    ensures
        keeps_colours(no_colours(n), base, tau, n),
{
    lemma_perm_onto(base, n);
    lemma_perm_onto(tau, n);
    assert forall|v: int| 0 <= v < n implies #[trigger] no_colours(n)[read_back(base, tau)[v] as int] == no_colours(n)[v] by {
        let y = inv_perm(tau)[base[v] as int] as int;
        assert(0 <= y < n);
        assert(read_back(base, tau)[v] == inv_perm(base)[y]);
    }
}

} // verus!
