//! Ordered partitions of the vertices into classes, given as masks, and their
//! refinement by keys.
use vstd::prelude::*;
use crate::bits::{bit, bit_positions, bits_seq, lemma_bits_all, lemma_bits_seq, mask_set};
use crate::sort::{sort_by_key, sorted_by_key, SortKey};

verus! {

broadcast use vstd::seq_lib::group_to_multiset_ensures;

/// Vertex `v` lies in class `i`.
pub open spec fn in_class(classes: Seq<u64>, i: int, v: int) -> bool {
    0 <= i < classes.len() && bit(classes[i], v)
}

/// Some class holds `v`.
pub open spec fn covered(classes: Seq<u64>, v: int) -> bool {
    exists|i: int| #[trigger] in_class(classes, i, v)
}

/// The classes are disjoint and together hold exactly the vertices `0..n`
/// (empty classes allowed).
pub open spec fn is_cover(classes: Seq<u64>, n: int) -> bool {
    &&& forall|i: int, j: int, v: int|
        #[trigger] in_class(classes, i, v) && #[trigger] in_class(classes, j, v) ==> i == j
    &&& forall|v: int| 0 <= v < n ==> #[trigger] covered(classes, v)
    &&& forall|i: int, v: int| #[trigger] in_class(classes, i, v) ==> 0 <= v < n
}

/// An ordered partition of `0..n` into nonempty classes.
pub open spec fn is_partition(classes: Seq<u64>, n: int) -> bool {
    &&& is_cover(classes, n)
    &&& forall|i: int| 0 <= i < classes.len() ==> #[trigger] classes[i] != 0
}

/// An injective map from `0..m` into `0..n` needs `m <= n`.
pub proof fn lemma_injection_bound(m: int, n: int, f: spec_fn(int) -> int)
    requires
        0 <= m,
        0 <= n,
        forall|i: int| 0 <= i < m ==> 0 <= #[trigger] f(i) < n,
        forall|i: int, j: int| 0 <= i < m && 0 <= j < m && #[trigger] f(i) == #[trigger] f(j) ==> i == j,
    ensures
        m <= n,
{
    let dom = vstd::set_lib::set_int_range(0, m);
    let rng = vstd::set_lib::set_int_range(0, n);
    vstd::set_lib::lemma_int_range(0, m);
    vstd::set_lib::lemma_int_range(0, n);
    let img = dom.map(f);
    assert forall|a: int, b: int| dom.contains(a) && dom.contains(b) && f(a) == f(b) implies a == b by {}
    vstd::set_lib::lemma_map_size(dom, img, f);
    assert(img.subset_of(rng)) by {
        assert forall|x: int| img.contains(x) implies rng.contains(x) by {
            let i = choose|i: int| dom.contains(i) && f(i) == x;
        }
    }
    vstd::set_lib::lemma_len_subset(img, rng);
}

/// A partition of `0..n` has at most `n` classes.
pub proof fn lemma_partition_len(classes: Seq<u64>, n: int)
    requires
        is_partition(classes, n),
        0 <= n,
    ensures
        classes.len() <= n,
{
    let f = |i: int| if 0 <= i < classes.len() { bits_seq(classes[i])[0] } else { 0 };
    assert forall|i: int| 0 <= i < classes.len() implies 0 <= #[trigger] f(i) < n && in_class(classes, i, f(i)) by {
        lemma_bits_seq(classes[i]);
        assert(bits_seq(classes[i]).contains(bits_seq(classes[i])[0]));
        assert(bit(classes[i], f(i)));
        assert(in_class(classes, i, f(i)));
    }
    assert forall|i: int, j: int|
        0 <= i < classes.len() && 0 <= j < classes.len() && #[trigger] f(i) == #[trigger] f(j) implies i == j by {
        assert(in_class(classes, i, f(i)));
        assert(in_class(classes, j, f(j)));
    }
    lemma_injection_bound(classes.len() as int, n, f);
}

/// Some position `t` holds `v` with key `key`.
pub open spec fn member_with_key(vs: Seq<usize>, keys: Seq<u128>, v: int, key: u128) -> bool {
    exists|t: int| 0 <= t < vs.len() && vs[t] == v && #[trigger] keys[t] == key
}

/// Some group has key `key`.
pub open spec fn has_group(groups: Seq<(u128, u64)>, key: u128) -> bool {
    exists|k: int| 0 <= k < groups.len() && #[trigger] groups[k].0 == key
}

/// Groups of positions with equal keys: nonempty masks, each holding exactly the
/// positions with its key, one group for each key that occurs.
pub open spec fn groups_of(groups: Seq<(u128, u64)>, vs: Seq<usize>, keys: Seq<u128>) -> bool {
    &&& forall|k: int| 0 <= k < groups.len() ==> #[trigger] groups[k].1 != 0
    &&& forall|k: int, v: int| 0 <= k < groups.len() && #[trigger] bit(groups[k].1, v) ==> member_with_key(vs, keys, v, groups[k].0)
    &&& forall|k: int, t: int| 0 <= k < groups.len() && 0 <= t < vs.len() && keys[t] == groups[k].0
        ==> #[trigger] bit(groups[k].1, #[trigger] vs[t] as int)
    &&& forall|t: int| 0 <= t < vs.len() ==> #[trigger] has_group(groups, keys[t])
    &&& forall|a: int, b: int| 0 <= a < groups.len() && 0 <= b < groups.len() && #[trigger] groups[a].0 == #[trigger] groups[b].0 ==> a == b
}

/// Group the positions `vs` (distinct, below 64) by their keys, into masks
/// sorted by key.
pub fn group_by_key(vs: &Vec<usize>, keys: &Vec<u128>) -> (groups: Vec<(u128, u64)>)
    requires
        vs@.len() == keys@.len(),
        forall|t: int| 0 <= t < vs@.len() ==> #[trigger] vs@[t] < 64,
        forall|a: int, b: int| 0 <= a < vs@.len() && 0 <= b < vs@.len() && #[trigger] vs@[a] == #[trigger] vs@[b] ==> a == b,
    ensures
        groups_of(groups@, vs@, keys@),
        sorted_by_key(groups@),
        vs@.len() > 0 ==> groups@.len() > 0,
        groups@.len() <= vs@.len(),
{
    let mut groups: Vec<(u128, u64)> = Vec::new();
    let mut t: usize = 0;
    proof {
        lemma_bits_all();
    }
    while t < vs.len()
        invariant
            vs@.len() == keys@.len(),
            forall|s: int| 0 <= s < vs@.len() ==> #[trigger] vs@[s] < 64,
            forall|a: int, b: int| 0 <= a < vs@.len() && 0 <= b < vs@.len() && #[trigger] vs@[a] == #[trigger] vs@[b] ==> a == b,
            t <= vs@.len(),
            groups@.len() <= t,
            t > 0 ==> groups@.len() > 0,
            groups_of(groups@, vs@.take(t as int), keys@.take(t as int)),
        decreases vs@.len() - t,
    {
        let v = vs[t];
        let h = keys[t];
        let ghost old_groups = groups@;
        let ghost pv = vs@.take(t as int);
        let ghost pk = keys@.take(t as int);
        let ghost nv = vs@.take(t as int + 1);
        let ghost nk = keys@.take(t as int + 1);
        assert(nv == pv.push(v) && nk == pk.push(h));
        let mut p: usize = 0;
        while p < groups.len() && groups[p].0 != h
            invariant
                p <= groups@.len(),
                forall|q: int| 0 <= q < p ==> #[trigger] groups@[q].0 != h,
            decreases groups@.len() - p,
        {
            p = p + 1;
        }
        proof {
            lemma_bits_all();
        }
        if p == groups.len() {
            groups.push((h, 1u64 << v));
            proof {
                lemma_bits_all();
                let g = groups@;
                assert(bit(1u64 << v, v as int));
                assert forall|k: int| 0 <= k < g.len() implies #[trigger] g[k].1 != 0 by {
                    if k == g.len() - 1 {
                        assert(bit(g[k].1, v as int));
                    } else {
                        assert(g[k] == old_groups[k]);
                    }
                }
                assert forall|k: int, w: int| 0 <= k < g.len() && #[trigger] bit(g[k].1, w) implies member_with_key(nv, nk, w, g[k].0) by {
                    if k < old_groups.len() {
                        assert(member_with_key(pv, pk, w, old_groups[k].0));
                        let s = choose|s: int| 0 <= s < pv.len() && pv[s] == w && #[trigger] pk[s] == old_groups[k].0;
                        assert(nv[s] == w && nk[s] == g[k].0);
                    } else {
                        assert(nv[t as int] == w && nk[t as int] == g[k].0);
                    }
                }
                assert forall|k: int, s: int| 0 <= k < g.len() && 0 <= s < nv.len() && nk[s] == g[k].0
                    implies #[trigger] bit(g[k].1, #[trigger] nv[s] as int) by {
                    if k < old_groups.len() {
                        if s < t {
                            assert(pk[s] == old_groups[k].0);
                            assert(bit(old_groups[k].1, pv[s] as int));
                        } else {
                            assert(old_groups[k].0 == h);
                        }
                    } else {
                        if s < t {
                            assert(has_group(old_groups, pk[s]));
                            let k2 = choose|k2: int| 0 <= k2 < old_groups.len() && #[trigger] old_groups[k2].0 == pk[s];
                        }
                    }
                }
                assert forall|s: int| 0 <= s < nv.len() implies #[trigger] has_group(g, nk[s]) by {
                    if s < t {
                        assert(has_group(old_groups, pk[s]));
                        let k = choose|k: int| 0 <= k < old_groups.len() && #[trigger] old_groups[k].0 == pk[s];
                        assert(g[k].0 == nk[s]);
                    } else {
                        assert(g[g.len() - 1].0 == nk[s]);
                    }
                }
            }
        } else {
            let (hk, mk) = groups[p];
            groups.set(p, (hk, mk | (1u64 << v)));
            proof {
                lemma_bits_all();
                let g = groups@;
                assert(bit(mk | (1u64 << v), v as int));
                assert forall|k: int| 0 <= k < g.len() implies #[trigger] g[k].1 != 0 by {
                    if k == p {
                        assert(bit(g[k].1, v as int));
                    } else {
                        assert(g[k] == old_groups[k]);
                    }
                }
                assert forall|k: int, w: int| 0 <= k < g.len() && #[trigger] bit(g[k].1, w) implies member_with_key(nv, nk, w, g[k].0) by {
                    if k != p || bit(old_groups[k].1, w) {
                        assert(bit(old_groups[k].1, w));
                        assert(member_with_key(pv, pk, w, old_groups[k].0));
                        let s = choose|s: int| 0 <= s < pv.len() && pv[s] == w && #[trigger] pk[s] == old_groups[k].0;
                        assert(nv[s] == w && nk[s] == g[k].0);
                    } else {
                        assert(nv[t as int] == w && nk[t as int] == g[k].0);
                    }
                }
                assert forall|k: int, s: int| 0 <= k < g.len() && 0 <= s < nv.len() && nk[s] == g[k].0
                    implies #[trigger] bit(g[k].1, #[trigger] nv[s] as int) by {
                    if s < t {
                        assert(pk[s] == old_groups[k].0);
                        assert(bit(old_groups[k].1, pv[s] as int));
                    } else {
                        assert(k == p);
                    }
                }
                assert forall|s: int| 0 <= s < nv.len() implies #[trigger] has_group(g, nk[s]) by {
                    if s < t {
                        assert(has_group(old_groups, pk[s]));
                        let k = choose|k: int| 0 <= k < old_groups.len() && #[trigger] old_groups[k].0 == pk[s];
                        assert(g[k].0 == nk[s]);
                    } else {
                        assert(g[p as int].0 == nk[s]);
                    }
                }
            }
        }
        proof {
            let g = groups@;
            assert(forall|k: int| 0 <= k < g.len() ==> #[trigger] g[k].1 != 0);
            assert(forall|k: int, v: int| 0 <= k < g.len() && #[trigger] bit(g[k].1, v) ==> member_with_key(nv, nk, v, g[k].0));
            assert(forall|k: int, s: int| 0 <= k < g.len() && 0 <= s < nv.len() && nk[s] == g[k].0
                ==> #[trigger] bit(g[k].1, #[trigger] nv[s] as int));
            assert(forall|s: int| 0 <= s < nv.len() ==> #[trigger] has_group(g, nk[s]));
            assert(forall|a: int, b: int| 0 <= a < g.len() && 0 <= b < g.len() && #[trigger] g[a].0 == #[trigger] g[b].0 ==> a == b);
        }
        t = t + 1;
    }
    assert(vs@.take(vs@.len() as int) =~= vs@);
    assert(keys@.take(keys@.len() as int) =~= keys@);
    let ghost unsorted = groups@;
    sort_by_key(&mut groups);
    proof {
        lemma_sorted_groups(unsorted, groups@, vs@, keys@);
    }
    groups
}

/// Sorting keeps the groups.
proof fn lemma_sorted_groups(u: Seq<(u128, u64)>, s: Seq<(u128, u64)>, vs: Seq<usize>, keys: Seq<u128>)
    requires
        groups_of(u, vs, keys),
        vs.len() == keys.len(),
        s.to_multiset() == u.to_multiset(),
        s.len() == u.len(),
    ensures
        groups_of(s, vs, keys),
{
    assert forall|a: int, b: int| 0 <= a < u.len() && 0 <= b < u.len() && a != b implies u[a] != u[b] by {
        if u[a] == u[b] {
            assert(u[a].0 == u[b].0);
        }
    }
    assert(u.no_duplicates());
    u.lemma_multiset_has_no_duplicates();
    assert forall|x: (u128, u64)| s.to_multiset().contains(x) implies s.to_multiset().count(x) == 1 by {}
    s.lemma_multiset_has_no_duplicates_conv();
    assert forall|k: int| 0 <= k < s.len() implies u.contains(#[trigger] s[k]) by {
        assert(s.to_multiset().contains(s[k]));
    }
    assert forall|k: int| 0 <= k < u.len() implies s.contains(#[trigger] u[k]) by {
        assert(u.to_multiset().contains(u[k]));
    }
    assert forall|k: int| 0 <= k < s.len() implies #[trigger] s[k].1 != 0 by {
        assert(u.contains(s[k]));
    }
    assert forall|k: int, v: int| 0 <= k < s.len() && #[trigger] bit(s[k].1, v) implies member_with_key(vs, keys, v, s[k].0) by {
        assert(u.contains(s[k]));
        let j = choose|j: int| 0 <= j < u.len() && u[j] == s[k];
        assert(bit(u[j].1, v));
    }
    assert forall|k: int, t: int| 0 <= k < s.len() && 0 <= t < vs.len() && keys[t] == s[k].0
        implies #[trigger] bit(s[k].1, #[trigger] vs[t] as int) by {
        assert(u.contains(s[k]));
        let j = choose|j: int| 0 <= j < u.len() && u[j] == s[k];
        assert(bit(u[j].1, vs[t] as int));
    }
    assert forall|t: int| 0 <= t < vs.len() implies #[trigger] has_group(s, keys[t]) by {
        assert(has_group(u, keys[t]));
        let j = choose|j: int| 0 <= j < u.len() && #[trigger] u[j].0 == keys[t];
        assert(s.contains(u[j]));
        let k = choose|k: int| 0 <= k < s.len() && s[k] == u[j];
        assert(s[k].0 == keys[t]);
    }
    assert forall|a: int, b: int| 0 <= a < s.len() && 0 <= b < s.len() && #[trigger] s[a].0 == #[trigger] s[b].0 implies a == b by {
        assert(u.contains(s[a]));
        assert(u.contains(s[b]));
        let i = choose|i: int| 0 <= i < u.len() && u[i] == s[a];
        let j = choose|j: int| 0 <= j < u.len() && u[j] == s[b];
        assert(u[i].0 == u[j].0);
        assert(i == j);
    }
}

} // verus!
