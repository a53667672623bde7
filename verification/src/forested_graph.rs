//! Forested graphs: a graph with its subforests up to automorphism, and the
//! unmarking and contracting differentials of the forested graph complex.
use vstd::prelude::*;
use crate::labelling::{canon_score, has_perm, lemma_canonical_form, no_colours, search_done};
use rustc_hash::FxHashSet;
use crate::bits::{bit, bit_positions, bits_seq, lemma_bits_all, lemma_bits_ext, lemma_bits_seq, popcount};
use crate::contract::is_nbhd_contraction;
use crate::g6::g6_bytes;
pub use crate::table::GraphTable;
use crate::canon::{maps_onto, permuted_edges};
use crate::forests::{forests_from, merge_labels, subforest_list};
use crate::fx::{mask_set_insert, mask_set_into_vec, new_mask_set};
use crate::graph::{Graph, normalized};
use crate::multi::{simplified_entry, rank_below};
use crate::perm::{compose, compose_spec, identity, image_upto, permuted_mask, inversions, is_perm, lemma_image_bits, mask_image, parity_sign, permute_mask, sign_subset};
use crate::relabel::{ends_stay, has_staying_vertex, lemma_ends_stay_fits, lemma_rank_positive, lemma_shape_kept, lemma_pair_rows_keys};
use crate::sort::{sort_by_key, sorted_by_key, SortKey};

verus! {

broadcast use vstd::seq_lib::group_to_multiset_ensures;

/// The sign of a permutation on the positions of a mask.
pub open spec fn mask_sign(mask: u64, perm: Seq<u8>) -> i8 {
    parity_sign(inversions(perm, bits_seq(mask).map_values(|j: int| j as usize)))
}

/// The canonical form after the first `k` permutations: `None` once one of
/// them fixes the mask with an odd sign; otherwise the least image seen so
/// far, with the sign of the first permutation that gave it (the mask itself,
/// with sign 1, to start with).
pub open spec fn canon_upto(mask: u64, perms: Seq<Seq<u8>>, k: int) -> Option<(u64, i8)>
    decreases k,
{
    if k <= 0 {
        Some((mask, 1i8))
    } else {
        match canon_upto(mask, perms, k - 1) {
            None => None,
            Some((cm, sign)) => {
                let p = perms[k - 1];
                let m = mask_image(mask, p);
                if m == mask && mask_sign(mask, p) == -1 {
                    None
                } else if m < cm {
                    Some((m, mask_sign(mask, p)))
                } else {
                    Some((cm, sign))
                }
            },
        }
    }
}

/// Once a permutation rules the mask out, it stays out.
proof fn lemma_canon_none(mask: u64, perms: Seq<Seq<u8>>, j: int, k: int)
    requires
        0 <= j <= k,
        canon_upto(mask, perms, j) is None,
    ensures
        canon_upto(mask, perms, k) is None,
    decreases k - j,
{
    if j < k {
        lemma_canon_none(mask, perms, j, k - 1);
    }
}

/// The representative of the canonical form, if any.
pub open spec fn canon_value(mask: u64, perms: Seq<Seq<u8>>) -> Option<u64> {
    match canon_upto(mask, perms, perms.len() as int) {
        Some((x, s)) => Some(x),
        None => None,
    }
}

/// The sign that comes with the canonical form is the orientation change:
/// where no permutation lowered the mask, the mask itself with sign 1;
/// otherwise the image of the mask under one of the permutations, with the
/// sign of that permutation on the positions of the mask.
pub proof fn lemma_canon_orientation(mask: u64, perms: Seq<Seq<u8>>, k: int)
    requires
        0 <= k <= perms.len(),
        canon_upto(mask, perms, k) is Some,
    ensures
        ({
            let (x, s) = canon_upto(mask, perms, k).unwrap();
            ||| x == mask && s == 1
            ||| exists|q: int| 0 <= q < k && x == #[trigger] mask_image(mask, perms[q]) && s == mask_sign(mask, perms[q])
        }),
    decreases k,
{
    if k > 0 {
        lemma_canon_orientation(mask, perms, k - 1);
        let (x, s) = canon_upto(mask, perms, k).unwrap();
        let (x0, s0) = canon_upto(mask, perms, k - 1).unwrap();
        if !(x == x0 && s == s0) {
            assert(x == mask_image(mask, perms[k - 1]) && s == mask_sign(mask, perms[k - 1]));
        } else if !(x0 == mask && s0 == 1) {
            let q = choose|q: int| 0 <= q < k - 1 && x0 == #[trigger] mask_image(mask, perms[q]) && s0 == mask_sign(mask, perms[q]);
            assert(x == mask_image(mask, perms[q]) && s == mask_sign(mask, perms[q]));
        }
    }
}

/// Every permutation is defined on the positions of the mask and sends them
/// below 64.
pub open spec fn perms_fit(mask: u64, perms: Seq<Seq<u8>>) -> bool {
    forall|k: int, j: int| 0 <= k < perms.len() && #[trigger] bit(mask, j) ==> j < perms[k].len() && #[trigger] perms[k][j] < 64
}

/// The views of a list of permutations.
pub open spec fn perm_views(perms: Seq<Vec<u8>>) -> Seq<Seq<u8>> {
    perms.map_values(|p: Vec<u8>| p@)
}

/// Compute the canonical form of a subforest, given a list of graph
/// automorphisms. If it has an odd automorphism, return `None`. Otherwise,
/// return a tuple `(forest, sign)` where `forest` is its representing class and
/// `sign` its sign.
pub fn canonical_subforest(mask: u64, perms: &[Vec<u8>]) -> (r: Option<(u64, i8)>)
    requires
        perms_fit(mask, perm_views(perms@)),
    ensures
        r == canon_upto(mask, perm_views(perms@), perms@.len() as int),
        r matches Some((x, sg)) ==> (x == mask && sg == 1) || exists|q: int| 0 <= q < perms@.len()
            && x == #[trigger] mask_image(mask, perms@[q]@) && sg == mask_sign(mask, perms@[q]@),
{
    let pos = bit_positions(mask);
    proof {
        lemma_bits_seq(mask);
        assert(pos@ =~= bits_seq(mask).map_values(|j: int| j as usize)) by {
            assert forall|t: int| 0 <= t < pos@.len() implies #[trigger] pos@[t] == bits_seq(mask).map_values(|j: int| j as usize)[t] by {
                assert(pos@[t] as int == bits_seq(mask)[t]);
            }
        }
    }
    let ghost ps = perm_views(perms@);
    let mut cm = mask;
    let mut sign: i8 = 1;
    let mut k: usize = 0;
    while k < perms.len()
        invariant
            k <= perms@.len(),
            ps == perm_views(perms@),
            perms_fit(mask, ps),
            pos@ == bits_seq(mask).map_values(|j: int| j as usize),
            forall|t: int| 0 <= t < pos@.len() ==> bit(mask, #[trigger] bits_seq(mask)[t]),
            pos@.len() == bits_seq(mask).len(),
            canon_upto(mask, ps, k as int) == Some((cm, sign)),
        decreases perms@.len() - k,
    {
        let perm = &perms[k];
        proof {
            assert(ps[k as int] == perm@);
            assert forall|j: int| #[trigger] bit(mask, j) implies j < perm@.len() && perm@[j] < 64 by {
                assert(j < ps[k as int].len() && ps[k as int][j] < 64);
            }
            assert forall|t: int| 0 <= t < pos@.len() implies #[trigger] pos@[t] < perm@.len() by {
                assert(bit(mask, bits_seq(mask)[t]));
                assert(ps[k as int][bits_seq(mask)[t]] < 64);
            }
        }
        let m = permute_mask(mask, perm.as_slice());
        if m == mask && sign_subset(perm.as_slice(), pos.as_slice()) == -1 {
            proof {
                assert(canon_upto(mask, ps, k as int + 1) is None);
                lemma_canon_none(mask, ps, k as int + 1, perms@.len() as int);
            }
            return None;
        } else if m < cm {
            cm = m;
            sign = sign_subset(perm.as_slice(), pos.as_slice());
        }
        k = k + 1;
    }
    proof {
        lemma_canon_orientation(mask, ps, perms@.len() as int);
        if !(cm == mask && sign == 1) {
            let q = choose|q: int| 0 <= q < perms@.len() && cm == #[trigger] mask_image(mask, ps[q]) && sign == mask_sign(mask, ps[q]);
            assert(ps[q] == perms@[q]@);
        }
    }
    Some((cm, sign))
}

/// Keys that can be told apart.
pub trait SameKey: Sized {
    /// Whether the two keys are equal.
    fn same(&self, other: &Self) -> (r: bool)
        ensures
            r == (*self == *other),
    ;
}

impl SameKey for u64 {
    fn same(&self, other: &Self) -> (r: bool) {
        *self == *other
    }
}

impl SameKey for (usize, u64) {
    fn same(&self, other: &Self) -> (r: bool) {
        self.0 == other.0 && self.1 == other.1
    }
}

/// The first index at or after `i` whose key is `k`, or -1.
pub open spec fn first_key<T>(l: Seq<(T, i8)>, k: T, i: int) -> int
    decreases l.len() - i,
{
    if i < 0 || i >= l.len() {
        -1
    } else if l[i].0 == k {
        i
    } else {
        first_key(l, k, i + 1)
    }
}

/// The list after adding `v` to the value under `k`: a new entry where the key
/// is absent, and an entry that reaches zero is replaced by the last one.
pub open spec fn added_to<T>(l: Seq<(T, i8)>, k: T, v: i8) -> Seq<(T, i8)> {
    let i = first_key(l, k, 0);
    if i < 0 {
        l.push((k, v))
    } else if l[i].1 + v == 0 {
        l.update(i, l.last()).drop_last()
    } else {
        l.update(i, (l[i].0, (l[i].1 + v) as i8))
    }
}

proof fn lemma_first_key<T>(l: Seq<(T, i8)>, k: T, j: int, i: int)
    requires
        0 <= j <= i <= l.len(),
        forall|x: int| j <= x < i ==> l[x].0 != k,
        i == l.len() || l[i].0 == k,
    ensures
        first_key(l, k, j) == (if i < l.len() { i } else { -1 }),
    decreases i - j,
{
    if j < i {
        lemma_first_key(l, k, j + 1, i);
    }
}

/// Add the value to the `(key, value)` list, or push a new one if not already
/// present; an entry whose value becomes zero is removed.
fn add_or_push<T: SameKey + Copy>(l: &mut Vec<(T, i8)>, k: T, v: i8)
    requires
        first_key(old(l)@, k, 0) >= 0 ==> -128 <= old(l)@[first_key(old(l)@, k, 0)].1 + v <= 127,
    ensures
        final(l)@ == added_to(old(l)@, k, v),
{
    let ghost l0 = l@;
    let mut i: usize = 0;
    let mut found = false;
    while i < l.len()
        invariant_except_break
            !found,
            l@ == l0,
        invariant
            i <= l0.len(),
            forall|x: int| 0 <= x < i ==> l0[x].0 != k,
            first_key(l0, k, 0) >= 0 ==> -128 <= l0[first_key(l0, k, 0)].1 + v <= 127,
        ensures
            found ==> l@ == added_to(l0, k, v),
            !found ==> l@ == l0 && i == l0.len(),
        decreases l0.len() - i,
    {
        if l[i].0.same(&k) {
            proof {
                lemma_first_key(l0, k, 0, i as int);
            }
            let (key, val) = l[i];
            let s = val + v;
            l.set(i, (key, s));
            if s == 0 {
                let ghost l1 = l@;
                l.swap_remove(i);
                proof {
                    assert(l@ =~= l0.update(i as int, l0.last()).drop_last()) by {
                        if i + 1 == l0.len() {
                            assert(l1.update(i as int, l1.last()).drop_last() =~= l0.drop_last());
                        }
                    }
                }
            }
            found = true;
            break;
        }
        i = i + 1;
    }
    if !found {
        proof {
            lemma_first_key(l0, k, 0, l0.len() as int);
        }
        l.push((k, v));
    }
}


/// The masks of a canonical form stay below `n` when the mask and the
/// permutations do.
proof fn lemma_canon_bits(mask: u64, perms: Seq<Seq<u8>>, k: int, n: int)
    requires
        0 <= k <= perms.len(),
        n <= 64,
        forall|j: int| #[trigger] bit(mask, j) ==> j < n,
        forall|q: int| 0 <= q < perms.len() ==> #[trigger] perms[q].len() >= n,
        forall|q: int, j: int| 0 <= q < perms.len() && 0 <= j < n ==> #[trigger] perms[q][j] < n,
    ensures
        canon_upto(mask, perms, k) matches Some((x, s)) ==> forall|i: int| #[trigger] bit(x, i) ==> i < n,
    decreases k,
{
    if k > 0 {
        lemma_canon_bits(mask, perms, k - 1, n);
        let p = perms[k - 1];
        lemma_bits_seq(mask);
        assert(p.len() >= n);
        assert forall|j: int| #[trigger] bit(mask, j) implies j < p.len() && p[j] < 64 by {
            assert(perms[k - 1][j] < n);
        }
        lemma_image_bits(mask, p, bits_seq(mask).len() as int);
        assert forall|i: int| #[trigger] bit(mask_image(mask, p), i) implies i < n by {
            let t = choose|t: int| 0 <= t < bits_seq(mask).len() && p[bits_seq(mask)[t]] == i;
            assert(bit(mask, bits_seq(mask)[t]));
        }
    }
}

/// The mask with the rows of the entries `idxs[0..k]` of `dict`.
pub open spec fn rows_of(dict: Seq<((u8, u8), u8)>, idxs: Seq<int>, k: int) -> u64
    decreases k,
{
    if k <= 0 {
        0u64
    } else {
        rows_of(dict, idxs, k - 1) | (1u64 << dict[idxs[k - 1]].1)
    }
}

/// `mask` has the rows of the edges of `f`, each edge taken at one of its
/// entries in `dict`.
pub open spec fn mask_of_forest(mask: u64, f: Seq<(u8, u8)>, dict: Seq<((u8, u8), u8)>) -> bool {
    exists|idxs: Seq<int>| {
        &&& idxs.len() == f.len()
        &&& forall|j: int| 0 <= j < f.len() ==> 0 <= #[trigger] idxs[j] < dict.len() && dict[idxs[j]].0 == f[j]
        &&& mask == rows_of(dict, idxs, f.len() as int)
    }
}

/// The indices `0..k`.
pub open spec fn all_indices(k: int) -> Seq<int> {
    Seq::new(k as nat, |j: int| j)
}

/// A graph with its subforests up to automorphism. It is a multigraph without
/// tadpoles, with edges of valency at least 3; vertices of valency 2 represent
/// the edges.
pub struct ForestedGraph {
    /// The underlying graph.
    graph: Graph,
    /// All automorphisms of the graph.
    perms: Vec<Vec<u8>>,
    /// Bitmask of the valency 2 vertices representing the edges.
    edges: u64,
    /// Masks of all the subforests of the graph, up to isomorphism, that don't
    /// have an odd automorphism; every isomorphism class has its least
    /// representative.
    subforests: Vec<u64>,
}

impl ForestedGraph {
    /// The underlying graph.
    pub closed spec fn spec_graph(&self) -> Graph {
        self.graph
    }

    /// The automorphisms kept with the graph.
    pub closed spec fn spec_perms(&self) -> Seq<Seq<u8>> {
        perm_views(self.perms@)
    }

    /// The mask of the vertices that stand for edges.
    pub closed spec fn spec_edges(&self) -> u64 {
        self.edges
    }

    /// The masks of the subforests.
    pub closed spec fn spec_subforests(&self) -> Seq<u64> {
        self.subforests@
    }

    /// The graph is well formed with fewer than 64 vertices, the permutations
    /// are automorphisms of it, and the masks lie on its vertices.
    pub closed spec fn wf(&self) -> bool {
        let n = self.graph.num_vertices as int;
        &&& self.graph.wf()
        &&& n < 64
        &&& forall|q: int| 0 <= q < self.perms@.len() ==> #[trigger] maps_onto(self.graph@, self.perms@[q]@, self.graph@)
        &&& forall|k: int, j: int| 0 <= k < self.subforests@.len() && #[trigger] bit(self.subforests@[k], j) ==> j < n
        &&& forall|j: int| #[trigger] bit(self.edges, j) ==> j < n
    }
}

/// Positions of a mask built from rows below `n` lie below `n`.
proof fn lemma_rows_bits(dict: Seq<((u8, u8), u8)>, idxs: Seq<int>, k: int, n: int)
    requires
        0 <= k <= idxs.len(),
        n <= 64,
        forall|j: int| 0 <= j < k ==> 0 <= #[trigger] idxs[j] < dict.len() && dict[idxs[j]].1 < n,
    ensures
        forall|i: int| #[trigger] bit(rows_of(dict, idxs, k), i) ==> 0 <= i < n,
    decreases k,
{
    lemma_bits_all();
    if k == 0 {
        crate::bits::lemma_bit_zero();
    } else {
        lemma_rows_bits(dict, idxs, k - 1, n);
        let v = dict[idxs[k - 1]].1;
        crate::bits::lemma_bit_single(v as u64);
        assert forall|i: int| #[trigger] bit(rows_of(dict, idxs, k), i) implies 0 <= i < n by {
            assert(bit(rows_of(dict, idxs, k - 1), i) || bit(1u64 << v, i));
        }
    }
}

/// `slice::binary_search_by_key` on edges with their rows, sorted by edge: the
/// index of an entry with the given edge (any one of several), or `None` when
/// no entry has it.
#[verifier::external_body]
fn search_edge(dict: &[((u8, u8), u8)], e: (u8, u8)) -> (r: Option<usize>)
    requires
        sorted_by_key(dict@),
    ensures
        match r {
            Some(i) => i < dict@.len() && dict@[i as int].0 == e,
            None => forall|j: int| 0 <= j < dict@.len() ==> #[trigger] dict@[j].0 != e,
        },
{
    dict.binary_search_by_key(&e, |&(r, _)| r).ok()
}

/// The graph of `fg` is the canonical form of `g` (its adjacency rows are the
/// canonical rows), and the kept permutations are, once each, all the
/// automorphisms of it other than the identity.
pub open spec fn canonical_with_automorphisms(fg: ForestedGraph, g: Graph) -> bool {
    let n = g.num_vertices as int;
    let c = fg.spec_graph();
    &&& search_done(g, no_colours(n))
    &&& c.adj@ == canon_score(g, no_colours(n))
    &&& forall|tau: Seq<u8>| #[trigger] maps_onto(c@, tau, c@) && tau != identity(n as nat) ==> fg.spec_perms().contains(tau)
    &&& forall|q: int| 0 <= q < fg.spec_perms().len() ==> #[trigger] fg.spec_perms()[q] != identity(n as nat)
    &&& fg.spec_perms().no_duplicates()
}

/// `x` is the least of `mask` and its images under the automorphisms of `c`
/// (permutations of `0..n`), reached by one of them, and no automorphism
/// other than the identity fixes `mask` with an odd sign.
pub open spec fn least_image(c: Graph, n: nat, mask: u64, x: u64) -> bool {
    &&& x <= mask
    &&& x == mask || exists|tau: Seq<u8>| #[trigger] maps_onto(c@, tau, c@) && x == mask_image(mask, tau)
    &&& forall|tau: Seq<u8>| #[trigger] maps_onto(c@, tau, c@) && tau != identity(n) ==>
        x <= mask_image(mask, tau) && !(mask_image(mask, tau) == mask && mask_sign(mask, tau) == -1)
}
/// What the canonical form of a mask is, over all masks and permutations:
/// refused exactly where a permutation fixes the mask with an odd sign;
/// otherwise the least of the mask and its images, with sign 1 where that is
/// the mask itself and else the sign of a permutation that reaches it.
pub proof fn lemma_canonical_form_of_mask(mask: u64, perms: Seq<Seq<u8>>)
    ensures
        canon_upto(mask, perms, perms.len() as int) is None <==> exists|q: int| 0 <= q < perms.len()
            && #[trigger] mask_image(mask, perms[q]) == mask && mask_sign(mask, perms[q]) == -1,
        canon_upto(mask, perms, perms.len() as int) matches Some((x, sg)) ==> {
            &&& x <= mask
            &&& forall|q: int| 0 <= q < perms.len() ==> x <= #[trigger] mask_image(mask, perms[q])
            &&& (x == mask && sg == 1) || exists|q: int| 0 <= q < perms.len()
                && x == #[trigger] mask_image(mask, perms[q]) && sg == mask_sign(mask, perms[q])
        },
{
    let k = perms.len() as int;
    lemma_canon_none_iff(mask, perms, k);
    if canon_upto(mask, perms, k) is Some {
        lemma_canon_upto_least(mask, perms, k);
        lemma_canon_orientation(mask, perms, k);
    }
}

/// The canonical form is refused exactly where one of the permutations fixes
/// the mask with an odd sign.
proof fn lemma_canon_none_iff(mask: u64, perms: Seq<Seq<u8>>, k: int)
    requires
        0 <= k <= perms.len(),
    ensures
        canon_upto(mask, perms, k) is None <==> exists|q: int| 0 <= q < k
            && #[trigger] mask_image(mask, perms[q]) == mask && mask_sign(mask, perms[q]) == -1,
    decreases k,
{
    if k > 0 {
        lemma_canon_none_iff(mask, perms, k - 1);
        if canon_upto(mask, perms, k - 1) is None {
            let q = choose|q: int| 0 <= q < k - 1 && #[trigger] mask_image(mask, perms[q]) == mask && mask_sign(mask, perms[q]) == -1;
            assert(0 <= q < k);
        } else if canon_upto(mask, perms, k) is None {
            assert(mask_image(mask, perms[k - 1]) == mask && mask_sign(mask, perms[k - 1]) == -1);
        } else {
            assert forall|q: int| 0 <= q < k implies !(#[trigger] mask_image(mask, perms[q]) == mask && mask_sign(mask, perms[q]) == -1) by {
                if q == k - 1 {
                } else {
                }
            }
        }
    }
}

/// What `canon_upto` keeps: the least of the mask and its images under the
/// first `k` permutations, none of which fixes the mask with an odd sign.
proof fn lemma_canon_upto_least(mask: u64, perms: Seq<Seq<u8>>, k: int)
    requires
        0 <= k <= perms.len(),
        canon_upto(mask, perms, k) is Some,
    ensures
        canon_upto(mask, perms, k).unwrap().0 <= mask,
        canon_upto(mask, perms, k).unwrap().0 == mask
            || exists|j: int| 0 <= j < k && canon_upto(mask, perms, k).unwrap().0 == #[trigger] mask_image(mask, perms[j]),
        forall|j: int| 0 <= j < k ==> canon_upto(mask, perms, k).unwrap().0 <= #[trigger] mask_image(mask, perms[j])
            && !(mask_image(mask, perms[j]) == mask && mask_sign(mask, perms[j]) == -1),
    decreases k,
{
    if k > 0 {
        lemma_canon_upto_least(mask, perms, k - 1);
        let prev = canon_upto(mask, perms, k - 1).unwrap().0;
        let cur = canon_upto(mask, perms, k).unwrap().0;
        let m = mask_image(mask, perms[k - 1]);
        if m < prev {
            assert(cur == m);
        } else {
            assert(cur == prev);
            if cur != mask {
                let j = choose|j: int| 0 <= j < k - 1 && prev == #[trigger] mask_image(mask, perms[j]);
                assert(cur == mask_image(mask, perms[j]));
            }
        }
        assert forall|j: int| 0 <= j < k implies cur <= #[trigger] mask_image(mask, perms[j])
            && !(mask_image(mask, perms[j]) == mask && mask_sign(mask, perms[j]) == -1) by {
            if j < k - 1 {
                assert(prev <= mask_image(mask, perms[j]));
            }
        }
    }
}

/// Each subforest of a forested graph that `in_range` builds is the least
/// image of one of the graph's subforests under the automorphisms of the
/// canonical graph, the identity included, and no automorphism that fixes
/// that subforest is odd on it.
pub proof fn lemma_subforest_least_image(
    fg: ForestedGraph,
    g: Graph,
    retain: bool,
    min: nat,
    max: nat,
    gs: Graph,
    dict: Seq<((u8, u8), u8)>,
    masks: Seq<u64>,
    x: u64,
)
    requires
        in_range_parts(fg, retain, min, max, gs, dict, masks),
        fg.wf(),
        canonical_with_automorphisms(fg, g),
        fg.spec_subforests().contains(x),
    ensures
        exists|i: int| #![trigger masks[i]] 0 <= i < masks.len() && least_image(fg.spec_graph(), g.num_vertices as nat, masks[i], x),
{
    let i = choose|i: int| 0 <= i < masks.len() && #[trigger] canon_value(masks[i], fg.spec_perms()) == Some(x);
    let perms = fg.spec_perms();
    let c = fg.spec_graph();
    let n = g.num_vertices as int;
    lemma_canon_upto_least(masks[i], perms, perms.len() as int);
    assert forall|tau: Seq<u8>| #[trigger] maps_onto(c@, tau, c@) && tau != identity(n as nat) implies
        x <= mask_image(masks[i], tau) && !(mask_image(masks[i], tau) == masks[i] && mask_sign(masks[i], tau) == -1) by {
        assert(perms.contains(tau));
        let q = choose|q: int| 0 <= q < perms.len() && perms[q] == tau;
        assert(x <= mask_image(masks[i], perms[q]));
    }
    if x != masks[i] {
        let j = choose|j: int| 0 <= j < perms.len() && x == #[trigger] mask_image(masks[i], perms[j]);
        assert(perms[j] == fg.perms@[j]@);
        assert(maps_onto(c@, perms[j], c@));
    }
    assert(least_image(c, n as nat, masks[i], x));
}

/// The parts of `ForestedGraph::in_range`: `gs` and `dict` are what `simplify`
/// gives for the canonical graph, and `masks[i]` is the mask of the `i`-th
/// subforest of `gs`.
pub open spec fn in_range_parts(
    fg: ForestedGraph,
    retain: bool,
    min: nat,
    max: nat,
    gs: Graph,
    dict: Seq<((u8, u8), u8)>,
    masks: Seq<u64>,
) -> bool {
    let graph = fg.spec_graph();
    let forests = subforest_list(gs.edges@, gs.num_vertices as nat, min, max);
    &&& gs.built_from(rank_below(graph.adj@, graph.adj@.len() as int), dict.map_values(|e: ((u8, u8), u8)| e.0))
    &&& sorted_by_key(dict)
    &&& forall|x: ((u8, u8), u8)| #[trigger] dict.contains(x) <==> simplified_entry(graph.adj@, retain, x)
    &&& masks.len() == forests.len()
    &&& forall|i: int| 0 <= i < masks.len() ==> #[trigger] mask_of_forest(masks[i], forests[i], dict)
    &&& forall|x: u64| #[trigger] fg.spec_subforests().contains(x) <==> exists|i: int|
        0 <= i < masks.len() && #[trigger] canon_value(masks[i], fg.spec_perms()) == Some(x)
    &&& fg.spec_edges() == rows_of(dict, all_indices(dict.len() as int), dict.len() as int)
}

impl ForestedGraph {
    /// Find all subforests, up to isomorphism, of the graph, in the specified
    /// range of sizes. Edges on multiedges can be disabled.
    pub fn in_range(g: &Graph, min: usize, max: usize, forests_on_multiedges: bool) -> (r: Self)
        requires
            g.wf(),
            g.num_vertices < 64,
            g.keys_fit(),
            ends_stay(g),
            has_staying_vertex(g),
        ensures
            r.wf(),
            exists|base: Seq<u8>| #![trigger maps_onto(g@, base, r.spec_graph()@)]
                maps_onto(g@, base, r.spec_graph()@) && r.spec_graph().built_from(g.num_vertices as nat, permuted_edges(g@, base)),
            forall|a: int, b: int| 0 <= a < b < r.spec_subforests().len() ==> r.spec_subforests()[a] < r.spec_subforests()[b],
            exists|gs: Graph, dict: Seq<((u8, u8), u8)>, masks: Seq<u64>|
                #[trigger] in_range_parts(r, forests_on_multiedges, min as nat, max as nat, gs, dict, masks),
            canonical_with_automorphisms(r, *g),
    {
        let (graph, base, perms) = g.canonical_label();
        proof {
            lemma_shape_kept(g, base@, &graph);
            lemma_ends_stay_fits(&graph, forests_on_multiedges);
            let x = choose|x: int| 0 <= x < graph.num_vertices && #[trigger] crate::bits::popcount(graph.adj@[x]) != 2;
            lemma_rank_positive(graph.adj@, x, graph.adj@.len() as int);
        }
        let ghost n = graph.num_vertices as int;
        let (gs, dict) = graph.simplify(forests_on_multiedges);
        let subfs = gs.subforests(min, max);
        let ghost forests = subfs@.map_values(|f: Vec<(u8, u8)>| f@);
        let ghost ps = perm_views(perms@);
        proof {
            assert forall|q: int, j: int| 0 <= q < ps.len() && 0 <= j < n implies ps[q].len() >= n && #[trigger] ps[q][j] < n by {
                assert(maps_onto(graph@, perms@[q]@, graph@));
            }
            // the rows of the entries are rows of the graph
            assert forall|j: int| 0 <= j < dict@.len() implies #[trigger] dict@[j].1 < n by {
                assert(dict@.contains(dict@[j]));
                let m = crate::multi::pair_rows(graph.adj@, graph.adj@.len() as int);
                let key = choose|key: (u8, u8)| #[trigger] m.contains_key(key) && (forests_on_multiedges || m[key].1 == 1)
                    && dict@[j] == (crate::perm::permute_edge(key, Seq::new(graph.adj@.len(), |y: int| crate::multi::simplify_perm(graph.adj@, y))), m[key].0);
                lemma_pair_rows_keys(graph.adj@, graph.adj@.len() as int, key);
            }
        }
        proof {
            lemma_subforest_list_edges(gs.edges@, gs.num_vertices as nat, min as nat, max as nat);
            assert forall|q: int| 0 <= q < ps.len() implies #[trigger] ps[q].len() >= n by {
                assert(ps[q] == perms@[q]@);
                assert(maps_onto(graph@, perms@[q]@, graph@));
            }
            assert forall|q: int, j: int| 0 <= q < ps.len() && 0 <= j < n implies #[trigger] ps[q][j] < n by {
                assert(ps[q] == perms@[q]@);
                assert(maps_onto(graph@, perms@[q]@, graph@));
                assert(is_perm(perms@[q]@));
            }
            let keys = dict@.map_values(|e: ((u8, u8), u8)| e.0);
            assert(normalized(keys) =~= keys) by {
                assert forall|j: int| 0 <= j < keys.len() implies #[trigger] normalized(keys)[j] == keys[j] by {
                    assert(dict@.contains(dict@[j]));
                    assert(simplified_entry(graph.adj@, forests_on_multiedges, dict@[j]));
                }
            }
            assert forall|e: (u8, u8)| #[trigger] gs.edges@.contains(e) implies exists|j: int| 0 <= j < dict@.len() && dict@[j].0 == e by {
                assert(gs.edges@.to_multiset().count(e) > 0);
                assert(keys.to_multiset().count(e) > 0);
                assert(keys.contains(e));
                let j = choose|j: int| 0 <= j < keys.len() && keys[j] == e;
                assert(dict@[j].0 == e);
            }
        }
        let mut subforests = new_mask_set();
        let ghost mut masks: Seq<u64> = Seq::empty();
        let mut t: usize = 0;
        while t < subfs.len()
            invariant
                t <= subfs@.len(),
                forests == subfs@.map_values(|f: Vec<(u8, u8)>| f@),
                forests == subforest_list(gs.edges@, gs.num_vertices as nat, min as nat, max as nat),
                forall|i: int, j: int| 0 <= i < forests.len() && 0 <= j < forests[i].len() ==> #[trigger] gs.edges@.contains(forests[i][j]),
                forall|e: (u8, u8)| #[trigger] gs.edges@.contains(e) ==> exists|j: int| 0 <= j < dict@.len() && dict@[j].0 == e,
                masks.len() == t,
                n == graph.num_vertices,
                n < 64,
                sorted_by_key(dict@),
                forall|j: int| 0 <= j < dict@.len() ==> #[trigger] dict@[j].1 < n,
                ps == perm_views(perms@),
                forall|q: int| 0 <= q < ps.len() ==> #[trigger] ps[q].len() >= n,
                forall|q: int, j: int| 0 <= q < ps.len() && 0 <= j < n ==> #[trigger] ps[q][j] < n,
                forall|i: int| 0 <= i < t ==> #[trigger] mask_of_forest(masks[i], forests[i], dict@),
                forall|i: int, j: int| 0 <= i < t && #[trigger] bit(masks[i], j) ==> j < n,
                forall|x: u64| #[trigger] subforests@.contains(x) <==> exists|i: int|
                    0 <= i < t && #[trigger] canon_value(masks[i], ps) == Some(x),
            decreases subfs@.len() - t,
        {
            let subf = &subfs[t];
            proof {
                assert(subf@ == forests[t as int]);
                assert forall|j: int| 0 <= j < subf@.len() implies #[trigger] gs.edges@.contains(subf@[j]) by {
                    assert(gs.edges@.contains(forests[t as int][j]));
                }
            }
            let mut mask: u64 = 0;
            let ghost mut idxs: Seq<int> = Seq::empty();
            let mut k: usize = 0;
            while k < subf.len()
                invariant
                    k <= subf@.len(),
                    subf@ == forests[t as int],
                    forall|j: int| 0 <= j < subf@.len() ==> #[trigger] gs.edges@.contains(subf@[j]),
                    forall|e: (u8, u8)| #[trigger] gs.edges@.contains(e) ==> exists|j: int| 0 <= j < dict@.len() && dict@[j].0 == e,
                    n < 64,
                    sorted_by_key(dict@),
                    forall|j: int| 0 <= j < dict@.len() ==> #[trigger] dict@[j].1 < n,
                    idxs.len() == k,
                    forall|j: int| 0 <= j < idxs.len() ==> 0 <= #[trigger] idxs[j] < dict@.len() && dict@[idxs[j]].0 == subf@[j],
                    mask == rows_of(dict@, idxs, k as int),
                decreases subf@.len() - k,
            {
                let e = subf[k];
                proof {
                    assert(gs.edges@.contains(e));
                }
                match search_edge(dict.as_slice(), e) {
                    Some(i) => {
                        proof {
                            let idxs2 = idxs.push(i as int);
                            lemma_rows_prefix(dict@, idxs2, k as int);
                            assert(idxs2.take(k as int) =~= idxs);
                            idxs = idxs2;
                        }
                        mask = mask | (1u64 << dict[i].1);
                    },
                    None => {
                        proof {
                            assert(false);
                        }
                    },
                }
                k = k + 1;
            }
            proof {
                assert(mask_of_forest(mask, forests[t as int], dict@));
                lemma_rows_bits(dict@, idxs, k as int, n);
                assert forall|q: int, j: int| 0 <= q < ps.len() && #[trigger] bit(mask, j) implies j < ps[q].len() && #[trigger] ps[q][j] < 64 by {
                    assert(j < n);
                    assert(ps[q].len() >= n);
                }
            }
            let cs = canonical_subforest(mask, perms.as_slice());
            let ghost old_set = subforests@;
            if let Some((csf, _)) = cs {
                let _ = mask_set_insert(&mut subforests, csf);
            }
            proof {
                let masks2 = masks.push(mask);
                assert forall|x: u64| #[trigger] subforests@.contains(x) <==> exists|i: int|
                    0 <= i < t + 1 && #[trigger] canon_value(masks2[i], ps) == Some(x) by {
                    if subforests@.contains(x) {
                        if old_set.contains(x) {
                            let i = choose|i: int| 0 <= i < t && #[trigger] canon_value(masks[i], ps) == Some(x);
                            assert(masks2[i] == masks[i]);
                        } else {
                            let pair = cs->0;
                            assert(cs is Some && pair.0 == x);
                            assert(canon_value(masks2[t as int], ps) == Some(x));
                        }
                    }
                    if exists|i: int| 0 <= i < t + 1 && #[trigger] canon_value(masks2[i], ps) == Some(x) {
                        let i = choose|i: int| 0 <= i < t + 1 && #[trigger] canon_value(masks2[i], ps) == Some(x);
                        if i < t {
                            assert(masks2[i] == masks[i]);
                            assert(old_set.contains(x));
                        } else {
                            let pair = cs->0;
                            assert(pair.0 == x);
                        }
                    }
                }
                assert forall|i: int| 0 <= i < t + 1 implies #[trigger] mask_of_forest(masks2[i], forests[i], dict@) by {
                    if i < t {
                        assert(masks2[i] == masks[i]);
                    }
                }
                assert forall|i: int, j: int| 0 <= i < t + 1 && #[trigger] bit(masks2[i], j) implies j < n by {
                    if i < t {
                        assert(masks2[i] == masks[i]);
                    }
                }
                masks = masks2;
            }
            t = t + 1;
        }
        let ghost set = subforests@;
        let v = mask_set_into_vec(subforests);
        let subforests = sorted_unique(v);
        proof {
            assert forall|k: int, j: int| 0 <= k < subforests@.len() && #[trigger] bit(subforests@[k], j) implies j < n by {
                assert(subforests@.contains(subforests@[k]));
                assert(set.contains(subforests@[k]));
                let i = choose|i: int| 0 <= i < masks.len() && #[trigger] canon_value(masks[i], ps) == Some(subforests@[k]);
                lemma_canon_bits(masks[i], ps, ps.len() as int, n);
            }
        }
        let mut edges: u64 = 0;
        let mut k: usize = 0;
        while k < dict.len()
            invariant
                k <= dict@.len(),
                n < 64,
                forall|j: int| 0 <= j < dict@.len() ==> #[trigger] dict@[j].1 < n,
                edges == rows_of(dict@, all_indices(dict@.len() as int), k as int),
            decreases dict@.len() - k,
        {
            edges = edges | (1u64 << dict[k].1);
            k = k + 1;
        }
        proof {
            lemma_rows_bits(dict@, all_indices(dict@.len() as int), dict@.len() as int, n);
        }
        let r = ForestedGraph { graph, perms, edges, subforests };
        proof {
            assert(r.spec_perms() == ps);
            assert(r.spec_graph() == graph);
            assert forall|x: u64| #[trigger] r.spec_subforests().contains(x) <==> exists|i: int|
                0 <= i < masks.len() && #[trigger] canon_value(masks[i], r.spec_perms()) == Some(x) by {
                assert(v@.contains(x) <==> v@.to_set().contains(x));
                assert(set.contains(x) <==> exists|i: int| 0 <= i < masks.len() && #[trigger] canon_value(masks[i], ps) == Some(x));
            }
            assert(in_range_parts(r, forests_on_multiedges, min as nat, max as nat, gs, dict@, masks));
            assert(maps_onto(g@, base@, r.spec_graph()@));
            assert forall|tau: Seq<u8>| #[trigger] maps_onto(r.spec_graph()@, tau, r.spec_graph()@) && tau != identity(n as nat)
                implies r.spec_perms().contains(tau) by {
                assert(has_perm(perms@, tau));
                let k = choose|k: int| 0 <= k < perms@.len() && #[trigger] perms@[k]@ == tau;
                assert(r.spec_perms()[k] == tau);
            }
            assert forall|q: int| 0 <= q < r.spec_perms().len() implies #[trigger] r.spec_perms()[q] != identity(n as nat) by {
                assert(r.spec_perms()[q] == perms@[q]@);
            }
            assert(r.spec_perms().no_duplicates()) by {
                assert forall|a: int, b: int| 0 <= a < r.spec_perms().len() && 0 <= b < r.spec_perms().len() && a != b
                    implies r.spec_perms()[a] != r.spec_perms()[b] by {
                    assert(r.spec_perms()[a] == perms@[a]@);
                    assert(r.spec_perms()[b] == perms@[b]@);
                    if a < b {
                        assert(perms@[a]@ != perms@[b]@);
                    } else {
                        assert(perms@[b]@ != perms@[a]@);
                    }
                }
            }
            assert(canonical_with_automorphisms(r, *g));
        }
        r
    }
}

proof fn lemma_rows_prefix(dict: Seq<((u8, u8), u8)>, idxs: Seq<int>, k: int)
    requires
        0 <= k <= idxs.len(),
    ensures
        rows_of(dict, idxs, k) == rows_of(dict, idxs.take(k), k),
    decreases k,
{
    if k > 0 {
        lemma_rows_prefix(dict, idxs, k - 1);
        lemma_rows_prefix(dict, idxs.take(k), k - 1);
        assert(idxs.take(k).take(k - 1) =~= idxs.take(k - 1));
    }
}


/// Every edge of a forest found is an edge of the graph, when the forest
/// started from is made of edges of the graph.
proof fn lemma_forest_edges(edges: Seq<(u8, u8)>, i: int, forest: Seq<(u8, u8)>, comp: Seq<u8>, min: nat, max: nat)
    requires
        forall|j: int| 0 <= j < forest.len() ==> #[trigger] edges.contains(forest[j]),
    ensures
        forall|k: int, j: int| 0 <= k < forests_from(edges, i, forest, comp, min, max).len()
            && 0 <= j < forests_from(edges, i, forest, comp, min, max)[k].len() ==>
            #[trigger] edges.contains(forests_from(edges, i, forest, comp, min, max)[k][j]),
    decreases edges.len() - i,
{
    if !(forest.len() >= max || i >= edges.len() || i < 0) {
        let cv = comp[edges[i].0 as int];
        let cw = comp[edges[i].1 as int];
        lemma_forest_edges(edges, i + 1, forest, comp, min, max);
        if cv != cw {
            let a = if cw < cv { cw } else { cv };
            let b = if cw < cv { cv } else { cw };
            let f2 = forest.push(edges[i]);
            assert forall|j: int| 0 <= j < f2.len() implies #[trigger] edges.contains(f2[j]) by {
                if j < forest.len() {
                    assert(f2[j] == forest[j]);
                } else {
                    assert(f2[j] == edges[i]);
                }
            }
            lemma_forest_edges(edges, i + 1, f2, merge_labels(comp, a, b), min, max);
            let here: Seq<Seq<(u8, u8)>> = if min <= f2.len() && f2.len() <= max {
                seq![f2]
            } else {
                Seq::empty()
            };
            let left = forests_from(edges, i + 1, f2, merge_labels(comp, a, b), min, max);
            let right = forests_from(edges, i + 1, forest, comp, min, max);
            let all = forests_from(edges, i, forest, comp, min, max);
            assert(all == here + left + right);
            assert forall|k: int, j: int| 0 <= k < all.len() && 0 <= j < all[k].len() implies #[trigger] edges.contains(all[k][j]) by {
                if k < here.len() {
                    assert(all[k] == f2);
                } else if k < here.len() + left.len() {
                    assert(all[k] == left[k - here.len()]);
                } else {
                    assert(all[k] == right[k - here.len() - left.len()]);
                }
            }
        }
    }
}

/// Every edge of a listed subforest is an edge of the graph.
proof fn lemma_subforest_list_edges(edges: Seq<(u8, u8)>, n: nat, min: nat, max: nat)
    ensures
        forall|k: int, j: int| 0 <= k < subforest_list(edges, n, min, max).len()
            && 0 <= j < subforest_list(edges, n, min, max)[k].len() ==>
            #[trigger] edges.contains(subforest_list(edges, n, min, max)[k][j]),
{
    let comp = Seq::new(n, |u: int| u as u8);
    let found = forests_from(edges, 0, Seq::empty(), comp, min, max);
    lemma_forest_edges(edges, 0, Seq::empty(), comp, min, max);
    let all = subforest_list(edges, n, min, max);
    assert forall|k: int, j: int| 0 <= k < all.len() && 0 <= j < all[k].len() implies #[trigger] edges.contains(all[k][j]) by {
        if min == 0 {
            if k == 0 {
                assert(all[k] =~= Seq::<(u8, u8)>::empty());
            } else {
                assert(all[k] == found[k - 1]);
            }
        } else {
            assert(all[k] == found[k]);
        }
    }
}

/// The distinct values of a list, in increasing order.
pub(crate) fn sorted_unique(v: Vec<u64>) -> (r: Vec<u64>)
    ensures
        r@.len() <= v@.len(),
        forall|a: int, b: int| 0 <= a < b < r@.len() ==> r@[a] < r@[b],
        forall|x: u64| #[trigger] r@.contains(x) <==> v@.contains(x),
{
    let mut s = v;
    let ghost v0 = s@;
    sort_by_key(&mut s);
    let mut r: Vec<u64> = Vec::new();
    let mut k: usize = 0;
    while k < s.len()
        invariant
            k <= s@.len(),
            r@.len() <= k,
            s@.len() == v0.len(),
            sorted_by_key(s@),
            s@.to_multiset() == v0.to_multiset(),
            forall|a: int, b: int| 0 <= a < b < r@.len() ==> r@[a] < r@[b],
            forall|x: u64| #[trigger] r@.contains(x) <==> exists|j: int| 0 <= j < k && s@[j] == x,
            k > 0 ==> r@.len() > 0 && r@.last() == s@[k - 1],
            k == 0 ==> r@.len() == 0,
        decreases s@.len() - k,
    {
        let x = s[k];
        if r.len() == 0 || r[r.len() - 1] != x {
            let ghost before = r@;
            proof {
                if k > 0 {
                    assert(s@[k - 1].key_spec() <= s@[k as int].key_spec());
                }
            }
            r.push(x);
            proof {
                assert forall|a: int, b: int| 0 <= a < b < r@.len() implies r@[a] < r@[b] by {
                    if b == before.len() {
                        if a < before.len() - 1 {
                            assert(before[a] < before[before.len() - 1]);
                        }
                        if before.len() > 0 {
                            assert(k > 0);
                            assert(before[before.len() - 1] == s@[k - 1]);
                            assert(s@[k - 1].key_spec() <= s@[k as int].key_spec());
                            assert(s@[k - 1] as int <= x as int);
                            assert(before[before.len() - 1] < x);
                        }
                    } else {
                        assert(r@[a] == before[a] && r@[b] == before[b]);
                    }
                }
                assert forall|y: u64| #[trigger] r@.contains(y) <==> exists|j: int| 0 <= j < k + 1 && s@[j] == y by {
                    if r@.contains(y) {
                        let a = choose|a: int| 0 <= a < r@.len() && r@[a] == y;
                        if a < before.len() {
                            assert(before[a] == y);
                            assert(before.contains(y));
                        }
                    }
                    if exists|j: int| 0 <= j < k + 1 && s@[j] == y {
                        let j = choose|j: int| 0 <= j < k + 1 && s@[j] == y;
                        if j < k {
                            assert(before.contains(y));
                            let a = choose|a: int| 0 <= a < before.len() && before[a] == y;
                            assert(r@[a] == y);
                        } else {
                            assert(r@[before.len() as int] == y);
                        }
                    }
                }
            }
        } else {
            proof {
                assert forall|y: u64| #[trigger] r@.contains(y) <==> exists|j: int| 0 <= j < k + 1 && s@[j] == y by {
                    if exists|j: int| 0 <= j < k + 1 && s@[j] == y {
                        let j = choose|j: int| 0 <= j < k + 1 && s@[j] == y;
                        if j == k {
                            assert(r@[r@.len() - 1] == y);
                        }
                    }
                }
            }
        }
        k = k + 1;
    }
    proof {
        assert forall|x: u64| #[trigger] r@.contains(x) <==> v@.contains(x) by {
            assert(s@.to_multiset().count(x) == v0.to_multiset().count(x));
            if v@.contains(x) {
                let j = choose|j: int| 0 <= j < s@.len() && s@[j] == x;
            }
        }
    }
    r
}


/// The mask of a list of vertices.
pub open spec fn vertices_mask(f: Seq<u8>, k: int) -> u64
    decreases k,
{
    if k <= 0 {
        0u64
    } else {
        vertices_mask(f, k - 1) | (1u64 << f[k - 1])
    }
}

/// The union of the masks of the first `k` lists.
pub open spec fn union_of_masks(fs: Seq<Seq<u8>>, k: int) -> u64
    decreases k,
{
    if k <= 0 {
        0u64
    } else {
        union_of_masks(fs, k - 1) | vertices_mask(fs[k - 1], fs[k - 1].len() as int)
    }
}

proof fn lemma_vertices_mask_bits(f: Seq<u8>, k: int, n: int)
    requires
        0 <= k <= f.len(),
        n <= 64,
        forall|j: int| 0 <= j < f.len() ==> #[trigger] f[j] < n,
    ensures
        forall|i: int| #[trigger] bit(vertices_mask(f, k), i) ==> 0 <= i < n,
    decreases k,
{
    lemma_bits_all();
    if k == 0 {
        crate::bits::lemma_bit_zero();
    } else {
        lemma_vertices_mask_bits(f, k - 1, n);
        crate::bits::lemma_bit_single(f[k - 1] as u64);
        assert forall|i: int| #[trigger] bit(vertices_mask(f, k), i) implies 0 <= i < n by {
            assert(bit(vertices_mask(f, k - 1), i) || bit(1u64 << f[k - 1], i));
        }
    }
}

proof fn lemma_union_bits(fs: Seq<Seq<u8>>, k: int, n: int)
    requires
        0 <= k <= fs.len(),
        n <= 64,
        forall|q: int, j: int| 0 <= q < fs.len() && 0 <= j < fs[q].len() ==> #[trigger] fs[q][j] < n,
    ensures
        forall|i: int| #[trigger] bit(union_of_masks(fs, k), i) ==> 0 <= i < n,
    decreases k,
{
    lemma_bits_all();
    if k == 0 {
        crate::bits::lemma_bit_zero();
    } else {
        lemma_union_bits(fs, k - 1, n);
        let f = fs[k - 1];
        assert forall|j: int| 0 <= j < f.len() implies #[trigger] f[j] < n by {
            assert(fs[k - 1][j] < n);
        }
        lemma_vertices_mask_bits(f, f.len() as int, n);
        assert forall|i: int| #[trigger] bit(union_of_masks(fs, k), i) implies 0 <= i < n by {
            assert(bit(union_of_masks(fs, k - 1), i) || bit(vertices_mask(f, f.len() as int), i));
        }
    }
}

/// The views of lists of vertices.
pub open spec fn list_views(fs: Seq<Vec<u8>>) -> Seq<Seq<u8>> {
    fs.map_values(|f: Vec<u8>| f@)
}

/// A copy of a list of permutations.
fn copy_perms(ps: &Vec<Vec<u8>>) -> (c: Vec<Vec<u8>>)
    ensures
        perm_views(c@) == perm_views(ps@),
{
    let mut c: Vec<Vec<u8>> = Vec::with_capacity(ps.len());
    let mut k: usize = 0;
    while k < ps.len()
        invariant
            k <= ps@.len(),
            c@.len() == k,
            forall|j: int| 0 <= j < k ==> #[trigger] c@[j]@ == ps@[j]@,
        decreases ps@.len() - k,
    {
        let p = &ps[k];
        let mut q: Vec<u8> = Vec::with_capacity(p.len());
        let mut j: usize = 0;
        while j < p.len()
            invariant
                j <= p@.len(),
                q@ == p@.take(j as int),
            decreases p@.len() - j,
        {
            q.push(p[j]);
            assert(q@ =~= p@.take(j as int + 1));
            j = j + 1;
        }
        assert(p@.take(p@.len() as int) =~= p@);
        let ghost before = c@;
        c.push(q);
        proof {
            assert forall|j: int| 0 <= j < k + 1 implies #[trigger] c@[j]@ == ps@[j]@ by {
                if j < k {
                    assert(c@[j] == before[j]);
                }
            }
        }
        k = k + 1;
    }
    assert(perm_views(c@) =~= perm_views(ps@));
    c
}

/// The kept elements: `s[i]` where `keep[i]`, in order.
pub open spec fn selected(s: Seq<u64>, keep: Seq<bool>, k: int) -> Seq<u64>
    decreases k,
{
    if k <= 0 {
        Seq::empty()
    } else if keep[k - 1] {
        selected(s, keep, k - 1).push(s[k - 1])
    } else {
        selected(s, keep, k - 1)
    }
}

impl ForestedGraph {
    /// Find all subforests, up to isomorphism, of the graph, with the given size.
    /// Edges on multiedges can be disabled.
    pub fn new(g: &Graph, forest_size: usize, forests_on_multiedges: bool) -> (r: Self)
        requires
            g.wf(),
            g.num_vertices < 64,
            g.keys_fit(),
            ends_stay(g),
            has_staying_vertex(g),
        ensures
            r.wf(),
            exists|base: Seq<u8>| #![trigger maps_onto(g@, base, r.spec_graph()@)]
                maps_onto(g@, base, r.spec_graph()@) && r.spec_graph().built_from(g.num_vertices as nat, permuted_edges(g@, base)),
            forall|a: int, b: int| 0 <= a < b < r.spec_subforests().len() ==> r.spec_subforests()[a] < r.spec_subforests()[b],
            exists|gs: Graph, dict: Seq<((u8, u8), u8)>, masks: Seq<u64>|
                #[trigger] in_range_parts(r, forests_on_multiedges, forest_size as nat, forest_size as nat, gs, dict, masks),
            canonical_with_automorphisms(r, *g),
    {
        Self::in_range(g, forest_size, forest_size, forests_on_multiedges)
    }

    /// Find all subforests, up to isomorphism, of the graph.
    pub fn all(g: &Graph) -> (r: Self)
        requires
            g.wf(),
            g.num_vertices < 64,
            g.keys_fit(),
            ends_stay(g),
            has_staying_vertex(g),
        ensures
            r.wf(),
            exists|base: Seq<u8>| #![trigger maps_onto(g@, base, r.spec_graph()@)]
                maps_onto(g@, base, r.spec_graph()@) && r.spec_graph().built_from(g.num_vertices as nat, permuted_edges(g@, base)),
            forall|a: int, b: int| 0 <= a < b < r.spec_subforests().len() ==> r.spec_subforests()[a] < r.spec_subforests()[b],
            exists|gs: Graph, dict: Seq<((u8, u8), u8)>, masks: Seq<u64>|
                #[trigger] in_range_parts(r, true, 0, (g.num_vertices - 1) as nat, gs, dict, masks),
            canonical_with_automorphisms(r, *g),
    {
        let r = Self::in_range(g, 0, g.num_vertices as usize - 1, true);
        proof {
            let (gs, dict, masks) = choose|gs: Graph, dict: Seq<((u8, u8), u8)>, masks: Seq<u64>|
                #[trigger] in_range_parts(r, true, 0, (g.num_vertices as usize - 1) as nat, gs, dict, masks);
            assert(in_range_parts(r, true, 0, (g.num_vertices - 1) as nat, gs, dict, masks));
        }
        r
    }

    /// Create a new forested graph with only the provided subforests, each given
    /// by its vertices of valency 2.
    pub fn with_subforests(g: &Graph, forests: &[Vec<u8>]) -> (r: Self)
        requires
            g.wf(),
            g.num_vertices < 64,
            g.keys_fit(),
            forall|q: int, j: int| 0 <= q < forests@.len() && 0 <= j < forests@[q]@.len() ==>
                #[trigger] forests@[q]@[j] < g.num_vertices && crate::bits::popcount(g.adj@[forests@[q]@[j] as int]) == 2,
        ensures
            r.wf(),
            r.spec_graph()@ == g@,
            r.spec_graph().adj@ == g.adj@,
            r.spec_subforests() == Seq::new(forests@.len(), |q: int| vertices_mask(forests@[q]@, forests@[q]@.len() as int)),
            r.spec_edges() == union_of_masks(list_views(forests@), forests@.len() as int),
    {
        let graph = g.copy();
        let perms = g.automorphisms();
        let ghost n = g.num_vertices as int;
        let ghost fs = list_views(forests@);
        let mut subforests: Vec<u64> = Vec::new();
        let mut edges: u64 = 0;
        let mut q: usize = 0;
        while q < forests.len()
            invariant
                q <= forests@.len(),
                fs == list_views(forests@),
                n == g.num_vertices,
                n < 64,
                forall|a: int, j: int| 0 <= a < forests@.len() && 0 <= j < forests@[a]@.len() ==>
                    #[trigger] forests@[a]@[j] < g.num_vertices,
                subforests@ == Seq::new(q as nat, |a: int| vertices_mask(forests@[a]@, forests@[a]@.len() as int)),
                edges == union_of_masks(fs, q as int),
            decreases forests@.len() - q,
        {
            let f = &forests[q];
            let mut mask: u64 = 0;
            let mut j: usize = 0;
            while j < f.len()
                invariant
                    j <= f@.len(),
                    *f == forests@[q as int],
                    forall|b: int| 0 <= b < f@.len() ==> #[trigger] f@[b] < g.num_vertices,
                    g.num_vertices < 64,
                    mask == vertices_mask(f@, j as int),
                decreases f@.len() - j,
            {
                mask = mask | (1u64 << f[j]);
                j = j + 1;
            }
            subforests.push(mask);
            edges = edges | mask;
            proof {
                assert(fs[q as int] == f@);
                assert(subforests@ =~= Seq::new((q + 1) as nat, |a: int| vertices_mask(forests@[a]@, forests@[a]@.len() as int)));
            }
            q = q + 1;
        }
        proof {
            assert forall|a: int, j: int| 0 <= a < fs.len() && 0 <= j < fs[a].len() implies #[trigger] fs[a][j] < n by {
                assert(fs[a] == forests@[a]@);
            }
            lemma_union_bits(fs, fs.len() as int, n);
            assert(graph@ == g@);
            assert forall|k: int, j: int| 0 <= k < subforests@.len() && #[trigger] bit(subforests@[k], j) implies j < n by {
                let f = forests@[k]@;
                assert forall|b: int| 0 <= b < f.len() implies #[trigger] f[b] < n by {
                    assert(forests@[k]@[b] < n);
                }
                lemma_vertices_mask_bits(f, f.len() as int, n);
            }
        }
        ForestedGraph { graph, perms, edges, subforests }
    }

    /// The masks of the subforests.
    /// The graph6 text of the graph.
    pub fn g6(&self) -> (s: String)
        requires
            self.wf(),
            self.spec_graph().num_vertices <= 62,
        ensures
            s@ == g6_text(self.spec_graph()),
    {
        self.graph.to_g6()
    }

    pub fn subforests(&self) -> (r: &[u64])
        ensures
            r@ == self.spec_subforests(),
    {
        self.subforests.as_slice()
    }

    /// The underlying graph.
    pub fn graph(&self) -> (r: &Graph)
        ensures
            *r == self.spec_graph(),
    {
        &self.graph
    }

    /// Keep only the subforests that satisfy the given predicate.
    pub fn filter<F: Fn(u64) -> bool>(&self, f: F) -> (r: Self)
        requires
            self.wf(),
            forall|x: u64| #[trigger] f.requires((x,)),
        ensures
            r.wf(),
            r.spec_graph()@ == self.spec_graph()@,
            r.spec_graph().adj@ == self.spec_graph().adj@,
            r.spec_perms() == self.spec_perms(),
            r.spec_edges() == self.spec_edges(),
            exists|keep: Seq<bool>| {
                &&& keep.len() == self.spec_subforests().len()
                &&& forall|i: int| 0 <= i < keep.len() ==> #[trigger] f.ensures((self.spec_subforests()[i],), keep[i])
                &&& r.spec_subforests() == selected(self.spec_subforests(), keep, keep.len() as int)
            },
    {
        let mut subforests: Vec<u64> = Vec::new();
        let ghost mut keep: Seq<bool> = Seq::empty();
        let mut k: usize = 0;
        while k < self.subforests.len()
            invariant
                self.wf(),
                forall|x: u64| #[trigger] f.requires((x,)),
                k <= self.subforests@.len(),
                keep.len() == k,
                forall|i: int| 0 <= i < k ==> #[trigger] f.ensures((self.subforests@[i],), keep[i]),
                subforests@ == selected(self.subforests@, keep, k as int),
                forall|a: int| #![trigger subforests@[a]] 0 <= a < subforests@.len() ==> exists|i: int| 0 <= i < k && #[trigger] self.subforests@[i] == subforests@[a],
            decreases self.subforests@.len() - k,
        {
            let x = self.subforests[k];
            let b = f(x);
            let ghost before = subforests@;
            if b {
                subforests.push(x);
            }
            proof {
                let keep2 = keep.push(b);
                assert(selected(self.subforests@, keep2, k as int) == selected(self.subforests@, keep, k as int)) by {
                    lemma_selected_prefix(self.subforests@, keep, keep2, k as int);
                }
                assert forall|i: int| 0 <= i < k + 1 implies #[trigger] f.ensures((self.subforests@[i],), keep2[i]) by {
                    if i < k {
                        assert(keep2[i] == keep[i]);
                    }
                }
                assert forall|a: int| #![trigger subforests@[a]] 0 <= a < subforests@.len() implies exists|i: int| 0 <= i < k + 1 && #[trigger] self.subforests@[i] == subforests@[a] by {
                    if a < before.len() {
                        assert(subforests@[a] == before[a]);
                        let i = choose|i: int| 0 <= i < k && #[trigger] self.subforests@[i] == before[a];
                    } else {
                        assert(self.subforests@[k as int] == subforests@[a]);
                    }
                }
                keep = keep2;
            }
            k = k + 1;
        }
        let graph = self.graph.copy();
        let perms = copy_perms(&self.perms);
        let r = ForestedGraph { subforests, graph, perms, edges: self.edges };
        proof {
            assert(perm_views(r.perms@).len() == perm_views(self.perms@).len());
            assert(r.graph@ == self.graph@);
            assert forall|q: int| 0 <= q < r.perms@.len() implies #[trigger] maps_onto(r.graph@, r.perms@[q]@, r.graph@) by {
                assert(perm_views(r.perms@)[q] == perm_views(self.perms@)[q]);
                assert(maps_onto(self.graph@, self.perms@[q]@, self.graph@));
            }
            assert forall|a: int, j: int| 0 <= a < r.subforests@.len() && #[trigger] bit(r.subforests@[a], j) implies j < r.graph.num_vertices by {
                let i = choose|i: int| 0 <= i < self.subforests@.len() && #[trigger] self.subforests@[i] == r.subforests@[a];
            }
            assert(keep.len() == self.spec_subforests().len());
        }
        r
    }
}

impl ForestedGraph {
    /// Keep the subforests whose flag is set.
    pub fn select(&self, keep: &Vec<bool>) -> (r: Self)
        requires
            self.wf(),
            keep@.len() == self.spec_subforests().len(),
        ensures
            r.wf(),
            r.spec_graph()@ == self.spec_graph()@,
            r.spec_graph().adj@ == self.spec_graph().adj@,
            r.spec_graph().num_vertices == self.spec_graph().num_vertices,
            r.spec_graph().edges@ == self.spec_graph().edges@,
            r.spec_perms() == self.spec_perms(),
            r.spec_edges() == self.spec_edges(),
            r.spec_subforests() == selected(self.spec_subforests(), keep@, keep@.len() as int),
    {
        let mut subforests: Vec<u64> = Vec::new();
        let mut k: usize = 0;
        while k < self.subforests.len()
            invariant
                self.wf(),
                keep@.len() == self.subforests@.len(),
                k <= self.subforests@.len(),
                subforests@ == selected(self.subforests@, keep@, k as int),
                forall|a: int| #![trigger subforests@[a]] 0 <= a < subforests@.len() ==> exists|i: int| 0 <= i < k && #[trigger] self.subforests@[i] == subforests@[a],
            decreases self.subforests@.len() - k,
        {
            let x = self.subforests[k];
            let ghost before = subforests@;
            if keep[k] {
                subforests.push(x);
            }
            proof {
                assert forall|a: int| #![trigger subforests@[a]] 0 <= a < subforests@.len() implies exists|i: int| 0 <= i < k + 1 && #[trigger] self.subforests@[i] == subforests@[a] by {
                    if a < before.len() {
                        assert(subforests@[a] == before[a]);
                        let i = choose|i: int| 0 <= i < k && #[trigger] self.subforests@[i] == before[a];
                    } else {
                        assert(self.subforests@[k as int] == subforests@[a]);
                    }
                }
            }
            k = k + 1;
        }
        let graph = self.graph.copy();
        let perms = copy_perms(&self.perms);
        let r = ForestedGraph { subforests, graph, perms, edges: self.edges };
        proof {
            assert(perm_views(r.perms@).len() == perm_views(self.perms@).len());
            assert(r.graph@ == self.graph@);
            assert(perm_views(r.perms@) =~= perm_views(self.perms@)) by {
                assert forall|q: int| 0 <= q < r.perms@.len() implies #[trigger] perm_views(r.perms@)[q] == perm_views(self.perms@)[q] by {
                }
            }
            assert forall|q: int| 0 <= q < r.perms@.len() implies #[trigger] maps_onto(r.graph@, r.perms@[q]@, r.graph@) by {
                assert(perm_views(r.perms@)[q] == perm_views(self.perms@)[q]);
                assert(maps_onto(self.graph@, self.perms@[q]@, self.graph@));
            }
            assert forall|a: int, j: int| 0 <= a < r.subforests@.len() && #[trigger] bit(r.subforests@[a], j) implies j < r.graph.num_vertices by {
                let i = choose|i: int| 0 <= i < self.subforests@.len() && #[trigger] self.subforests@[i] == r.subforests@[a];
            }
        }
        r
    }
}

/// A well-formed forested graph has a well-formed graph, on fewer than 64
/// vertices, that its subforests lie on.
pub proof fn lemma_forested_wf(fg: ForestedGraph)
    requires
        fg.wf(),
    ensures
        fg.spec_graph().wf(),
        fg.spec_graph().num_vertices < 64,
        forall|k: int, j: int| 0 <= k < fg.spec_subforests().len() && #[trigger] bit(fg.spec_subforests()[k], j) ==> 0 <= j < fg.spec_graph().num_vertices,
{
}

/// The smaller forests of the unmarking differential lie on the vertices of
/// the graph.
pub proof fn lemma_smaller_within(fg: ForestedGraph, du: UnmarkDifferential)
    requires
        fg.wf(),
        unmark_result(fg, du),
    ensures
        forall|k: int, i: int| 0 <= k < du.spec_smaller_forests().len() && #[trigger] bit(du.spec_smaller_forests()[k], i)
            ==> 0 <= i < fg.spec_graph().num_vertices,
{
    let n = fg.graph.num_vertices as int;
    let ps = fg.spec_perms();
    let subs = fg.spec_subforests();
    lemma_bits_all();
    assert forall|q: int| 0 <= q < ps.len() implies #[trigger] ps[q].len() >= n by {
        assert(ps[q] == fg.perms@[q]@);
        assert(maps_onto(fg.graph@, fg.perms@[q]@, fg.graph@));
    }
    assert forall|q: int, j: int| 0 <= q < ps.len() && 0 <= j < n implies #[trigger] ps[q][j] < n by {
        assert(ps[q] == fg.perms@[q]@);
        assert(maps_onto(fg.graph@, fg.perms@[q]@, fg.graph@));
        assert(is_perm(fg.perms@[q]@));
    }
    assert forall|k: int, i: int| 0 <= k < du.spec_smaller_forests().len() && #[trigger] bit(du.spec_smaller_forests()[k], i)
        implies 0 <= i < n by {
        let x = du.spec_smaller_forests()[k];
        assert(du.spec_smaller_forests().contains(x));
        let (a, t) = choose|a: int, t: int| 0 <= a < subs.len() && 0 <= t < popcount(subs[a])
            && #[trigger] canon_value(subs[a] & !(1u64 << (bits_seq(subs[a])[t] as u64)), ps) == Some(x);
        let mask = subs[a] & !(1u64 << (bits_seq(subs[a])[t] as u64));
        assert forall|j: int| #[trigger] bit(mask, j) implies j < n by {
            assert(bit(subs[a], j));
        }
        lemma_canon_bits(mask, ps, ps.len() as int, n);
    }
}

proof fn lemma_selected_prefix(s: Seq<u64>, keep: Seq<bool>, keep2: Seq<bool>, k: int)
    requires
        0 <= k <= keep.len(),
        k <= keep2.len(),
        forall|i: int| 0 <= i < k ==> keep[i] == keep2[i],
    ensures
        selected(s, keep2, k) == selected(s, keep, k),
    decreases k,
{
    if k > 0 {
        lemma_selected_prefix(s, keep, keep2, k - 1);
    }
}


/// `1` at even steps, `-1` at odd ones.
pub open spec fn alt_sign(t: int) -> i8 {
    if t % 2 == 0 {
        1i8
    } else {
        -1i8
    }
}

/// The column of the unmarking differential on `mask` after its first `t`
/// edges: unmarking the `t`-th edge gives the canonical form of the smaller
/// forest, whose sign times `alt_sign(t)` is added under it.
pub open spec fn unmark_column(mask: u64, perms: Seq<Seq<u8>>, t: int) -> Seq<(u64, i8)>
    decreases t,
{
    if t <= 0 {
        Seq::empty()
    } else {
        let prev = unmark_column(mask, perms, t - 1);
        let m = mask & !(1u64 << (bits_seq(mask)[t - 1] as u64));
        match canon_upto(m, perms, perms.len() as int) {
            None => prev,
            Some((f, s)) => added_to(prev, f, (s * alt_sign(t - 1)) as i8),
        }
    }
}

/// The views of the columns.
pub open spec fn column_views<T>(cols: Seq<Vec<(T, i8)>>) -> Seq<Seq<(T, i8)>> {
    cols.map_values(|c: Vec<(T, i8)>| c@)
}

/// A canonical form has sign 1 or -1.
proof fn lemma_canon_sign(mask: u64, perms: Seq<Seq<u8>>, k: int)
    ensures
        canon_upto(mask, perms, k) matches Some((x, s)) ==> s == 1 || s == -1,
    decreases k,
{
    if k > 0 {
        lemma_canon_sign(mask, perms, k - 1);
    }
}

/// Adding a value of size at most 1 to entries of size at most `t` leaves
/// entries of size at most `t + 1`.
proof fn lemma_added_bound<T>(l: Seq<(T, i8)>, k: T, v: i8, t: int)
    requires
        forall|j: int| 0 <= j < l.len() ==> -t <= #[trigger] l[j].1 <= t,
        -1 <= v <= 1,
        0 <= t <= 100,
    ensures
        forall|j: int| 0 <= j < added_to(l, k, v).len() ==> -(t + 1) <= #[trigger] added_to(l, k, v)[j].1 <= t + 1,
{
    let i = first_key(l, k, 0);
    lemma_first_key_range(l, k, 0);
    let r = added_to(l, k, v);
    assert forall|j: int| 0 <= j < r.len() implies -(t + 1) <= #[trigger] r[j].1 <= t + 1 by {
        if i < 0 {
            if j < l.len() {
                assert(r[j] == l[j]);
            }
        } else if l[i].1 + v == 0 {
            if j == i {
                assert(r[j] == l[l.len() - 1]);
            } else {
                assert(r[j] == l[j]);
            }
        } else {
            if j != i {
                assert(r[j] == l[j]);
            }
        }
    }
}

proof fn lemma_first_key_range<T>(l: Seq<(T, i8)>, k: T, j: int)
    requires
        0 <= j,
    ensures
        first_key(l, k, j) == -1 || (j <= first_key(l, k, j) < l.len() && l[first_key(l, k, j)].0 == k),
    decreases l.len() - j,
{
    if j < l.len() {
        lemma_first_key_range(l, k, j + 1);
    }
}

/// What the unmarking differential of a forested graph gives: a column for
/// each subforest, with the signed canonical forms of its smaller forests, and
/// the strictly increasing list of all those smaller forests.
pub open spec fn unmark_result(fg: ForestedGraph, r: UnmarkDifferential) -> bool {
    &&& r.wf()
    &&& r.spec_columns() == Seq::new(
        fg.spec_subforests().len(),
        |k: int| unmark_column(fg.spec_subforests()[k], fg.spec_perms(), crate::bits::popcount(fg.spec_subforests()[k]) as int),
    )
    &&& forall|a: int, b: int| 0 <= a < b < r.spec_smaller_forests().len() ==> r.spec_smaller_forests()[a] < r.spec_smaller_forests()[b]
    &&& forall|x: u64| #[trigger] r.spec_smaller_forests().contains(x) <==> exists|k: int, t: int|
        0 <= k < fg.spec_subforests().len() && 0 <= t < crate::bits::popcount(fg.spec_subforests()[k])
        && #[trigger] canon_value(fg.spec_subforests()[k] & !(1u64 << (bits_seq(fg.spec_subforests()[k])[t] as u64)), fg.spec_perms()) == Some(x)
}

/// The result of the unmarking differential on all subforests in a single graph.
pub struct UnmarkDifferential {
    /// All subforests obtained by unmarking an edge.
    smaller_forests: Vec<u64>,
    /// The columns of the differential - `(subforest, value)`.
    columns: Vec<Vec<(u64, i8)>>,
}

impl UnmarkDifferential {
    /// The smaller subforests.
    pub closed spec fn spec_smaller_forests(&self) -> Seq<u64> {
        self.smaller_forests@
    }

    /// The columns.
    pub closed spec fn spec_columns(&self) -> Seq<Seq<(u64, i8)>> {
        column_views(self.columns@)
    }

    /// The smaller forests are strictly increasing.
    pub open spec fn wf(&self) -> bool {
        strictly_sorted(self.spec_smaller_forests())
    }
}

/// Strictly increasing masks.
pub open spec fn strictly_sorted(s: Seq<u64>) -> bool {
    forall|a: int, b: int| 0 <= a < b < s.len() ==> s[a] < s[b]
}

/// The selected elements of a strictly increasing sequence are strictly
/// increasing, and none exceeds the last element of the prefix.
proof fn lemma_selected_sorted(s: Seq<u64>, keep: Seq<bool>, k: int)
    requires
        strictly_sorted(s),
        0 <= k <= s.len(),
        k <= keep.len(),
    ensures
        strictly_sorted(selected(s, keep, k)),
        k > 0 ==> forall|a: int| 0 <= a < selected(s, keep, k).len() ==> #[trigger] selected(s, keep, k)[a] <= s[k - 1],
    decreases k,
{
    if k > 0 {
        lemma_selected_sorted(s, keep, k - 1);
        let p = selected(s, keep, k - 1);
        if k > 1 {
            assert(s[k - 2] < s[k - 1]);
        }
        if keep[k - 1] {
            let q = p.push(s[k - 1]);
            assert forall|a: int| 0 <= a < q.len() implies #[trigger] q[a] <= s[k - 1] by {
                if a < p.len() {
                    assert(q[a] == p[a]);
                }
            }
            assert forall|a: int, b: int| 0 <= a < b < q.len() implies q[a] < q[b] by {
                assert(q[a] == p[a]);
                if b < p.len() {
                    assert(q[b] == p[b]);
                }
            }
        } else {
            assert forall|a: int| 0 <= a < p.len() implies #[trigger] p[a] <= s[k - 1] by {
            }
        }
    }
}

/// Binary search for a mask in a strictly increasing list.
pub(crate) fn find_sorted(v: &[u64], x: u64) -> (r: Option<usize>)
    requires
        strictly_sorted(v@),
    ensures
        match r {
            Some(j) => j < v@.len() && v@[j as int] == x,
            None => !v@.contains(x),
        },
{
    let mut lo: usize = 0;
    let mut hi: usize = v.len();
    while lo < hi
        invariant
            strictly_sorted(v@),
            lo <= hi <= v@.len(),
            forall|j: int| 0 <= j < lo ==> v@[j] < x,
            forall|j: int| hi <= j < v@.len() ==> v@[j] > x,
        decreases hi - lo,
    {
        let mid = lo + (hi - lo) / 2;
        let y = v[mid];
        if y == x {
            return Some(mid);
        } else if y < x {
            lo = mid + 1;
        } else {
            hi = mid;
        }
    }
    None
}

/// The position of a mask in a list.
pub open spec fn position_of(s: Seq<u64>, x: u64) -> int {
    choose|j: int| 0 <= j < s.len() && s[j] == x
}

/// The matrix entries of the first `t` entries of column `i`: an entry whose
/// forest is among the rows gives `(row + row_shift, i + col_shift, value)`.
pub open spec fn column_entries(col: Seq<(u64, i8)>, rows: Seq<u64>, i: int, col_shift: u32, row_shift: u32, t: int) -> Seq<(u32, u32, i8)>
    decreases t,
{
    if t <= 0 {
        Seq::empty()
    } else {
        let prev = column_entries(col, rows, i, col_shift, row_shift, t - 1);
        let (m, v) = col[t - 1];
        if rows.contains(m) {
            prev.push(((position_of(rows, m) + row_shift) as u32, (i + col_shift) as u32, v))
        } else {
            prev
        }
    }
}

/// The matrix entries of the first `k` columns.
pub open spec fn matrix_entries_upto(cols: Seq<Seq<(u64, i8)>>, rows: Seq<u64>, col_shift: u32, row_shift: u32, k: int) -> Seq<(u32, u32, i8)>
    decreases k,
{
    if k <= 0 {
        Seq::empty()
    } else {
        matrix_entries_upto(cols, rows, col_shift, row_shift, k - 1)
            + column_entries(cols[k - 1], rows, k - 1, col_shift, row_shift, cols[k - 1].len() as int)
    }
}

impl UnmarkDifferential {
    /// Return the list of subforests obtained by unmarking an edge.
    pub fn smaller_forests(&self) -> (r: &[u64])
        ensures
            r@ == self.spec_smaller_forests(),
    {
        self.smaller_forests.as_slice()
    }

    /// Return the list of signed unmarkings for each subforest.
    pub fn columns(&self) -> (r: &[Vec<(u64, i8)>])
        ensures
            column_views(r@) == self.spec_columns(),
    {
        self.columns.as_slice()
    }

    /// List the sparse matrix entries for this differential, with a shift of
    /// rows and columns: for the `i`-th column and each of its entries whose
    /// forest is the `j`-th smaller forest, `(j + row_shift, i + col_shift,
    /// value)`.
    pub fn matrix_entries(&self, col_shift: u32, row_shift: u32) -> (r: Vec<(u32, u32, i8)>)
        requires
            self.wf(),
            self.spec_smaller_forests().len() + row_shift <= u32::MAX + 1,
            self.spec_columns().len() + col_shift <= u32::MAX + 1,
        ensures
            r@ == matrix_entries_upto(self.spec_columns(), self.spec_smaller_forests(), col_shift, row_shift, self.spec_columns().len() as int),
    {
        let ghost cols = self.spec_columns();
        let ghost rows = self.spec_smaller_forests();
        let mut out: Vec<(u32, u32, i8)> = Vec::new();
        let mut i: usize = 0;
        while i < self.columns.len()
            invariant
                self.wf(),
                cols == self.spec_columns(),
                rows == self.spec_smaller_forests(),
                cols.len() == self.columns@.len(),
                rows.len() + row_shift <= u32::MAX + 1,
                cols.len() + col_shift <= u32::MAX + 1,
                i <= cols.len(),
                out@ == matrix_entries_upto(cols, rows, col_shift, row_shift, i as int),
            decreases cols.len() - i,
        {
            let col = &self.columns[i];
            proof {
                assert(cols[i as int] == col@);
            }
            let ghost base = out@;
            let mut t: usize = 0;
            while t < col.len()
                invariant
                    strictly_sorted(rows),
                    rows == self.smaller_forests@,
                    rows.len() + row_shift <= u32::MAX + 1,
                    i + col_shift <= u32::MAX,
                    t <= col@.len(),
                    out@ == base + column_entries(col@, rows, i as int, col_shift, row_shift, t as int),
                decreases col@.len() - t,
            {
                let (m, v) = col[t];
                match find_sorted(self.smaller_forests.as_slice(), m) {
                    Some(j) => {
                        proof {
                            assert(rows.contains(m));
                            let p = position_of(rows, m);
                            assert(0 <= p < rows.len() && rows[p] == m);
                            assert(p == j as int) by {
                                if p < j {
                                    assert(rows[p] < rows[j as int]);
                                } else if p > j {
                                    assert(rows[j as int] < rows[p]);
                                }
                            }
                        }
                        let e = ((j as u32) + row_shift, (i as u32) + col_shift, v);
                        out.push(e);
                        proof {
                            assert(out@ =~= base + column_entries(col@, rows, i as int, col_shift, row_shift, t as int + 1));
                        }
                    },
                    None => {
                        proof {
                            assert(out@ =~= base + column_entries(col@, rows, i as int, col_shift, row_shift, t as int + 1));
                        }
                    },
                }
                t = t + 1;
            }
            i = i + 1;
        }
        out
    }

    /// Keep the smaller forests whose flag is set; the columns are kept whole.
    pub fn select(self, keep: &Vec<bool>) -> (r: Self)
        requires
            self.wf(),
            keep@.len() == self.spec_smaller_forests().len(),
        ensures
            r.wf(),
            r.spec_columns() == self.spec_columns(),
            r.spec_smaller_forests() == selected(self.spec_smaller_forests(), keep@, keep@.len() as int),
    {
        let ghost src = self.smaller_forests@;
        let mut kept: Vec<u64> = Vec::new();
        let mut k: usize = 0;
        while k < self.smaller_forests.len()
            invariant
                src == self.smaller_forests@,
                keep@.len() == src.len(),
                k <= src.len(),
                kept@ == selected(src, keep@, k as int),
            decreases src.len() - k,
        {
            let x = self.smaller_forests[k];
            if keep[k] {
                kept.push(x);
            }
            k = k + 1;
        }
        proof {
            lemma_selected_sorted(src, keep@, keep@.len() as int);
        }
        UnmarkDifferential { smaller_forests: kept, columns: self.columns }
    }

    /// Keep only the smaller forests that satisfy the given predicate; the
    /// columns are kept whole.
    pub fn filter<F: Fn(u64) -> bool>(self, f: F) -> (r: Self)
        requires
            self.wf(),
            forall|x: u64| #[trigger] f.requires((x,)),
        ensures
            r.wf(),
            r.spec_columns() == self.spec_columns(),
            exists|keep: Seq<bool>| {
                &&& keep.len() == self.spec_smaller_forests().len()
                &&& forall|i: int| 0 <= i < keep.len() ==> #[trigger] f.ensures((self.spec_smaller_forests()[i],), keep[i])
                &&& r.spec_smaller_forests() == selected(self.spec_smaller_forests(), keep, keep.len() as int)
            },
    {
        let ghost src = self.smaller_forests@;
        let mut kept: Vec<u64> = Vec::new();
        let ghost mut keep: Seq<bool> = Seq::empty();
        let mut k: usize = 0;
        while k < self.smaller_forests.len()
            invariant
                src == self.smaller_forests@,
                forall|x: u64| #[trigger] f.requires((x,)),
                k <= src.len(),
                keep.len() == k,
                forall|i: int| 0 <= i < k ==> #[trigger] f.ensures((src[i],), keep[i]),
                kept@ == selected(src, keep, k as int),
            decreases src.len() - k,
        {
            let x = self.smaller_forests[k];
            let b = f(x);
            if b {
                kept.push(x);
            }
            proof {
                let keep2 = keep.push(b);
                lemma_selected_prefix(src, keep, keep2, k as int);
                assert forall|i: int| 0 <= i < k + 1 implies #[trigger] f.ensures((src[i],), keep2[i]) by {
                    if i < k {
                        assert(keep2[i] == keep[i]);
                    }
                }
                keep = keep2;
            }
            k = k + 1;
        }
        proof {
            lemma_selected_sorted(src, keep, keep.len() as int);
        }
        UnmarkDifferential { smaller_forests: kept, columns: self.columns }
    }
}

impl ForestedGraph {
    /// Compute the unmarking differential: for each subforest, the signed
    /// canonical forms of the forests obtained by unmarking one of its edges.
    pub fn d_unmark(&self) -> (r: UnmarkDifferential)
        requires
            self.wf(),
        ensures
            unmark_result(*self, r),
    {
        let ghost ps = perm_views(self.perms@);
        let ghost n = self.graph.num_vertices as int;
        let ghost subs = self.subforests@;
        let mut smaller = new_mask_set();
        let mut columns: Vec<Vec<(u64, i8)>> = Vec::new();
        let mut k: usize = 0;
        proof {
            assert forall|q: int| 0 <= q < ps.len() implies #[trigger] ps[q].len() >= n by {
                assert(ps[q] == self.perms@[q]@);
                assert(maps_onto(self.graph@, self.perms@[q]@, self.graph@));
            }
            assert forall|q: int, j: int| 0 <= q < ps.len() && 0 <= j < n implies #[trigger] ps[q][j] < n by {
                assert(ps[q] == self.perms@[q]@);
                assert(maps_onto(self.graph@, self.perms@[q]@, self.graph@));
                assert(is_perm(self.perms@[q]@));
            }
        }
        while k < self.subforests.len()
            invariant
                self.wf(),
                ps == perm_views(self.perms@),
                n == self.graph.num_vertices,
                subs == self.subforests@,
                forall|q: int| 0 <= q < ps.len() ==> #[trigger] ps[q].len() >= n,
                forall|q: int, j: int| 0 <= q < ps.len() && 0 <= j < n ==> #[trigger] ps[q][j] < n,
                k <= subs.len(),
                columns@.len() == k,
                column_views(columns@) == Seq::new(k as nat, |a: int| unmark_column(subs[a], ps, crate::bits::popcount(subs[a]) as int)),
                forall|x: u64| #[trigger] smaller@.contains(x) <==> exists|a: int, t: int|
                    0 <= a < k && 0 <= t < crate::bits::popcount(subs[a])
                    && #[trigger] canon_value(subs[a] & !(1u64 << (bits_seq(subs[a])[t] as u64)), ps) == Some(x),
            decreases subs.len() - k,
        {
            let mask = self.subforests[k];
            let pos = bit_positions(mask);
            proof {
                lemma_bits_seq(mask);
                lemma_bits_all();
            }
            let mut col: Vec<(u64, i8)> = Vec::new();
            let mut sign: i8 = 1;
            let ghost set0 = smaller@;
            let mut t: usize = 0;
            while t < pos.len()
                invariant
                    self.wf(),
                    ps == perm_views(self.perms@),
                    n == self.graph.num_vertices,
                    n < 64,
                    subs == self.subforests@,
                    k < subs.len(),
                    mask == subs[k as int],
                    forall|j: int| #[trigger] bit(mask, j) ==> j < n,
                    forall|q: int| 0 <= q < ps.len() ==> #[trigger] ps[q].len() >= n,
                    forall|q: int, j: int| 0 <= q < ps.len() && 0 <= j < n ==> #[trigger] ps[q][j] < n,
                    pos@.len() == bits_seq(mask).len(),
                    bits_seq(mask).len() <= 64,
                    forall|s: int| 0 <= s < pos@.len() ==> #[trigger] pos@[s] as int == bits_seq(mask)[s],
                    forall|s: int| 0 <= s < bits_seq(mask).len() ==> bit(mask, #[trigger] bits_seq(mask)[s]),
                    t <= pos@.len(),
                    sign == alt_sign(t as int),
                    col@ == unmark_column(mask, ps, t as int),
                    forall|j: int| 0 <= j < col@.len() ==> -(t as int) <= #[trigger] col@[j].1 <= t,
                    forall|x: u64| #[trigger] smaller@.contains(x) <==> (set0.contains(x) || exists|s: int|
                        0 <= s < t && #[trigger] canon_value(mask & !(1u64 << (bits_seq(mask)[s] as u64)), ps) == Some(x)),
                decreases pos@.len() - t,
            {
                let i = pos[t];
                proof {
                    assert(bit(mask, bits_seq(mask)[t as int]));
                }
                let m = mask & !(1u64 << (i as u64));
                proof {
                    lemma_bits_all();
                    assert forall|q: int, j: int| 0 <= q < ps.len() && #[trigger] bit(m, j) implies j < ps[q].len() && #[trigger] ps[q][j] < 64 by {
                        assert(bit(mask, j));
                        assert(ps[q].len() >= n);
                    }
                }
                let cs = canonical_subforest(m, self.perms.as_slice());
                let ghost before = smaller@;
                let ghost col0 = col@;
                match cs {
                    Some((f, s)) => {
                        proof {
                            lemma_canon_sign(m, ps, ps.len() as int);
                            lemma_first_key_range(col0, f, 0);
                            lemma_added_bound(col0, f, (s * sign) as i8, t as int);
                            if first_key(col0, f, 0) >= 0 {
                                assert(-(t as int) <= col0[first_key(col0, f, 0)].1 <= t);
                            }
                        }
                        let _ = mask_set_insert(&mut smaller, f);
                        add_or_push(&mut col, f, s * sign);
                    },
                    None => {},
                }
                proof {
                    assert forall|x: u64| #[trigger] smaller@.contains(x) <==> (set0.contains(x) || exists|s: int|
                        0 <= s < t + 1 && #[trigger] canon_value(mask & !(1u64 << (bits_seq(mask)[s] as u64)), ps) == Some(x)) by {
                        if exists|s: int| 0 <= s < t + 1 && #[trigger] canon_value(mask & !(1u64 << (bits_seq(mask)[s] as u64)), ps) == Some(x) {
                            let s = choose|s: int| 0 <= s < t + 1 && #[trigger] canon_value(mask & !(1u64 << (bits_seq(mask)[s] as u64)), ps) == Some(x);
                            if s == t {
                                assert(canon_value(m, ps) == Some(x));
                            }
                        }
                        if smaller@.contains(x) && !before.contains(x) {
                            assert(canon_value(mask & !(1u64 << (bits_seq(mask)[t as int] as u64)), ps) == Some(x));
                        }
                    }
                    assert forall|j: int| 0 <= j < col@.len() implies -(t + 1) <= #[trigger] col@[j].1 <= t + 1 by {
                        if cs is None {
                            assert(col@ == col0);
                        }
                    }
                }
                sign = -sign;
                t = t + 1;
            }
            proof {
                lemma_bits_seq(mask);
            }
            let ghost cols0 = columns@;
            columns.push(col);
            proof {
                assert(column_views(columns@) =~= Seq::new((k + 1) as nat, |a: int| unmark_column(subs[a], ps, crate::bits::popcount(subs[a]) as int))) by {
                    assert forall|a: int| 0 <= a < k + 1 implies #[trigger] column_views(columns@)[a] == unmark_column(subs[a], ps, crate::bits::popcount(subs[a]) as int) by {
                        if a < k {
                            assert(columns@[a] == cols0[a]);
                            assert(column_views(cols0)[a] == unmark_column(subs[a], ps, crate::bits::popcount(subs[a]) as int));
                        }
                    }
                }
                assert forall|x: u64| #[trigger] smaller@.contains(x) <==> exists|a: int, t: int|
                    0 <= a < k + 1 && 0 <= t < crate::bits::popcount(subs[a])
                    && #[trigger] canon_value(subs[a] & !(1u64 << (bits_seq(subs[a])[t] as u64)), ps) == Some(x) by {
                    if set0.contains(x) {
                        let (a, tt) = choose|a: int, tt: int| 0 <= a < k && 0 <= tt < crate::bits::popcount(subs[a])
                            && #[trigger] canon_value(subs[a] & !(1u64 << (bits_seq(subs[a])[tt] as u64)), ps) == Some(x);
                    }
                    if exists|a: int, tt: int| 0 <= a < k + 1 && 0 <= tt < crate::bits::popcount(subs[a])
                        && #[trigger] canon_value(subs[a] & !(1u64 << (bits_seq(subs[a])[tt] as u64)), ps) == Some(x) {
                        let (a, tt) = choose|a: int, tt: int| 0 <= a < k + 1 && 0 <= tt < crate::bits::popcount(subs[a])
                            && #[trigger] canon_value(subs[a] & !(1u64 << (bits_seq(subs[a])[tt] as u64)), ps) == Some(x);
                        if a < k {
                            assert(set0.contains(x));
                        }
                    }
                }
            }
            k = k + 1;
        }
        let v = mask_set_into_vec(smaller);
        let smaller_forests = sorted_unique(v);
        proof {
            assert forall|x: u64| #[trigger] smaller_forests@.contains(x) <==> smaller@.contains(x) by {
                assert(v@.contains(x) <==> v@.to_set().contains(x));
            }
        }
        UnmarkDifferential { smaller_forests, columns }
    }
}


/// `canon` is the canonical form of the contraction of the neighbourhood of
/// `i` in `g` (its rows are the canonical rows, which isomorphic graphs
/// share), and `to_canon` sends the vertices of `g` to those of `canon`.
pub open spec fn contraction_entry(g: Graph, i: int, to_canon: Seq<u8>, canon: Graph) -> bool {
    exists|h: Graph, m: Seq<u8>, base: Seq<u8>| {
        &&& #[trigger] is_nbhd_contraction(g, i, h, m)
        &&& canon.built_from(h.num_vertices as nat, permuted_edges(h@, base))
        &&& #[trigger] maps_onto(h@, base, canon@)
        &&& to_canon == compose_spec(m, base)
        &&& search_done(h, no_colours(h.num_vertices as int))
        &&& canon.adj@ == canon_score(h, no_colours(h.num_vertices as int))
    }
}

/// Contracting the neighbourhood of `i1` in `g1` and that of `i2` in `g2`
/// gives isomorphic graphs, of fewer than 64 vertices.
pub open spec fn contractions_isomorphic(g1: Graph, i1: int, g2: Graph, i2: int) -> bool {
    forall|h1: Graph, m1: Seq<u8>, h2: Graph, m2: Seq<u8>|
        #[trigger] is_nbhd_contraction(g1, i1, h1, m1) && #[trigger] is_nbhd_contraction(g2, i2, h2, m2)
            ==> h1.wf() && h2.wf() && h1.num_vertices < 64 && crate::canon::isomorphic(h1@, h2@)
}

/// Two entries of the contracting differential whose contracted graphs are
/// isomorphic carry the same canonical rows: they name one row of `d_c`.
pub proof fn lemma_isomorphic_contractions_share_rows(
    g1: Graph,
    i1: int,
    t1: Seq<u8>,
    c1: Graph,
    g2: Graph,
    i2: int,
    t2: Seq<u8>,
    c2: Graph,
)
    requires
        contraction_entry(g1, i1, t1, c1),
        contraction_entry(g2, i2, t2, c2),
        contractions_isomorphic(g1, i1, g2, i2),
    ensures
        c1.adj@ == c2.adj@,
{
    let (h1, m1, b1) = choose|h: Graph, m: Seq<u8>, base: Seq<u8>| {
        &&& #[trigger] is_nbhd_contraction(g1, i1, h, m)
        &&& c1.built_from(h.num_vertices as nat, permuted_edges(h@, base))
        &&& #[trigger] maps_onto(h@, base, c1@)
        &&& t1 == compose_spec(m, base)
        &&& search_done(h, no_colours(h.num_vertices as int))
        &&& c1.adj@ == canon_score(h, no_colours(h.num_vertices as int))
    };
    let (h2, m2, b2) = choose|h: Graph, m: Seq<u8>, base: Seq<u8>| {
        &&& #[trigger] is_nbhd_contraction(g2, i2, h, m)
        &&& c2.built_from(h.num_vertices as nat, permuted_edges(h@, base))
        &&& #[trigger] maps_onto(h@, base, c2@)
        &&& t2 == compose_spec(m, base)
        &&& search_done(h, no_colours(h.num_vertices as int))
        &&& c2.adj@ == canon_score(h, no_colours(h.num_vertices as int))
    };
    assert(h1.wf() && h2.wf() && h1.num_vertices < 64 && crate::canon::isomorphic(h1@, h2@));
    let p = choose|perm: Seq<u8>| #[trigger] maps_onto(h1@, perm, h2@);
    assert forall|v: int| 0 <= v < h1.num_vertices implies #[trigger] no_colours(h2.num_vertices as int)[p[v] as int]
        == no_colours(h1.num_vertices as int)[v] by {
        assert(p[v] < p.len());
    }
    lemma_canonical_form(h1, no_colours(h1.num_vertices as int), p, h2, no_colours(h2.num_vertices as int));
}

/// `to_canon` sends the vertices of `g` to a canonical form of the
/// contraction of the neighbourhood of `i` that has the graph6 text and order
/// of `named`.
pub open spec fn entry_for(g: Graph, i: int, to_canon: Seq<u8>, named: Graph) -> bool {
    exists|canon: Graph| {
        &&& #[trigger] contraction_entry(g, i, to_canon, canon)
        &&& g6_text(canon) == g6_text(named)
        &&& canon.num_vertices == named.num_vertices
    }
}

/// The graph6 text of a graph.
pub open spec fn g6_text(g: Graph) -> Seq<char> {
    g6_bytes(g@).map_values(|b: u8| b as char)
}

/// Unmarking the `t`-th edge of `mask` and contracting its neighbourhood:
/// `idx[i]` gives the contracted graph `j` of edge `i` and its relabelling, and
/// `gperms[j]` the automorphisms of that graph. The result is the graph, the
/// canonical form of the image of the smaller forest, and its sign times the
/// sign of the relabelling on that forest; `None` where the image has an odd
/// automorphism.
pub open spec fn contract_step(mask: u64, idx: Seq<(int, Seq<u8>)>, gperms: Seq<Seq<Seq<u8>>>, t: int) -> Option<(int, u64, i8)> {
    let i = bits_seq(mask)[t];
    let m0 = mask & !(1u64 << (i as u64));
    let j = idx[i].0;
    let tc = idx[i].1;
    match canon_upto(mask_image(m0, tc), gperms[j], gperms[j].len() as int) {
        None => None,
        Some((f, s)) => Some((j, f, (s * mask_sign(m0, tc)) as i8)),
    }
}

/// Whether the `t`-th step of `mask` gives the forest `x` of graph `j`.
pub open spec fn contract_hits(mask: u64, idx: Seq<(int, Seq<u8>)>, gperms: Seq<Seq<Seq<u8>>>, t: int, j: int, x: u64) -> bool {
    match contract_step(mask, idx, gperms, t) {
        Some((j2, f, s)) => j2 == j && f == x,
        None => false,
    }
}

/// The column of the contracting differential on `mask` after its first `t`
/// edges.
pub open spec fn contract_column(mask: u64, idx: Seq<(int, Seq<u8>)>, gperms: Seq<Seq<Seq<u8>>>, t: int) -> Seq<((usize, u64), i8)>
    decreases t,
{
    if t <= 0 {
        Seq::empty()
    } else {
        let prev = contract_column(mask, idx, gperms, t - 1);
        match contract_step(mask, idx, gperms, t - 1) {
            None => prev,
            Some((j, f, s)) => added_to(prev, (j as usize, f), (s * alt_sign(t - 1)) as i8),
        }
    }
}

/// The result of the contracting differential on all subforests in a single graph.
pub struct ContractDifferential {
    /// Graph6 text of all contracted graphs, along with their subforests.
    contracted_graphs: Vec<(String, Vec<u64>)>,
    /// The columns of the differential - `((graph_index, subforest), value)`.
    columns: Vec<Vec<((usize, u64), i8)>>,
}

/// The views of the contracted graphs and their forests.
pub open spec fn contracted_views(cs: Seq<(String, Vec<u64>)>) -> Seq<(Seq<char>, Seq<u64>)> {
    cs.map_values(|c: (String, Vec<u64>)| (c.0@, c.1@))
}

impl ContractDifferential {
    /// The contracted graphs, as graph6 text, with their forests.
    pub closed spec fn spec_contracted(&self) -> Seq<(Seq<char>, Seq<u64>)> {
        contracted_views(self.contracted_graphs@)
    }

    /// The columns.
    pub closed spec fn spec_columns(&self) -> Seq<Seq<((usize, u64), i8)>> {
        column_views(self.columns@)
    }

    pub fn contracted_graphs(&self) -> (r: &[(String, Vec<u64>)])
        ensures
            contracted_views(r@) == self.spec_contracted(),
    {
        self.contracted_graphs.as_slice()
    }

    pub fn columns(&self) -> (r: &[Vec<((usize, u64), i8)>])
        ensures
            column_views(r@) == self.spec_columns(),
    {
        self.columns.as_slice()
    }
}

/// What the contracting differential asks of a forested graph beyond being
/// well formed: the subforests lie on its edges, and contracting the
/// neighbourhood of an edge gives a graph whose keys fit, of at most 62
/// vertices.
pub open spec fn contract_ready(fg: ForestedGraph) -> bool {
    &&& forall|k: int, j: int| 0 <= k < fg.spec_subforests().len() && #[trigger] bit(fg.spec_subforests()[k], j) ==> bit(fg.spec_edges(), j)
    &&& forall|i: int, h: Graph, m: Seq<u8>| bit(fg.spec_edges(), i) && #[trigger] is_nbhd_contraction(fg.spec_graph(), i, h, m) ==> h.keys_fit() && h.num_vertices <= 62
}

/// Two contractions of the same neighbourhood give graphs of the same order
/// whose histogram keys fit alike.
proof fn lemma_contraction_unique(g: Graph, v: int, h1: Graph, m1: Seq<u8>, h2: Graph, m2: Seq<u8>)
    requires
        is_nbhd_contraction(g, v, h1, m1),
        is_nbhd_contraction(g, v, h2, m2),
    ensures
        h1.num_vertices == h2.num_vertices,
        h1.keys_fit() == h2.keys_fit(),
{
    assert forall|a: (u8, u8), b: (u8, u8)| a.key_spec() == b.key_spec() implies a == b by {}
    crate::sort::lemma_sorted_by_key_unique(h1.edges@, h2.edges@);
    assert(h1@ == h2@);
}

impl ForestedGraph {
    /// Whether the forested graph can be contracted as `d_contract` asks:
    /// every subforest lies on the edge vertices, and contracting the
    /// neighbourhood of any edge vertex gives at most 62 vertices whose
    /// histogram keys fit.
    pub fn check_contract_ready(&self) -> (r: bool)
        requires
            self.wf(),
        ensures
            r == contract_ready(*self),
    {
        let mut k: usize = 0;
        while k < self.subforests.len()
            invariant
                k <= self.subforests@.len(),
                forall|a: int, j: int| 0 <= a < k && #[trigger] bit(self.subforests@[a], j) ==> bit(self.edges, j),
            decreases self.subforests@.len() - k,
        {
            let m = self.subforests[k];
            proof {
                lemma_bits_all();
            }
            if m & !self.edges != 0 {
                proof {
                    crate::bits::lemma_bit_zero();
                    if forall|j: int| #[trigger] bit(m, j) ==> bit(self.edges, j) {
                        assert forall|j: int| 0 <= j < 64 implies (bit(m & !self.edges, j) <==> bit(0u64, j)) by {}
                        lemma_bits_ext(m & !self.edges, 0);
                    }
                    let j = choose|j: int| !(#[trigger] bit(m, j) ==> bit(self.edges, j));
                    assert(self.spec_subforests()[k as int] == m);
                    assert(bit(self.spec_subforests()[k as int], j) && !bit(self.spec_edges(), j));
                    assert(!contract_ready(*self));
                }
                return false;
            }
            proof {
                crate::bits::lemma_bit_zero();
                assert forall|j: int| #[trigger] bit(m, j) implies bit(self.edges, j) by {
                    if 0 <= j < 64 {
                        assert(!bit(m & !self.edges, j));
                    } else {
                        crate::bits::lemma_bits_seq(m);
                        assert(bits_seq(m).contains(j));
                    }
                }
            }
            k = k + 1;
        }
        let n = self.graph.num_vertices;
        let mut i: u8 = 0;
        while i < n
            invariant
                self.wf(),
                n == self.graph.num_vertices,
                i <= n,
                forall|a: int, j: int| 0 <= a < self.subforests@.len() && #[trigger] bit(self.subforests@[a], j) ==> bit(self.edges, j),
                forall|x: int, h: Graph, m: Seq<u8>| 0 <= x < i && bit(self.edges, x) && #[trigger] is_nbhd_contraction(self.graph, x, h, m)
                    ==> h.keys_fit() && h.num_vertices <= 62,
            decreases n - i,
        {
            if self.edges & (1u64 << i) != 0 {
                proof {
                    lemma_bits_all();
                    crate::bits::lemma_bit_single(i as u64);
                    crate::bits::lemma_bit_zero();
                    assert(bit(self.edges, i as int)) by {
                        if !bit(self.edges, i as int) {
                            assert forall|x: int| 0 <= x < 64 implies (bit(self.edges & (1u64 << i), x) <==> bit(0u64, x)) by {}
                            lemma_bits_ext(self.edges & (1u64 << i), 0);
                        }
                    }
                }
                let (h, map) = self.graph.contract_neighborhood(i);
                if h.num_vertices > 62 || !h.check_keys_fit() {
                    proof {
                        assert(bit(self.spec_edges(), i as int) && is_nbhd_contraction(self.spec_graph(), i as int, h, map@));
                        assert(!contract_ready(*self));
                    }
                    return false;
                }
                proof {
                    assert forall|x: int, h2: Graph, m2: Seq<u8>| 0 <= x < i + 1 && bit(self.edges, x) && #[trigger] is_nbhd_contraction(self.graph, x, h2, m2)
                        implies h2.keys_fit() && h2.num_vertices <= 62 by {
                        if x == i {
                            lemma_contraction_unique(self.graph, x, h, map@, h2, m2);
                        }
                    }
                }
            } else {
                proof {
                    lemma_bits_all();
                    crate::bits::lemma_bit_single(i as u64);
                    assert(!bit(self.edges, i as int)) by {
                        assert(!bit(self.edges & (1u64 << i), i as int)) by {
                            crate::bits::lemma_bit_zero();
                        }
                    }
                }
            }
            i = i + 1;
        }
        proof {
            assert forall|x: int, h: Graph, m: Seq<u8>| bit(self.edges, x) && #[trigger] is_nbhd_contraction(self.graph, x, h, m)
                implies h.keys_fit() && h.num_vertices <= 62 by {
                assert(x < n);
                crate::bits::lemma_bits_seq(self.edges);
                assert(bits_seq(self.edges).contains(x));
            }
        }
        true
    }
}

/// Adding to a list keeps its keys below a bound when the new key is below it.
proof fn lemma_added_to_bound(l: Seq<((usize, u64), i8)>, k: (usize, u64), v: i8, bound: int)
    requires
        forall|e: int| 0 <= e < l.len() ==> (#[trigger] l[e]).0.0 < bound,
        k.0 < bound,
    ensures
        forall|e: int| 0 <= e < added_to(l, k, v).len() ==> (#[trigger] added_to(l, k, v)[e]).0.0 < bound,
{
    let i = first_key(l, k, 0);
    lemma_first_key_range(l, k, 0);
    let r = added_to(l, k, v);
    assert forall|e: int| 0 <= e < r.len() implies (#[trigger] r[e]).0.0 < bound by {
        if i < 0 {
            if e < l.len() {
                assert(r[e] == l[e]);
            }
        } else if l[i].1 + v == 0 {
            if e == i {
                assert(r[e] == l[l.len() - 1]);
            } else {
                assert(r[e] == l[e]);
            }
        } else {
            if e != i {
                assert(r[e] == l[e]);
            }
        }
    }
}

/// Every term of a contracting column names a graph below `bound` when each
/// step does.
proof fn lemma_contract_column_bound(mask: u64, idx: Seq<(int, Seq<u8>)>, gperms: Seq<Seq<Seq<u8>>>, t: int, bound: int)
    requires
        forall|s: int| 0 <= s < t ==> (#[trigger] contract_step(mask, idx, gperms, s) matches Some((j, f, v)) ==> 0 <= j < bound),
    ensures
        forall|e: int| 0 <= e < contract_column(mask, idx, gperms, t).len() ==> (#[trigger] contract_column(mask, idx, gperms, t)[e]).0.0 < bound,
    decreases t,
{
    if t > 0 {
        lemma_contract_column_bound(mask, idx, gperms, t - 1, bound);
        let prev = contract_column(mask, idx, gperms, t - 1);
        match contract_step(mask, idx, gperms, t - 1) {
            None => {},
            Some((j, f, s)) => {
                lemma_added_to_bound(prev, (j as usize, f), (s * alt_sign(t - 1)) as i8, bound);
            },
        }
    }
}

/// The terms of a contracting differential name its contracted graphs.
pub proof fn lemma_contract_indices(fg: ForestedGraph, r: ContractDifferential, idx: Seq<(int, Seq<u8>)>, gs: Seq<Graph>, gperms: Seq<Seq<Seq<u8>>>)
    requires
        contract_ready(fg),
        contract_result(fg, r, idx, gs, gperms),
    ensures
        forall|c: int, t: int| 0 <= c < r.spec_columns().len() && 0 <= t < r.spec_columns()[c].len() ==>
            (#[trigger] r.spec_columns()[c][t]).0.0 < r.spec_contracted().len(),
{
    let subs = fg.spec_subforests();
    let bound = r.spec_contracted().len() as int;
    assert forall|c: int, t: int| 0 <= c < r.spec_columns().len() && 0 <= t < r.spec_columns()[c].len() implies
        (#[trigger] r.spec_columns()[c][t]).0.0 < bound by {
        let mask = subs[c];
        lemma_bits_seq(mask);
        assert forall|s: int| 0 <= s < popcount(mask) implies (#[trigger] contract_step(mask, idx, gperms, s) matches Some((j, f, v)) ==> 0 <= j < bound) by {
            let i = bits_seq(mask)[s];
            assert(bits_seq(mask).contains(i));
            assert(bit(mask, i));
            assert(bit(fg.spec_edges(), i));
        }
        lemma_contract_column_bound(mask, idx, gperms, popcount(mask) as int, bound);
        assert(r.spec_columns()[c] == contract_column(mask, idx, gperms, popcount(mask) as int));
    }
}

/// Some edge of the mask is sent to graph `j`.
pub open spec fn index_used(edges: u64, idx: Seq<(int, Seq<u8>)>, j: int) -> bool {
    exists|i: int| #[trigger] bit(edges, i) && idx[i].0 == j
}

/// What the contracting differential of a forested graph gives, for the
/// contracted graphs `gs` with automorphisms `gperms` and the entries `idx` of
/// the edges.
pub open spec fn contract_result(
    fg: ForestedGraph,
    r: ContractDifferential,
    idx: Seq<(int, Seq<u8>)>,
    gs: Seq<Graph>,
    gperms: Seq<Seq<Seq<u8>>>,
) -> bool {
    let g = fg.spec_graph();
    let subs = fg.spec_subforests();
    let cs = r.spec_contracted();
    &&& gs.len() == gperms.len() == cs.len()
    &&& idx.len() == g.num_vertices
    &&& forall|j: int| 0 <= j < gs.len() ==> #[trigger] cs[j].0 == g6_text(gs[j])
    &&& forall|j: int, q: int| 0 <= j < gs.len() && 0 <= q < gperms[j].len() ==> #[trigger] maps_onto(gs[j]@, gperms[j][q], gs[j]@)
    &&& forall|a: int, b: int| 0 <= a < b < gs.len() ==> cs[a].0 != cs[b].0
    &&& forall|i: int| #[trigger] bit(fg.spec_edges(), i) ==> 0 <= idx[i].0 < gs.len() && entry_for(g, i, idx[i].1, gs[idx[i].0])
    &&& forall|j: int| 0 <= j < gs.len() ==> #[trigger] index_used(fg.spec_edges(), idx, j)
    &&& r.spec_columns() == Seq::new(subs.len(), |k: int| contract_column(subs[k], idx, gperms, popcount(subs[k]) as int))
    &&& forall|j: int| 0 <= j < cs.len() ==> (#[trigger] cs[j].1).no_duplicates()
    &&& forall|j: int, x: u64| 0 <= j < cs.len() ==> (#[trigger] cs[j].1.contains(x) <==> exists|k: int, t: int|
        0 <= k < subs.len() && 0 <= t < popcount(subs[k]) && #[trigger] contract_hits(subs[k], idx, gperms, t, j, x))
}


/// One of the first `t` edges is sent to graph `j`.
pub open spec fn seen_graph(idx: Seq<(usize, Vec<u8>)>, edges: u64, t: int, j: int) -> bool {
    exists|s: int| 0 <= s < t && #[trigger] idx[bits_seq(edges)[s]].0 == j
}

/// A contracted graph as kept: well formed with at most 62 vertices, its
/// graph6 text, and automorphisms of it.
pub open spec fn contracted_ok(cg: Graph, entry: (String, Vec<Vec<u8>>)) -> bool {
    &&& cg.wf()
    &&& cg.num_vertices <= 62
    &&& entry.0@ == g6_text(cg)
    &&& forall|q: int| 0 <= q < entry.1@.len() ==> #[trigger] maps_onto(cg@, entry.1@[q]@, cg@)
}

/// The entry of edge `i`: a contracted graph and the relabelling of `g` into
/// it.
pub open spec fn index_ok(g: Graph, i: int, entry: (usize, Vec<u8>), gs: Seq<Graph>) -> bool {
    &&& entry.0 < gs.len()
    &&& entry_for(g, i, entry.1@, gs[entry.0 as int])
    &&& entry.1@.len() == g.num_vertices
    &&& forall|a: int| 0 <= a < g.num_vertices ==> #[trigger] entry.1@[a] < gs[entry.0 as int].num_vertices
}

impl ForestedGraph {
    /// Compute the contracting differential: for each subforest and each of its
    /// edges, the neighbourhood of the edge is contracted, and the rest of the
    /// forest, in the canonical form of the contracted graph, is added with
    /// its sign.
    #[verifier::rlimit(100)]
    pub fn d_contract(&self) -> (r: ContractDifferential)
        requires
            self.wf(),
            forall|k: int, j: int| 0 <= k < self.spec_subforests().len() && #[trigger] bit(self.spec_subforests()[k], j) ==> bit(self.spec_edges(), j),
            forall|i: int, h: Graph, m: Seq<u8>| bit(self.spec_edges(), i) && #[trigger] is_nbhd_contraction(self.spec_graph(), i, h, m) ==> h.keys_fit() && h.num_vertices <= 62,
        ensures
            exists|idx: Seq<(int, Seq<u8>)>, gs: Seq<Graph>, gperms: Seq<Seq<Seq<u8>>>| contract_result(*self, r, idx, gs, gperms),
    {
        let n = self.graph.num_vertices;
        let ghost g = self.graph;
        let ghost edges = self.edges;
        let mut contracted: Vec<(String, Vec<Vec<u8>>)> = Vec::new();
        let mut sets: Vec<FxHashSet<u64>> = Vec::new();
        let ghost mut gs: Seq<Graph> = Seq::empty();
        let mut indices: Vec<(usize, Vec<u8>)> = Vec::new();
        let mut v: u8 = 0;
        while v < n
            invariant
                v <= n,
                indices@.len() == v,
            decreases n - v,
        {
            indices.push((0, Vec::new()));
            v = v + 1;
        }
        let pos = bit_positions(self.edges);
        proof {
            lemma_bits_seq(edges);
            lemma_bits_all();
            assert forall|i: int, h: Graph, m: Seq<u8>| bit(edges, i) && #[trigger] is_nbhd_contraction(g, i, h, m) implies h.keys_fit() && h.num_vertices <= 62 by {
                assert(is_nbhd_contraction(self.spec_graph(), i, h, m));
            }
        }
        let mut t: usize = 0;
        while t < pos.len()
            invariant
                self.wf(),
                g == self.graph,
                edges == self.edges,
                n == g.num_vertices,
                forall|i: int, h: Graph, m: Seq<u8>| bit(edges, i) && #[trigger] is_nbhd_contraction(g, i, h, m) ==> h.keys_fit() && h.num_vertices <= 62,
                pos@.len() == bits_seq(edges).len(),
                forall|s: int| 0 <= s < pos@.len() ==> #[trigger] pos@[s] as int == bits_seq(edges)[s],
                forall|s: int| 0 <= s < bits_seq(edges).len() ==> bit(edges, #[trigger] bits_seq(edges)[s]),
                bits_seq(edges).no_duplicates(),
                t <= pos@.len(),
                indices@.len() == n,
                contracted@.len() == gs.len(),
                sets@.len() == gs.len(),
                forall|j: int| 0 <= j < gs.len() ==> #[trigger] contracted_ok(gs[j], contracted@[j]),
                forall|j: int| 0 <= j < gs.len() ==> (#[trigger] sets@[j])@ == Set::<u64>::empty(),
                forall|a: int, b: int| 0 <= a < b < gs.len() ==> contracted@[a].0@ != contracted@[b].0@,
                forall|s: int| 0 <= s < t ==> #[trigger] index_ok(g, bits_seq(edges)[s], indices@[bits_seq(edges)[s]], gs),
                forall|j: int| 0 <= j < gs.len() ==> #[trigger] seen_graph(indices@, edges, t as int, j),
            decreases pos@.len() - t,
        {
            let i = pos[t];
            proof {
                assert(bit(edges, bits_seq(edges)[t as int]));
            }
            let (h, m) = self.graph.contract_neighborhood(i as u8);
            let (cg, base, perms) = h.canonical_label();
            proof {
                assert forall|a: int| 0 <= a < m@.len() implies #[trigger] m@[a] < base@.len() by {
                    assert(m@[a] < h.num_vertices);
                }
            }
            let to_canon = compose(m.as_slice(), base.as_slice());
            let name = cg.to_g6();
            let mut k: usize = 0;
            let mut found = false;
            while k < contracted.len()
                invariant_except_break
                    !found,
                invariant
                    k <= contracted@.len(),
                    forall|a: int| 0 <= a < k ==> contracted@[a].0@ != name@,
                ensures
                    found ==> k < contracted@.len() && contracted@[k as int].0@ == name@,
                    !found ==> k == contracted@.len(),
                decreases contracted@.len() - k,
            {
                if contracted[k].0 == name {
                    found = true;
                    break;
                }
                k = k + 1;
            }
            let ghost before = indices@;
            let ghost gs0 = gs;
            proof {
                assert(contraction_entry(g, i as int, to_canon@, cg));
            }
            if found {
                proof {
                    let named = gs[k as int];
                    assert(contracted_ok(named, contracted@[k as int]));
                    assert(g6_text(cg)[0] == g6_text(named)[0]);
                    assert(cg.num_vertices == named.num_vertices);
                    assert(entry_for(g, i as int, to_canon@, named));
                }
                indices.set(i, (k, to_canon));
            } else {
                let j = contracted.len();
                proof {
                    assert(entry_for(g, i as int, to_canon@, cg));
                }
                indices.set(i, (j, to_canon));
                contracted.push((name, perms));
                sets.push(new_mask_set());
                proof {
                    gs = gs.push(cg);
                }
            }
            proof {
                assert forall|j: int| 0 <= j < gs.len() implies #[trigger] contracted_ok(gs[j], contracted@[j]) by {
                    if j < gs0.len() {
                        assert(gs[j] == gs0[j]);
                    }
                }
                assert forall|s: int| 0 <= s < t + 1 implies #[trigger] index_ok(g, bits_seq(edges)[s], indices@[bits_seq(edges)[s]], gs) by {
                    if s < t {
                        assert(bits_seq(edges)[s] != bits_seq(edges)[t as int]);
                        assert(indices@[bits_seq(edges)[s]] == before[bits_seq(edges)[s]]);
                        assert(index_ok(g, bits_seq(edges)[s], before[bits_seq(edges)[s]], gs0));
                        let e = before[bits_seq(edges)[s]];
                        assert(gs[e.0 as int] == gs0[e.0 as int]);
                    }
                }
                assert forall|j: int| 0 <= j < gs.len() implies #[trigger] seen_graph(indices@, edges, t + 1, j) by {
                    if j < gs0.len() {
                        assert(seen_graph(before, edges, t as int, j));
                        let s = choose|s: int| 0 <= s < t && #[trigger] before[bits_seq(edges)[s]].0 == j;
                        assert(bits_seq(edges)[s] != bits_seq(edges)[t as int]);
                        assert(indices@[bits_seq(edges)[s]].0 == j);
                    } else {
                        assert(indices@[bits_seq(edges)[t as int]].0 == j);
                    }
                }
            }
            t = t + 1;
        }
        let ghost idx = Seq::new(n as nat, |i: int| (indices@[i].0 as int, indices@[i].1@));
        let ghost gperms = Seq::new(gs.len(), |j: int| perm_views(contracted@[j].1@));
        let ghost subs = self.subforests@;
        proof {
            assert forall|i: int| #[trigger] bit(edges, i) implies index_ok(g, i, indices@[i], gs) by {
                assert(bits_seq(edges).contains(i));
                let s = choose|s: int| 0 <= s < bits_seq(edges).len() && bits_seq(edges)[s] == i;
                assert(index_ok(g, bits_seq(edges)[s], indices@[bits_seq(edges)[s]], gs));
            }
            assert forall|j: int| 0 <= j < gs.len() implies #[trigger] index_used(edges, idx, j) by {
                assert(seen_graph(indices@, edges, pos@.len() as int, j));
                let s = choose|s: int| 0 <= s < pos@.len() && #[trigger] indices@[bits_seq(edges)[s]].0 == j;
                let i = bits_seq(edges)[s];
                assert(bit(edges, i));
                assert(idx[i].0 == j);
            }
        }
        let mut columns: Vec<Vec<((usize, u64), i8)>> = Vec::new();
        let mut k: usize = 0;
        proof {
            assert forall|k2: int, j: int| 0 <= k2 < subs.len() && #[trigger] bit(subs[k2], j) implies bit(edges, j) by {
                assert(bit(self.spec_subforests()[k2], j));
            }
        }
        while k < self.subforests.len()
            invariant
                self.wf(),
                g == self.graph,
                edges == self.edges,
                n == g.num_vertices,
                subs == self.subforests@,
                forall|k2: int, j: int| 0 <= k2 < subs.len() && #[trigger] bit(subs[k2], j) ==> bit(edges, j),
                forall|i: int| #[trigger] bit(edges, i) ==> index_ok(g, i, indices@[i], gs),
                indices@.len() == n,
                idx == Seq::new(n as nat, |i: int| (indices@[i].0 as int, indices@[i].1@)),
                gperms == Seq::new(gs.len(), |j: int| perm_views(contracted@[j].1@)),
                contracted@.len() == gs.len(),
                sets@.len() == gs.len(),
                forall|j: int| 0 <= j < gs.len() ==> #[trigger] contracted_ok(gs[j], contracted@[j]),
                k <= subs.len(),
                columns@.len() == k,
                column_views(columns@) == Seq::new(k as nat, |a: int| contract_column(subs[a], idx, gperms, popcount(subs[a]) as int)),
                forall|j: int, x: u64| 0 <= j < gs.len() ==> (#[trigger] sets@[j]@.contains(x) <==> exists|a: int, tt: int|
                    0 <= a < k && 0 <= tt < popcount(subs[a]) && #[trigger] contract_hits(subs[a], idx, gperms, tt, j, x)),
            decreases subs.len() - k,
        {
            let mask = self.subforests[k];
            let pos2 = bit_positions(mask);
            proof {
                lemma_bits_seq(mask);
                lemma_bits_all();
            }
            let mut col: Vec<((usize, u64), i8)> = Vec::new();
            let mut sign: i8 = 1;
            let ghost sets0 = sets@;
            let mut t2: usize = 0;
            while t2 < pos2.len()
                invariant
                    self.wf(),
                    g == self.graph,
                    edges == self.edges,
                    n == g.num_vertices,
                    n < 64,
                    subs == self.subforests@,
                    k < subs.len(),
                    mask == subs[k as int],
                    forall|j: int| #[trigger] bit(mask, j) ==> bit(edges, j) && j < n,
                    forall|i: int| #[trigger] bit(edges, i) ==> index_ok(g, i, indices@[i], gs),
                    indices@.len() == n,
                    idx == Seq::new(n as nat, |i: int| (indices@[i].0 as int, indices@[i].1@)),
                    gperms == Seq::new(gs.len(), |j: int| perm_views(contracted@[j].1@)),
                    contracted@.len() == gs.len(),
                    sets@.len() == gs.len(),
                    forall|j: int| 0 <= j < gs.len() ==> #[trigger] contracted_ok(gs[j], contracted@[j]),
                    pos2@.len() == bits_seq(mask).len(),
                    bits_seq(mask).len() <= 64,
                    forall|s: int| 0 <= s < pos2@.len() ==> #[trigger] pos2@[s] as int == bits_seq(mask)[s],
                    forall|s: int| 0 <= s < bits_seq(mask).len() ==> bit(mask, #[trigger] bits_seq(mask)[s]),
                    t2 <= pos2@.len(),
                    sign == alt_sign(t2 as int),
                    col@ == contract_column(mask, idx, gperms, t2 as int),
                    forall|j: int| 0 <= j < col@.len() ==> -(t2 as int) <= #[trigger] col@[j].1 <= t2,
                    forall|j: int, x: u64| 0 <= j < gs.len() ==> (#[trigger] sets@[j]@.contains(x) <==> (sets0[j]@.contains(x) || exists|s: int|
                        0 <= s < t2 && #[trigger] contract_hits(mask, idx, gperms, s, j, x))),
                decreases pos2@.len() - t2,
            {
                let i = pos2[t2];
                let cs = contract_term(mask, t2, i, &indices, &contracted, Ghost(g), Ghost(edges), Ghost(gs), Ghost(idx), Ghost(gperms));
                let ghost before = sets@;
                let ghost col0 = col@;
                match cs {
                    Some((j, f, s)) => {
                        proof {
                            lemma_first_key_range(col0, (j, f), 0);
                            lemma_added_bound(col0, (j, f), (s * sign) as i8, t2 as int);
                            if first_key(col0, (j, f), 0) >= 0 {
                                assert(-(t2 as int) <= col0[first_key(col0, (j, f), 0)].1 <= t2);
                            }
                        }
                        let _ = mask_set_insert(&mut sets[j], f);
                        add_or_push(&mut col, (j, f), s * sign);
                    },
                    None => {},
                }
                proof {
                    assert(col@ == contract_column(mask, idx, gperms, t2 as int + 1));
                    assert forall|jj: int, x: u64| 0 <= jj < gs.len() implies (#[trigger] sets@[jj]@.contains(x) <==> (sets0[jj]@.contains(x) || exists|s: int|
                        0 <= s < t2 + 1 && #[trigger] contract_hits(mask, idx, gperms, s, jj, x))) by {
                        if exists|s: int| 0 <= s < t2 + 1 && #[trigger] contract_hits(mask, idx, gperms, s, jj, x) {
                            let s = choose|s: int| 0 <= s < t2 + 1 && #[trigger] contract_hits(mask, idx, gperms, s, jj, x);
                            if s == t2 {
                                assert(contract_hits(mask, idx, gperms, t2 as int, jj, x));
                            }
                        }
                        if sets@[jj]@.contains(x) && !before[jj]@.contains(x) {
                            assert(contract_hits(mask, idx, gperms, t2 as int, jj, x));
                        }
                    }
                    assert forall|q: int| 0 <= q < col@.len() implies -(t2 + 1) <= #[trigger] col@[q].1 <= t2 + 1 by {
                        if cs is None {
                            assert(col@ == col0);
                        }
                    }
                }
                sign = -sign;
                t2 = t2 + 1;
            }
            proof {
                lemma_bits_seq(mask);
            }
            let ghost cols0 = columns@;
            columns.push(col);
            proof {
                assert(column_views(columns@) =~= Seq::new((k + 1) as nat, |a: int| contract_column(subs[a], idx, gperms, popcount(subs[a]) as int))) by {
                    assert forall|a: int| 0 <= a < k + 1 implies #[trigger] column_views(columns@)[a] == contract_column(subs[a], idx, gperms, popcount(subs[a]) as int) by {
                        if a < k {
                            assert(columns@[a] == cols0[a]);
                            assert(column_views(cols0)[a] == contract_column(subs[a], idx, gperms, popcount(subs[a]) as int));
                        }
                    }
                }
                assert forall|jj: int, x: u64| 0 <= jj < gs.len() implies (#[trigger] sets@[jj]@.contains(x) <==> exists|a: int, tt: int|
                    0 <= a < k + 1 && 0 <= tt < popcount(subs[a]) && #[trigger] contract_hits(subs[a], idx, gperms, tt, jj, x)) by {
                    if sets0[jj]@.contains(x) {
                        let (a, tt) = choose|a: int, tt: int| 0 <= a < k && 0 <= tt < popcount(subs[a]) && #[trigger] contract_hits(subs[a], idx, gperms, tt, jj, x);
                    }
                    if exists|a: int, tt: int| 0 <= a < k + 1 && 0 <= tt < popcount(subs[a]) && #[trigger] contract_hits(subs[a], idx, gperms, tt, jj, x) {
                        let (a, tt) = choose|a: int, tt: int| 0 <= a < k + 1 && 0 <= tt < popcount(subs[a]) && #[trigger] contract_hits(subs[a], idx, gperms, tt, jj, x);
                        if a < k {
                            assert(sets0[jj]@.contains(x));
                        }
                    }
                }
            }
            k = k + 1;
        }
        let ghost final_sets = sets@;
        let mut out: Vec<(String, Vec<u64>)> = Vec::new();
        let mut j: usize = 0;
        while j < contracted.len()
            invariant
                contracted@.len() == gs.len(),
                sets@.len() == gs.len(),
                final_sets.len() == gs.len(),
                j <= gs.len(),
                out@.len() == j,
                forall|a: int| j <= a < gs.len() ==> #[trigger] sets@[a] == final_sets[a],
                forall|a: int| 0 <= a < j ==> (#[trigger] out@[a]).0@ == contracted@[a].0@ && out@[a].1@.to_set() == final_sets[a]@ && out@[a].1@.no_duplicates(),
            decreases gs.len() - j,
        {
            let mut taken = new_mask_set();
            std::mem::swap(&mut sets[j], &mut taken);
            let fs = mask_set_into_vec(taken);
            let name = contracted[j].0.clone();
            out.push((name, fs));
            j = j + 1;
        }
        let r = ContractDifferential { contracted_graphs: out, columns };
        proof {
            let cs = r.spec_contracted();
            assert forall|jj: int| 0 <= jj < gs.len() implies #[trigger] cs[jj].0 == g6_text(gs[jj]) by {
                assert(contracted_ok(gs[jj], contracted@[jj]));
            }
            assert forall|jj: int, x: u64| 0 <= jj < cs.len() implies (#[trigger] cs[jj].1.contains(x) <==> exists|a: int, tt: int|
                0 <= a < subs.len() && 0 <= tt < popcount(subs[a]) && #[trigger] contract_hits(subs[a], idx, gperms, tt, jj, x)) by {
                assert(cs[jj].1 == out@[jj].1@);
                assert(out@[jj].1@.contains(x) <==> out@[jj].1@.to_set().contains(x));
                assert(out@[jj].1@.to_set() == final_sets[jj]@);
            }
            assert forall|jj: int, q: int| 0 <= jj < gs.len() && 0 <= q < gperms[jj].len() implies #[trigger] maps_onto(gs[jj]@, gperms[jj][q], gs[jj]@) by {
                assert(contracted_ok(gs[jj], contracted@[jj]));
                assert(gperms[jj][q] == contracted@[jj].1@[q]@);
            }
            assert forall|i: int| #[trigger] bit(edges, i) implies 0 <= idx[i].0 < gs.len() && entry_for(g, i, idx[i].1, gs[idx[i].0]) by {
                assert(index_ok(g, i, indices@[i], gs));
            }
            assert(contract_result(*self, r, idx, gs, gperms));
        }
        r
    }
}


/// The term of the contracting differential for the `t`-th edge `i` of `mask`:
/// the contracted graph, the canonical form of the rest of the forest in it,
/// and its sign, or `None` where that form has an odd automorphism.
#[verifier::rlimit(50)]
fn contract_term(
    mask: u64,
    t: usize,
    i: usize,
    indices: &Vec<(usize, Vec<u8>)>,
    contracted: &Vec<(String, Vec<Vec<u8>>)>,
    Ghost(g): Ghost<Graph>,
    Ghost(edges): Ghost<u64>,
    Ghost(gs): Ghost<Seq<Graph>>,
    Ghost(idx): Ghost<Seq<(int, Seq<u8>)>>,
    Ghost(gperms): Ghost<Seq<Seq<Seq<u8>>>>,
) -> (r: Option<(usize, u64, i8)>)
    requires
        g.num_vertices < 64,
        t < bits_seq(mask).len(),
        i as int == bits_seq(mask)[t as int],
        forall|j: int| #[trigger] bit(mask, j) ==> bit(edges, j) && j < g.num_vertices,
        forall|x: int| #[trigger] bit(edges, x) ==> index_ok(g, x, indices@[x], gs),
        indices@.len() == g.num_vertices,
        idx == Seq::new(g.num_vertices as nat, |x: int| (indices@[x].0 as int, indices@[x].1@)),
        gperms == Seq::new(gs.len(), |j: int| perm_views(contracted@[j].1@)),
        contracted@.len() == gs.len(),
        forall|j: int| 0 <= j < gs.len() ==> #[trigger] contracted_ok(gs[j], contracted@[j]),
    ensures
        match r {
            None => contract_step(mask, idx, gperms, t as int) is None,
            Some((j, f, s)) => contract_step(mask, idx, gperms, t as int) == Some((j as int, f, s)) && j < gs.len() && (s == 1 || s == -1),
        },
{
    proof {
        lemma_bits_seq(mask);
        lemma_bits_all();
        assert(bit(mask, bits_seq(mask)[t as int]));
        assert(bit(edges, i as int));
        assert(index_ok(g, i as int, indices@[i as int], gs));
    }
    let m0 = mask & !(1u64 << (i as u64));
    let j = indices[i].0;
    let to_canon = &indices[i].1;
    let pm = mask_positions(m0);
    proof {
        lemma_bits_seq(m0);
        assert forall|q: int| 0 <= q < pm@.len() implies #[trigger] pm@[q] < to_canon@.len() by {
            assert(bit(m0, bits_seq(m0)[q]));
            assert(bit(mask, bits_seq(m0)[q]));
        }
        assert forall|y: int| #[trigger] bit(m0, y) implies y < to_canon@.len() && to_canon@[y] < 64 by {
            assert(bit(mask, y));
            assert(to_canon@[y] < gs[j as int].num_vertices);
        }
    }
    let ss = sign_subset(to_canon.as_slice(), pm.as_slice());
    let mi = permute_mask(m0, to_canon.as_slice());
    let perms = &contracted[j].1;
    proof {
        assert(contracted_ok(gs[j as int], contracted@[j as int]));
        assert(gperms[j as int] == perm_views(perms@));
        assert forall|x: int| #[trigger] bit(mi, x) implies 0 <= x < gs[j as int].num_vertices by {
            assert(permuted_mask(m0, to_canon@, x));
            let y = choose|y: int| bit(m0, y) && to_canon@[y] == x;
            assert(bit(mask, y));
        }
        assert forall|q: int| 0 <= q < perm_views(perms@).len() implies #[trigger] maps_onto(gs[j as int]@, perm_views(perms@)[q], gs[j as int]@) by {
            assert(maps_onto(gs[j as int]@, perms@[q]@, gs[j as int]@));
            assert(perm_views(perms@)[q] == perms@[q]@);
        }
        lemma_automorphisms_fit(mi, gs[j as int], perm_views(perms@));
    }
    let cs = canonical_subforest(mi, perms.as_slice());
    proof {
        assert(idx[i as int] == (j as int, to_canon@));
        assert(ss == mask_sign(m0, to_canon@));
        lemma_canon_sign(mi, gperms[j as int], gperms[j as int].len() as int);
    }
    match cs {
        Some((f, s)) => {
            proof {
                assert(ss == 1 || ss == -1);
            }
            Some((j, f, s * ss))
        },
        None => None,
    }
}

/// Automorphisms of a graph with at most 62 vertices fit a mask on its
/// vertices.
proof fn lemma_automorphisms_fit(mask: u64, cg: Graph, perms: Seq<Seq<u8>>)
    requires
        cg.num_vertices <= 62,
        forall|x: int| #[trigger] bit(mask, x) ==> 0 <= x < cg.num_vertices,
        forall|q: int| 0 <= q < perms.len() ==> #[trigger] maps_onto(cg@, perms[q], cg@),
    ensures
        perms_fit(mask, perms),
{
    assert forall|k: int, j: int| #![trigger perms[k], bit(mask, j)] 0 <= k < perms.len() && bit(mask, j) implies j < perms[k].len() && perms[k][j] < 64 by {
        assert(maps_onto(cg@, perms[k], cg@));
        assert(perms[k].len() == cg@.n);
        assert(cg@.n == cg.num_vertices);
        assert(is_perm(perms[k]));
        assert(perms[k][j] < perms[k].len());
    }
}

/// The positions of a mask, lowest first.
fn mask_positions(mask: u64) -> (r: Vec<usize>)
    ensures
        r@ == bits_seq(mask).map_values(|j: int| j as usize),
{
    let pos = bit_positions(mask);
    proof {
        lemma_bits_seq(mask);
        assert(pos@ =~= bits_seq(mask).map_values(|j: int| j as usize)) by {
            assert forall|t: int| 0 <= t < pos@.len() implies #[trigger] pos@[t] == bits_seq(mask).map_values(|j: int| j as usize)[t] by {
                assert(pos@[t] as int == bits_seq(mask)[t]);
            }
        }
    }
    pos
}


impl ForestedGraph {
    /// The forested graph as text: the graph in graph6 and then its
    /// subforests in uppercase hexadecimal, each after a space.
    pub fn to_text(&self) -> (s: String)
        requires
            self.wf(),
            self.spec_graph().num_vertices <= 62,
        ensures
            s@ == g6_text(self.spec_graph()) + crate::table::masks_text(self.spec_subforests()),
    {
        let mut s = self.graph.to_g6();
        crate::table::push_masks(&mut s, self.subforests.as_slice());
        s
    }
}

impl UnmarkDifferential {
    /// The smaller forests in uppercase hexadecimal, each after a space.
    pub fn to_text(&self) -> (s: String)
        ensures
            s@ == crate::table::masks_text(self.spec_smaller_forests()),
    {
        let mut s = String::new();
        crate::table::push_masks(&mut s, self.smaller_forests.as_slice());
        s
    }
}

} // verus!
