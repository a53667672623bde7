//! Permutations of vertices, given as the list of images `perm[i]`, and the
//! maps they induce on edges and vertex masks.
use vstd::prelude::*;
use crate::bits::{bit, bit_positions, bits_seq, lemma_bits_all, lemma_bits_seq, popcount};

verus! {

/// `perm` is a permutation of `0..perm.len()`.
pub open spec fn is_perm(perm: Seq<u8>) -> bool {
    &&& perm.len() <= 256
    &&& forall|i: int| 0 <= i < perm.len() ==> #[trigger] perm[i] < perm.len()
    &&& forall|i: int, j: int|
        0 <= i < perm.len() && 0 <= j < perm.len() && i != j ==> perm[i] != perm[j]
}

/// The identity permutation of `0..n`.
pub open spec fn identity(n: nat) -> Seq<u8> {
    Seq::new(n, |i: int| i as u8)
}

/// The last index `i < upto` with `s[i] == j`, or -1.
pub open spec fn last_index_of(s: Seq<u8>, j: int, upto: int) -> int
    decreases upto,
{
    if upto <= 0 {
        -1
    } else if s[upto - 1] == j {
        upto - 1
    } else {
        last_index_of(s, j, upto - 1)
    }
}

/// The entry `j` of the inverse: the last position that `perm` sends to `j`
/// (truncated to `u8`), or 0 where there is none.
pub open spec fn inverse_entry(perm: Seq<u8>, j: int) -> u8 {
    let i = last_index_of(perm, j, perm.len() as int);
    if i >= 0 {
        i as u8
    } else {
        0
    }
}

/// The composition `i |-> b[a[i]]`.
pub open spec fn compose_spec(a: Seq<u8>, b: Seq<u8>) -> Seq<u8> {
    Seq::new(a.len(), |i: int| b[a[i] as int])
}

/// An unordered pair written with the smaller end first.
pub open spec fn norm_pair(a: u8, b: u8) -> (u8, u8) {
    if a < b {
        (a, b)
    } else {
        (b, a)
    }
}

/// The image of an edge under a permutation of the vertices.
pub open spec fn permute_edge(e: (u8, u8), perm: Seq<u8>) -> (u8, u8) {
    norm_pair(perm[e.0 as int], perm[e.1 as int])
}

/// Every endpoint of `edges` is an index of `perm`.
pub open spec fn edges_within(edges: Seq<(u8, u8)>, n: int) -> bool {
    forall|k: int| 0 <= k < edges.len() ==> #[trigger] edges[k].0 < n && edges[k].1 < n
}

proof fn lemma_last_index_of(s: Seq<u8>, j: int, upto: int)
    requires
        0 <= upto <= s.len(),
    ensures
        -1 <= last_index_of(s, j, upto) < upto,
        last_index_of(s, j, upto) >= 0 ==> s[last_index_of(s, j, upto)] == j,
        forall|i: int| last_index_of(s, j, upto) < i < upto ==> s[i] != j,
    decreases upto,
{
    if upto > 0 {
        lemma_last_index_of(s, j, upto - 1);
    }
}

/// Calculate the inverse of the provided permutation.
pub fn inverse(perm: &[u8]) -> (inv: Vec<u8>)
    requires
        forall|i: int| 0 <= i < perm@.len() ==> #[trigger] perm@[i] < perm@.len(),
    ensures
        inv@.len() == perm@.len(),
        forall|j: int| 0 <= j < perm@.len() ==> #[trigger] inv@[j] == inverse_entry(perm@, j),
{
    let n = perm.len();
    let mut inv: Vec<u8> = vec![0u8; n];
    let mut i: usize = 0;
    while i < n
        invariant
            n == perm@.len(),
            i <= n,
            inv@.len() == n,
            forall|k: int| 0 <= k < n ==> #[trigger] perm@[k] < n,
            forall|j: int|
                0 <= j < n ==> #[trigger] inv@[j] == (if last_index_of(perm@, j, i as int) >= 0 {
                    last_index_of(perm@, j, i as int) as u8
                } else {
                    0u8
                }),
        decreases n - i,
    {
        let p = perm[i] as usize;
        inv.set(p, i as u8);
        i = i + 1;
    }
    inv
}

/// Calculate the composition of two permutations, in natural order: `i |-> b(a(i))`.
pub fn compose(a: &[u8], b: &[u8]) -> (c: Vec<u8>)
    requires
        forall|i: int| 0 <= i < a@.len() ==> #[trigger] a@[i] < b@.len(),
    ensures
        c@ == compose_spec(a@, b@),
{
    let mut c: Vec<u8> = Vec::with_capacity(a.len());
    let mut i: usize = 0;
    while i < a.len()
        invariant
            i <= a@.len(),
            forall|k: int| 0 <= k < a@.len() ==> #[trigger] a@[k] < b@.len(),
            c@ =~= compose_spec(a@, b@).take(i as int),
        decreases a@.len() - i,
    {
        c.push(b[a[i] as usize]);
        i = i + 1;
    }
    assert(compose_spec(a@, b@).take(a@.len() as int) =~= compose_spec(a@, b@));
    c
}

/// Inverting a permutation twice gives it back.
pub proof fn lemma_inverse_involution(perm: Seq<u8>)
    requires
        is_perm(perm),
    ensures
        ({
            let inv = Seq::new(perm.len(), |j: int| inverse_entry(perm, j));
            Seq::new(inv.len(), |j: int| inverse_entry(inv, j)) == perm
        }),
{
    let n = perm.len() as int;
    let inv = Seq::new(perm.len(), |j: int| inverse_entry(perm, j));
    lemma_inverse_of_perm(perm);
    lemma_inverse_of_perm(inv);
    let inv2 = Seq::new(inv.len(), |j: int| inverse_entry(inv, j));
    assert forall|i: int| 0 <= i < n implies #[trigger] inv2[i] == perm[i] by {
        let j = perm[i] as int;
        assert(compose_spec(perm, inv)[i] == identity(perm.len())[i]);
        assert(inv[j] as int == i);
        assert(compose_spec(inv, inv2)[j] == identity(inv.len())[j]);
    }
    assert(inv2 =~= perm);
}

/// Inverting a permutation gives a permutation, and composing with it either
/// way round gives the identity.
pub proof fn lemma_inverse_of_perm(perm: Seq<u8>)
    requires
        is_perm(perm),
    ensures
        ({
            let inv = Seq::new(perm.len(), |j: int| inverse_entry(perm, j));
            &&& is_perm(inv)
            &&& compose_spec(perm, inv) == identity(perm.len())
            &&& compose_spec(inv, perm) == identity(perm.len())
        }),
{
    let n = perm.len() as int;
    let inv = Seq::new(perm.len(), |j: int| inverse_entry(perm, j));
    // every j is hit exactly once
    assert forall|i: int| 0 <= i < n implies #[trigger] inv[perm[i] as int] == i as u8 by {
        let j = perm[i] as int;
        lemma_last_index_of(perm, j, n);
        let l = last_index_of(perm, j, n);
        assert(l >= i);
        assert(l == i);
    }
    // perm is onto: the map is injective on a finite set of the same size
    assert forall|j: int| 0 <= j < n implies last_index_of(perm, j, n) >= 0 by {
        lemma_perm_onto(perm, j);
    }
    assert forall|j: int| 0 <= j < n implies #[trigger] perm[inv[j] as int] == j && inv[j] < n by {
        lemma_last_index_of(perm, j, n);
    }
    assert forall|a: int, b: int|
        0 <= a < n && 0 <= b < n && a != b implies inv[a] != inv[b] by {
        assert(perm[inv[a] as int] == a);
        assert(perm[inv[b] as int] == b);
    }
    assert forall|j: int| 0 <= j < inv.len() implies #[trigger] inv[j] < inv.len() by {
        assert(perm[inv[j] as int] == j && inv[j] < n);
    }
    assert(is_perm(inv));
    assert(compose_spec(perm, inv) =~= identity(perm.len()));
    assert(compose_spec(inv, perm) =~= identity(perm.len()));
}

/// An injective map of `0..n` into `0..n` is onto.
proof fn lemma_perm_onto(perm: Seq<u8>, j: int)
    requires
        is_perm(perm),
        0 <= j < perm.len(),
    ensures
        last_index_of(perm, j, perm.len() as int) >= 0,
{
    let n = perm.len() as int;
    lemma_last_index_of(perm, j, n);
    if last_index_of(perm, j, n) < 0 {
        // the image misses j, so it is a set of n values inside 0..n without j
        let img = Set::new(|x: int| exists|i: int| 0 <= i < n && perm[i] == x);
        let dom = Set::new(|i: int| 0 <= i < n);
        assert(dom =~= vstd::set_lib::set_int_range(0, n));
        vstd::set_lib::lemma_int_range(0, n);
        let f = |i: int| perm[i] as int;
        assert forall|x: int| img.contains(x) <==> dom.map(f).contains(x) by {
            if img.contains(x) {
                let i = choose|i: int| 0 <= i < n && perm[i] == x;
                assert(dom.contains(i) && f(i) == x);
            }
        }
        assert(img =~= dom.map(f));
        assert forall|a: int, b: int| dom.contains(a) && dom.contains(b) && f(a) == f(b) implies a
            == b by {}
        vstd::set_lib::lemma_map_size(dom, img, f);
        let range_minus = vstd::set_lib::set_int_range(0, n).remove(j);
        assert(img.subset_of(range_minus)) by {
            assert forall|x: int| img.contains(x) implies range_minus.contains(x) by {
                let i = choose|i: int| 0 <= i < n && perm[i] == x;
                assert(perm[i] != j);
            }
        }
        vstd::set_lib::lemma_len_subset(img, range_minus);
    }
}

/// The number of later entries of `rest` that `perm` sends below the image of `x`.
pub open spec fn count_below(perm: Seq<u8>, x: usize, rest: Seq<usize>) -> nat
    decreases rest.len(),
{
    if rest.len() == 0 {
        0
    } else {
        (if perm[x as int] > perm[rest[0] as int] {
            1nat
        } else {
            0nat
        }) + count_below(perm, x, rest.drop_first())
    }
}

/// The number of inversions of `perm` restricted to the ordered list `subset`:
/// pairs of positions `a < b` with `perm[subset[a]] > perm[subset[b]]`.
pub open spec fn inversions(perm: Seq<u8>, subset: Seq<usize>) -> nat
    decreases subset.len(),
{
    if subset.len() == 0 {
        0
    } else {
        count_below(perm, subset[0], subset.drop_first()) + inversions(perm, subset.drop_first())
    }
}

/// `1` for an even number of inversions, `-1` for an odd one.
pub open spec fn parity_sign(n: nat) -> i8 {
    if n % 2 == 0 {
        1i8
    } else {
        -1i8
    }
}

proof fn lemma_count_below_step(perm: Seq<u8>, x: usize, rest: Seq<usize>, k: int)
    requires
        0 <= k < rest.len(),
    ensures
        count_below(perm, x, rest.take(k + 1)) == count_below(perm, x, rest.take(k)) + (if perm[x as int]
            > perm[rest[k] as int] {
            1nat
        } else {
            0nat
        }),
    decreases k,
{
    if k > 0 {
        lemma_count_below_step(perm, x, rest.drop_first(), k - 1);
        assert(rest.take(k + 1).drop_first() =~= rest.drop_first().take(k));
        assert(rest.take(k).drop_first() =~= rest.drop_first().take(k - 1));
        assert(rest.take(k + 1)[0] == rest[0]);
        assert(rest.take(k)[0] == rest[0]);
        assert(rest.drop_first()[k - 1] == rest[k]);
    } else {
        assert(rest.take(1).drop_first() =~= Seq::<usize>::empty());
        assert(rest.take(0) =~= Seq::<usize>::empty());
        assert(rest.take(1)[0] == rest[0]);
    }
}

/// Compute the sign of the permutation on the provided subset, which is
/// given as an ordered list of positions.
pub fn sign_subset(perm: &[u8], subset: &[usize]) -> (sign: i8)
    requires
        forall|k: int| 0 <= k < subset@.len() ==> #[trigger] subset@[k] < perm@.len(),
    ensures
        sign == parity_sign(inversions(perm@, subset@)),
{
    let n = subset.len();
    let mut sign: i8 = 1;
    let mut a: usize = 0;
    let ghost mut acc: nat = 0;
    assert(subset@.skip(0) =~= subset@);
    while a < n
        invariant
            n == subset@.len(),
            a <= n,
            forall|k: int| 0 <= k < n ==> #[trigger] subset@[k] < perm@.len(),
            acc + inversions(perm@, subset@.skip(a as int)) == inversions(perm@, subset@),
            sign == parity_sign(acc),
        decreases n - a,
    {
        let x = subset[a];
        let ghost rest = subset@.skip(a as int + 1);
        let ghost acc0 = acc;
        assert(subset@.skip(a as int).drop_first() =~= rest);
        assert(rest.take(0) =~= Seq::<usize>::empty());
        let mut b: usize = a + 1;
        while b < n
            invariant
                n == subset@.len(),
                a < n,
                a + 1 <= b <= n,
                x == subset@[a as int],
                rest == subset@.skip(a as int + 1),
                forall|k: int| 0 <= k < n ==> #[trigger] subset@[k] < perm@.len(),
                acc == acc0 + count_below(perm@, x, rest.take(b - a - 1)),
                sign == parity_sign(acc),
            decreases n - b,
        {
            proof {
                lemma_count_below_step(perm@, x, rest, b - a - 1);
                assert(rest[b - a - 1] == subset@[b as int]);
                assert(rest.take(b - a - 1 + 1) == rest.take(b - a));
                lemma_parity_sign_add(acc, 1);
            }
            if perm[x] > perm[subset[b]] {
                sign = -sign;
                proof {
                    acc = acc + 1;
                }
            }
            b = b + 1;
        }
        proof {
            assert(rest.take(n - a - 1) =~= rest);
            assert(subset@.skip(a as int + 1) == subset@.skip((a + 1) as int));
        }
        a = a + 1;
    }
    assert(subset@.skip(n as int) =~= Seq::<usize>::empty());
    sign
}

proof fn lemma_parity_sign_add(c: nat, d: nat)
    ensures
        parity_sign(c + d) == parity_sign(c) * parity_sign(d),
{
    assert((c + d) % 2 == (c % 2 + d % 2) % 2);
    if c % 2 == 0 {
        if d % 2 == 0 {
            assert((c + d) % 2 == 0);
        } else {
            assert((c + d) % 2 == 1);
        }
    } else {
        if d % 2 == 0 {
            assert((c + d) % 2 == 1);
        } else {
            assert((c + d) % 2 == 0);
        }
    }
}

/// The positions `0..n` in order.
pub open spec fn all_positions(n: nat) -> Seq<usize> {
    Seq::new(n, |k: int| k as usize)
}

/// Compute the sign of a permutation: `-1` when it has an odd number of
/// inversions, `1` otherwise.
pub fn sign(perm: &[u8]) -> (s: i8)
    ensures
        s == parity_sign(inversions(perm@, all_positions(perm@.len()))),
{
    let n = perm.len();
    let mut subset: Vec<usize> = Vec::new();
    let mut k: usize = 0;
    while k < n
        invariant
            n == perm@.len(),
            k <= n,
            subset@ =~= all_positions(k as nat),
        decreases n - k,
    {
        subset.push(k);
        k = k + 1;
    }
    sign_subset(perm, subset.as_slice())
}

/// Apply a permutation to each edge, writing each image with its smaller end first.
pub fn permute_edges(edges: &[(u8, u8)], perm: &[u8]) -> (res: Vec<(u8, u8)>)
    requires
        edges_within(edges@, perm@.len() as int),
    ensures
        res@ == edges@.map_values(|e: (u8, u8)| permute_edge(e, perm@)),
{
    let mut res: Vec<(u8, u8)> = Vec::with_capacity(edges.len());
    let mut i: usize = 0;
    while i < edges.len()
        invariant
            i <= edges@.len(),
            edges_within(edges@, perm@.len() as int),
            res@ =~= edges@.map_values(|e: (u8, u8)| permute_edge(e, perm@)).take(i as int),
        decreases edges@.len() - i,
    {
        let (u, v) = edges[i];
        let (a, b) = (perm[u as usize], perm[v as usize]);
        if a < b {
            res.push((a, b));
        } else {
            res.push((b, a));
        }
        i = i + 1;
    }
    assert(edges@.map_values(|e: (u8, u8)| permute_edge(e, perm@)).take(edges@.len() as int)
        =~= edges@.map_values(|e: (u8, u8)| permute_edge(e, perm@)));
    res
}

/// Apply a permutation to each edge of a list of edges carrying an index.
pub fn permute_indexed_edges(edges: &[((u8, u8), u8)], perm: &[u8]) -> (res: Vec<((u8, u8), u8)>)
    requires
        forall|k: int|
            0 <= k < edges@.len() ==> #[trigger] edges@[k].0.0 < perm@.len() && edges@[k].0.1
                < perm@.len(),
    ensures
        res@ == edges@.map_values(|e: ((u8, u8), u8)| (permute_edge(e.0, perm@), e.1)),
{
    let mut res: Vec<((u8, u8), u8)> = Vec::with_capacity(edges.len());
    let mut i: usize = 0;
    while i < edges.len()
        invariant
            i <= edges@.len(),
            forall|k: int|
                0 <= k < edges@.len() ==> #[trigger] edges@[k].0.0 < perm@.len() && edges@[k].0.1
                    < perm@.len(),
            res@ =~= edges@.map_values(|e: ((u8, u8), u8)| (permute_edge(e.0, perm@), e.1)).take(
                i as int,
            ),
        decreases edges@.len() - i,
    {
        let ((u, v), j) = edges[i];
        let (a, b) = (perm[u as usize], perm[v as usize]);
        if a < b {
            res.push(((a, b), j));
        } else {
            res.push(((b, a), j));
        }
        i = i + 1;
    }
    assert(edges@.map_values(|e: ((u8, u8), u8)| (permute_edge(e.0, perm@), e.1)).take(
        edges@.len() as int,
    ) =~= edges@.map_values(|e: ((u8, u8), u8)| (permute_edge(e.0, perm@), e.1)));
    res
}

/// The image of a mask under a permutation: position `i` is set exactly when some
/// set position `j` of the mask has `perm[j] == i`.
pub open spec fn permuted_mask(mask: u64, perm: Seq<u8>, i: int) -> bool {
    exists|j: int| bit(mask, j) && perm[j] == i
}

/// The mask with the images of the first `k` of the positions `ps`.
pub open spec fn image_upto(ps: Seq<int>, perm: Seq<u8>, k: int) -> u64
    decreases k,
{
    if k <= 0 {
        0u64
    } else {
        image_upto(ps, perm, k - 1) | (1u64 << perm[ps[k - 1]])
    }
}

/// The image of a mask under a permutation.
pub open spec fn mask_image(mask: u64, perm: Seq<u8>) -> u64 {
    image_upto(bits_seq(mask), perm, bits_seq(mask).len() as int)
}

/// Permuting a mask by `p` and the result by `q` is permuting it by their
/// composition, `j` going to `q[p[j]]`.
pub proof fn lemma_permuted_mask_compose(mask: u64, p: Seq<u8>, q: Seq<u8>, m1: u64)
    requires
        forall|j: int| #[trigger] bit(mask, j) ==> j < p.len(),
        forall|i: int| #[trigger] bit(m1, i) <==> permuted_mask(mask, p, i),
    ensures
        forall|i: int| #[trigger] permuted_mask(m1, q, i) <==> permuted_mask(mask, compose_spec(p, q), i),
{
    assert forall|i: int| #[trigger] permuted_mask(m1, q, i) <==> permuted_mask(mask, compose_spec(p, q), i) by {
        if permuted_mask(m1, q, i) {
            let j = choose|j: int| bit(m1, j) && q[j] == i;
            assert(permuted_mask(mask, p, j));
            let k = choose|k: int| bit(mask, k) && p[k] == j;
            assert(compose_spec(p, q)[k] == q[p[k] as int]);
        }
        if permuted_mask(mask, compose_spec(p, q), i) {
            let k = choose|k: int| bit(mask, k) && compose_spec(p, q)[k] == i;
            assert(compose_spec(p, q)[k] == q[p[k] as int]);
            let j = p[k] as int;
            assert(permuted_mask(mask, p, j));
            assert(bit(m1, j));
        }
    }
}

/// Permuting a mask by a permutation keeps its number of positions.
pub proof fn lemma_permuted_mask_popcount(mask: u64, perm: Seq<u8>, m1: u64)
    requires
        perm.no_duplicates(),
        forall|j: int| #[trigger] bit(mask, j) ==> j < perm.len(),
        forall|i: int| #[trigger] bit(m1, i) <==> permuted_mask(mask, perm, i),
    ensures
        popcount(m1) == popcount(mask),
{
    lemma_bits_seq(mask);
    lemma_bits_seq(m1);
    let a = bits_seq(mask).to_set();
    let b = bits_seq(m1).to_set();
    bits_seq(mask).unique_seq_to_set();
    bits_seq(m1).unique_seq_to_set();
    let f = |j: int| perm[j] as int;
    assert forall|x1: int, x2: int| a.contains(x1) && a.contains(x2) && #[trigger] f(x1) == #[trigger] f(x2) implies x1 == x2 by {
        assert(bits_seq(mask).contains(x1) && bits_seq(mask).contains(x2));
        assert(bit(mask, x1) && bit(mask, x2));
        assert(0 <= x1 < perm.len());
        assert(0 <= x2 < perm.len());
    }
    assert(vstd::relations::injective_on(f, a));
    assert forall|i: int| #[trigger] a.map(f).contains(i) <==> b.contains(i) by {
        if a.map(f).contains(i) {
            let j = choose|j: int| a.contains(j) && f(j) == i;
            assert(bits_seq(mask).contains(j));
            assert(bit(mask, j));
            assert(permuted_mask(mask, perm, i));
            assert(bit(m1, i));
            assert(bits_seq(m1).contains(i));
        }
        if b.contains(i) {
            assert(bits_seq(m1).contains(i));
            assert(bit(m1, i));
            assert(permuted_mask(mask, perm, i));
            let j = choose|j: int| bit(mask, j) && perm[j] == i;
            assert(bits_seq(mask).contains(j));
            assert(a.contains(j));
            assert(f(j) == i);
        }
    }
    assert(a.map(f) =~= b);
    vstd::set_lib::lemma_map_size(a, b, f);
}

/// Permute the bits of the mask using the provided permutation.
pub fn permute_mask(mask: u64, perm: &[u8]) -> (m: u64)
    requires
        forall|j: int| #[trigger] bit(mask, j) ==> j < perm@.len() && perm@[j] < 64,
    ensures
        forall|i: int| #[trigger] bit(m, i) <==> permuted_mask(mask, perm@, i),
        m == mask_image(mask, perm@),
{
    let pos = bit_positions(mask);
    proof {
        lemma_bits_seq(mask);
        lemma_bits_all();
    }
    let mut m: u64 = 0;
    let mut k: usize = 0;
    while k < pos.len()
        invariant
            k <= pos@.len(),
            pos@.len() == bits_seq(mask).len(),
            forall|t: int| 0 <= t < pos@.len() ==> #[trigger] pos@[t] as int == bits_seq(mask)[t],
            forall|j: int| #[trigger] bit(mask, j) ==> j < perm@.len() && perm@[j] < 64,
            forall|i: int| bits_seq(mask).contains(i) <==> #[trigger] bit(mask, i),
            forall|t: int| 0 <= t < bits_seq(mask).len() ==> bit(mask, #[trigger] bits_seq(mask)[t]),
            forall|i: int|
                #[trigger] bit(m, i) <==> exists|t: int|
                    0 <= t < k && perm@[#[trigger] bits_seq(mask)[t]] == i,
            m == image_upto(bits_seq(mask), perm@, k as int),
        decreases pos@.len() - k,
    {
        let j = pos[k];
        assert(bit(mask, j as int));
        let p = perm[j];
        let ghost old_m = m;
        m = m | (1u64 << p);
        proof {
            lemma_bits_all();
            assert forall|i: int| #[trigger] bit(m, i) <==> exists|t: int|
                0 <= t < k + 1 && perm@[#[trigger] bits_seq(mask)[t]] == i by {
                if bit(m, i) && i != p {
                    assert(bit(old_m, i));
                }
                if i == p {
                    assert(perm@[bits_seq(mask)[k as int]] == i);
                }
            }
        }
        k = k + 1;
    }
    proof {
        assert forall|i: int| #[trigger] bit(m, i) <==> permuted_mask(mask, perm@, i) by {
            if permuted_mask(mask, perm@, i) {
                let j = choose|j: int| bit(mask, j) && perm@[j] == i;
                assert(bits_seq(mask).contains(j));
                let t = choose|t: int| 0 <= t < bits_seq(mask).len() && bits_seq(mask)[t] == j;
                assert(perm@[bits_seq(mask)[t]] == i);
            }
        }
    }
    m
}


/// The positions of the image of a mask are images of its positions.
pub proof fn lemma_image_bits(mask: u64, perm: Seq<u8>, k: int)
    requires
        0 <= k <= bits_seq(mask).len(),
        forall|j: int| #[trigger] bit(mask, j) ==> j < perm.len() && perm[j] < 64,
    ensures
        forall|i: int| #[trigger] bit(image_upto(bits_seq(mask), perm, k), i) ==> exists|t: int|
            0 <= t < k && perm[bits_seq(mask)[t]] == i,
    decreases k,
{
    lemma_bits_seq(mask);
    lemma_bits_all();
    if k == 0 {
        crate::bits::lemma_bit_zero();
    } else {
        lemma_image_bits(mask, perm, k - 1);
        let j = bits_seq(mask)[k - 1];
        assert(bit(mask, j));
        crate::bits::lemma_bit_single(perm[j] as u64);
        assert forall|i: int| #[trigger] bit(image_upto(bits_seq(mask), perm, k), i) implies exists|t: int|
            0 <= t < k && perm[bits_seq(mask)[t]] == i by {
            if bit(image_upto(bits_seq(mask), perm, k - 1), i) {
                let t = choose|t: int| 0 <= t < k - 1 && perm[bits_seq(mask)[t]] == i;
                assert(0 <= t < k && perm[bits_seq(mask)[t]] == i);
            } else {
                assert(i == perm[j]);
            }
        }
    }
}

} // verus!
