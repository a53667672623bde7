//! Sorting by an integer key.
use vstd::prelude::*;
use vstd::relations::sorted_by;

verus! {

broadcast use vstd::seq_lib::group_to_multiset_ensures;

/// A value ordered by an integer key.
pub trait SortKey {
    spec fn key_spec(&self) -> int;

    fn key(&self) -> (k: u128)
        ensures
            k == self.key_spec(),
    ;
}

impl SortKey for u64 {
    open spec fn key_spec(&self) -> int {
        *self as int
    }

    fn key(&self) -> (k: u128) {
        *self as u128
    }
}

/// Pairs of vertices, ordered lexicographically.
impl SortKey for (u8, u8) {
    open spec fn key_spec(&self) -> int {
        self.0 * 256 + self.1
    }

    fn key(&self) -> (k: u128) {
        self.0 as u128 * 256 + self.1 as u128
    }
}

/// Pairs of vertices carrying an index, ordered by the pair alone.
impl SortKey for ((u8, u8), u8) {
    open spec fn key_spec(&self) -> int {
        self.0.0 * 256 + self.0.1
    }

    fn key(&self) -> (k: u128) {
        self.0.0 as u128 * 256 + self.0.1 as u128
    }
}

/// Pairs of indices, ordered lexicographically.
impl SortKey for (usize, usize) {
    open spec fn key_spec(&self) -> int {
        self.0 * 0x1_0000_0000_0000_0000 + self.1
    }

    fn key(&self) -> (k: u128) {
        self.0 as u128 * 0x1_0000_0000_0000_0000 + self.1 as u128
    }
}

/// A hash with a mask, ordered by the hash.
impl SortKey for (u128, u64) {
    open spec fn key_spec(&self) -> int {
        self.0 as int
    }

    fn key(&self) -> (k: u128) {
        self.0
    }
}

/// The order of the keys.
pub open spec fn key_leq<T: SortKey>() -> spec_fn(T, T) -> bool {
    |a: T, b: T| a.key_spec() <= b.key_spec()
}

/// `s` is sorted by key.
pub open spec fn sorted_by_key<T: SortKey>(s: Seq<T>) -> bool {
    forall|i: int, j: int| 0 <= i < j < s.len() ==> #[trigger] s[i].key_spec() <= #[trigger] s[j].key_spec()
}

/// Sort the vector by key; among equal keys the order is that of the input.
pub fn sort_by_key<T: SortKey + Copy>(v: &mut Vec<T>)
    ensures
        sorted_by_key(final(v)@),
        final(v)@.to_multiset() == old(v)@.to_multiset(),
        final(v)@.len() == old(v)@.len(),
{
    let mut res: Vec<T> = Vec::with_capacity(v.len());
    let mut i: usize = 0;
    let n = v.len();
    while i < n
        invariant
            n == v@.len(),
            i <= n,
            sorted_by_key(res@),
            res@.len() == i,
            res@.to_multiset() == v@.take(i as int).to_multiset(),
        decreases n - i,
    {
        let x = v[i];
        let kx = x.key();
        // first position whose key exceeds that of x
        let mut p: usize = 0;
        while p < res.len() && res[p].key() <= kx
            invariant
                p <= res@.len(),
                kx == x.key_spec(),
                forall|q: int| 0 <= q < p ==> #[trigger] res@[q].key_spec() <= x.key_spec(),
            decreases res@.len() - p,
        {
            p = p + 1;
        }
        let ghost before = res@;
        res.insert(p, x);
        proof {
            assert forall|a: int, b: int| 0 <= a < b < res@.len() implies #[trigger] res@[a].key_spec()
                <= #[trigger] res@[b].key_spec() by {
                if b == p as int {
                    assert(res@[a] == before[a]);
                } else if a == p as int {
                    assert(res@[b] == before[b - 1]);
                    if p < before.len() {
                        assert(before[p as int].key_spec() > x.key_spec());
                        if b - 1 > p {
                            assert(before[p as int].key_spec() <= before[b - 1].key_spec());
                        }
                    }
                } else if b < p {
                    assert(res@[a] == before[a] && res@[b] == before[b]);
                } else if a > p {
                    assert(res@[a] == before[a - 1] && res@[b] == before[b - 1]);
                } else {
                    assert(res@[a] == before[a] && res@[b] == before[b - 1]);
                }
            }
            assert(v@.take(i as int + 1) =~= v@.take(i as int).push(x));
        }
        i = i + 1;
    }
    assert(v@.take(n as int) =~= v@);
    *v = res;
}

/// Sorting a sequence of keys gives the same result whatever order the input was in:
/// two sorted sequences with the same elements and pairwise distinct keys are equal.
pub proof fn lemma_sorted_by_key_unique<T: SortKey>(x: Seq<T>, y: Seq<T>)
    requires
        sorted_by_key(x),
        sorted_by_key(y),
        x.to_multiset() == y.to_multiset(),
        forall|a: T, b: T| a.key_spec() == b.key_spec() ==> a == b,
    ensures
        x == y,
{
    let leq = key_leq::<T>();
    assert(sorted_by(x, leq));
    assert(sorted_by(y, leq));
    assert(vstd::relations::total_ordering(leq)) by {
        assert(vstd::relations::reflexive(leq));
        assert(vstd::relations::antisymmetric(leq));
        assert(vstd::relations::transitive(leq));
        assert(vstd::relations::strongly_connected(leq));
    }
    vstd::seq_lib::lemma_sorted_unique(x, y, leq);
}

} // verus!
