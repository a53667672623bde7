//! Bitmasks of vertices: the set of positions of a `u64`, iterated in increasing order.
use vstd::prelude::*;
use vstd::std_specs::bits::*;

verus! {

/// Whether position `i` of the mask `m` is set.
pub open spec fn bit(m: u64, i: int) -> bool {
    0 <= i < 64 && (m >> (i as u64)) & 1u64 == 1u64
}

/// The set of positions of `m`.
pub open spec fn mask_set(m: u64) -> Set<int> {
    Set::new(|i: int| bit(m, i))
}

/// The positions of `m` in increasing order, obtained by repeatedly taking the lowest one.
pub open spec fn bits_seq(m: u64) -> Seq<int>
    decreases m,
{
    if m == 0 {
        Seq::empty()
    } else {
        proof {
            lemma_clear_lowest_smaller(m);
        }
        seq![u64_trailing_zeros(m) as int] + bits_seq(m & ((m - 1) as u64))
    }
}

/// The number of positions of `m`.
pub open spec fn popcount(m: u64) -> nat {
    bits_seq(m).len()
}

/// A strictly increasing sequence of positions.
pub open spec fn strictly_increasing(s: Seq<int>) -> bool {
    forall|a: int, b: int| 0 <= a < b < s.len() ==> s[a] < s[b]
}

pub proof fn lemma_clear_lowest_smaller(m: u64)
    requires
        m != 0,
    ensures
        m & ((m - 1) as u64) < m,
{
    assert(m != 0 ==> m & ((m - 1) as u64) < m) by (bit_vector);
}

/// Bitwise or, and, complement and single bits, position by position.
pub proof fn lemma_bit_ops(a: u64, b: u64, i: u64, v: u64)
    requires
        i < 64,
        v < 64,
    ensures
        ((a | b) >> i) & 1 == 1 <==> ((a >> i) & 1 == 1 || (b >> i) & 1 == 1),
        ((a & b) >> i) & 1 == 1 <==> ((a >> i) & 1 == 1 && (b >> i) & 1 == 1),
        ((!a) >> i) & 1 == 1 <==> !((a >> i) & 1 == 1),
        ((1u64 << v) >> i) & 1 == 1 <==> i == v,
        (0u64 >> i) & 1 != 1,
{
    assert(((a | b) >> i) & 1 == 1 <==> ((a >> i) & 1 == 1 || (b >> i) & 1 == 1)) by (bit_vector);
    assert(((a & b) >> i) & 1 == 1 <==> ((a >> i) & 1 == 1 && (b >> i) & 1 == 1))
        by (bit_vector);
    assert(i < 64 ==> (((!a) >> i) & 1 == 1 <==> !((a >> i) & 1 == 1))) by (bit_vector);
    assert(i < 64 && v < 64 ==> (((1u64 << v) >> i) & 1 == 1 <==> i == v)) by (bit_vector);
    assert((0u64 >> i) & 1 != 1) by (bit_vector);
}

pub proof fn lemma_bit_or(a: u64, b: u64)
    ensures
        forall|i: int| #[trigger] bit(a | b, i) <==> (bit(a, i) || bit(b, i)),
{
    assert forall|i: int| #[trigger] bit(a | b, i) <==> (bit(a, i) || bit(b, i)) by {
        if 0 <= i < 64 {
            lemma_bit_ops(a, b, i as u64, 0);
        }
    }
}

pub proof fn lemma_bit_and(a: u64, b: u64)
    ensures
        forall|i: int| #[trigger] bit(a & b, i) <==> (bit(a, i) && bit(b, i)),
{
    assert forall|i: int| #[trigger] bit(a & b, i) <==> (bit(a, i) && bit(b, i)) by {
        if 0 <= i < 64 {
            lemma_bit_ops(a, b, i as u64, 0);
        }
    }
}

pub proof fn lemma_bit_not(a: u64)
    ensures
        forall|i: int| 0 <= i < 64 ==> (#[trigger] bit(!a, i) <==> !bit(a, i)),
{
    assert forall|i: int| 0 <= i < 64 implies (#[trigger] bit(!a, i) <==> !bit(a, i)) by {
        lemma_bit_ops(a, a, i as u64, 0);
    }
}

pub proof fn lemma_bit_single(v: u64)
    requires
        v < 64,
    ensures
        forall|i: int| #[trigger] bit(1u64 << v, i) <==> i == v,
{
    assert forall|i: int| #[trigger] bit(1u64 << v, i) <==> i == v by {
        if 0 <= i < 64 {
            lemma_bit_ops(0, 0, i as u64, v);
        }
    }
}

pub proof fn lemma_bit_zero()
    ensures
        forall|i: int| !#[trigger] bit(0u64, i),
{
    assert forall|i: int| !#[trigger] bit(0u64, i) by {
        if 0 <= i < 64 {
            lemma_bit_ops(0, 0, i as u64, 0);
        }
    }
}

/// All the facts about `|`, `&`, `!`, `1 << v` and `0`, position by position.
pub proof fn lemma_bits_all()
    ensures
        forall|a: u64, b: u64, i: int| #[trigger] bit(a | b, i) <==> (bit(a, i) || bit(b, i)),
        forall|a: u64, b: u64, i: int| #[trigger] bit(a & b, i) <==> (bit(a, i) && bit(b, i)),
        forall|a: u64, i: int| 0 <= i < 64 ==> (#[trigger] bit(!a, i) <==> !bit(a, i)),
        forall|v: u64, i: int| v < 64 ==> (#[trigger] bit(1u64 << v, i) <==> i == v),
        forall|i: int| !#[trigger] bit(0u64, i),
{
    assert forall|a: u64, b: u64, i: int| #[trigger] bit(a | b, i) <==> (bit(a, i) || bit(b, i)) by {
        lemma_bit_or(a, b);
    }
    assert forall|a: u64, b: u64, i: int| #[trigger] bit(a & b, i) <==> (bit(a, i) && bit(b, i)) by {
        lemma_bit_and(a, b);
    }
    assert forall|a: u64, i: int| 0 <= i < 64 implies (#[trigger] bit(!a, i) <==> !bit(a, i)) by {
        lemma_bit_not(a);
    }
    assert forall|v: u64, i: int| v < 64 implies (#[trigger] bit(1u64 << v, i) <==> i == v) by {
        lemma_bit_single(v);
    }
    lemma_bit_zero();
}

proof fn lemma_shift_step(a: u64, k: u64)
    requires
        k < 64,
    ensures
        a >> k == ((a >> ((k + 1) as u64)) << 1u64) | ((a >> k) & 1u64),
        a >> 64u64 == 0,
{
    assert(k < 64 ==> a >> k == ((a >> ((k + 1) as u64)) << 1u64) | ((a >> k) & 1u64)) by (bit_vector);
    assert(a >> 64u64 == 0) by (bit_vector);
}

proof fn lemma_bits_ext_from(a: u64, b: u64, k: u64)
    requires
        k <= 64,
        forall|i: int| k <= i < 64 ==> (bit(a, i) <==> bit(b, i)),
    ensures
        a >> k == b >> k,
    decreases 64 - k,
{
    if k == 64 {
        lemma_shift_step(a, 0);
        lemma_shift_step(b, 0);
    } else {
        lemma_bits_ext_from(a, b, (k + 1) as u64);
        lemma_shift_step(a, k);
        lemma_shift_step(b, k);
        assert(bit(a, k as int) <==> bit(b, k as int));
        assert((a >> k) & 1u64 == (b >> k) & 1u64) by {
            lemma_and_one(a >> k);
            lemma_and_one(b >> k);
        }
    }
}

/// `x & 1` is either 0 or 1; it is `x % 2`, and `x >> 1` is `x / 2`.
pub proof fn lemma_and_one(x: u64)
    ensures
        x & 1u64 == 0u64 || x & 1u64 == 1u64,
        x & 1u64 == x % 2,
        x >> 1u64 == x / 2,
        x >> 0u64 == x,
{
    assert(x & 1u64 == 0u64 || x & 1u64 == 1u64) by (bit_vector);
    assert(x & 1u64 == x % 2) by (bit_vector);
    assert(x >> 1u64 == x / 2) by (bit_vector);
    assert(x >> 0u64 == x) by (bit_vector);
}

/// Two masks with the same positions are equal.
pub proof fn lemma_bits_ext(a: u64, b: u64)
    requires
        forall|i: int| 0 <= i < 64 ==> (bit(a, i) <==> bit(b, i)),
    ensures
        a == b,
{
    lemma_bits_ext_from(a, b, 0);
    lemma_and_one(a);
    lemma_and_one(b);
}

/// Masks are equal exactly when their sets of positions are.
pub proof fn lemma_mask_set_ext(a: u64, b: u64)
    ensures
        (mask_set(a) == mask_set(b)) <==> a == b,
{
    if mask_set(a) == mask_set(b) {
        assert forall|i: int| 0 <= i < 64 implies (bit(a, i) <==> bit(b, i)) by {
            assert(mask_set(a).contains(i) == mask_set(b).contains(i));
        }
        lemma_bits_ext(a, b);
    }
}

/// Clearing the lowest position of a nonzero mask.
pub proof fn lemma_clear_lowest(m: u64)
    requires
        m != 0,
    ensures
        u64_trailing_zeros(m) < 64,
        bit(m, u64_trailing_zeros(m) as int),
        forall|j: int| 0 <= j < u64_trailing_zeros(m) ==> !bit(m, j),
        forall|j: int| #[trigger]
            bit(m & ((m - 1) as u64), j) <==> (bit(m, j) && j != u64_trailing_zeros(m)),
{
    axiom_u64_trailing_zeros(m);
    let t = u64_trailing_zeros(m) as u64;
    assert(m != 0 && t < 64 && (m >> t) & 1u64 == 1u64 && m << ((64 - t) as u64) == 0 ==> m & ((m - 1) as u64)
        == m & !(1u64 << t)) by (bit_vector);
    lemma_bits_all();
    assert forall|j: int| 0 <= j < t implies !bit(m, j) by {
        assert((m >> (j as u64)) & 1u64 == 0u64);
    }
}

/// The list of positions holds exactly the set positions, in increasing order.
pub proof fn lemma_bits_seq(m: u64)
    ensures
        forall|i: int| bits_seq(m).contains(i) <==> #[trigger] bit(m, i),
        forall|k: int| 0 <= k < bits_seq(m).len() ==> 0 <= #[trigger] bits_seq(m)[k] < 64,
        forall|k: int| 0 <= k < bits_seq(m).len() ==> bit(m, #[trigger] bits_seq(m)[k]),
        strictly_increasing(bits_seq(m)),
        bits_seq(m).no_duplicates(),
        bits_seq(m).to_set() == mask_set(m),
        bits_seq(m).len() <= 64,
        m == 0 <==> bits_seq(m).len() == 0,
    decreases m,
{
    if m == 0 {
        lemma_bit_zero();
        assert(bits_seq(m).to_set() =~= mask_set(m));
    } else {
        lemma_clear_lowest(m);
        let r = m & ((m - 1) as u64);
        lemma_clear_lowest_smaller(m);
        lemma_bits_seq(r);
        let t = u64_trailing_zeros(m) as int;
        let s = bits_seq(m);
        assert(s == seq![t] + bits_seq(r));
        assert forall|i: int| s.contains(i) <==> #[trigger] bit(m, i) by {
            if s.contains(i) {
                let k = choose|k: int| 0 <= k < s.len() && s[k] == i;
                if k > 0 {
                    assert(bits_seq(r)[k - 1] == i);
                    assert(bits_seq(r).contains(i));
                }
            }
            if bit(m, i) && i != t {
                assert(bit(r, i));
                let k = choose|k: int| 0 <= k < bits_seq(r).len() && bits_seq(r)[k] == i;
                assert(s[k + 1] == i);
            }
            if i == t {
                assert(s[0] == i);
            }
        }
        assert forall|k: int| 0 <= k < s.len() implies 0 <= #[trigger] s[k] < 64 && bit(m, s[k]) by {
            if k > 0 {
                assert(s[k] == bits_seq(r)[k - 1]);
                assert(bit(r, s[k]));
            }
        }
        assert forall|a: int, b: int| 0 <= a < b < s.len() implies s[a] < s[b] by {
            if a == 0 {
                assert(s[b] == bits_seq(r)[b - 1]);
                assert(bit(r, s[b]));
                assert(bit(m, s[b]) && s[b] != t);
                if s[b] < t {
                    assert(!bit(m, s[b]));
                }
            } else {
                assert(s[a] == bits_seq(r)[a - 1]);
                assert(s[b] == bits_seq(r)[b - 1]);
            }
        }
        assert(s.to_set() =~= mask_set(m)) by {
            assert forall|i: int| s.to_set().contains(i) <==> mask_set(m).contains(i) by {
                assert(s.contains(i) <==> bit(m, i));
            }
        }
        if r == 0 {
            assert(bits_seq(r).len() == 0);
        }
        assert(s.len() <= 64) by {
            if bits_seq(r).len() == 64 {
                // the positions of r are 64 distinct values below 64, all above t
                assert(forall|k: int| 0 <= k < 64 ==> #[trigger] bits_seq(r)[k] >= k) by {
                    assert forall|k: int| 0 <= k < 64 implies #[trigger] bits_seq(r)[k] >= k by {
                        lemma_increasing_lower_bound(bits_seq(r), k);
                    }
                }
                assert(bits_seq(r)[0] >= 0);
                assert(!bit(r, t));
                assert(bit(m, bits_seq(r)[63]));
                lemma_increasing_lower_bound(bits_seq(r), 63);
                // bits_seq(r) = [0..64), so t, which is below 64, is among them
                assert(bits_seq(r)[t] >= t);
                lemma_increasing_upper_bound(bits_seq(r), t);
                assert(bits_seq(r)[t] == t);
                assert(bits_seq(r).contains(t));
            }
        }
    }
}

proof fn lemma_increasing_lower_bound(s: Seq<int>, k: int)
    requires
        strictly_increasing(s),
        0 <= k < s.len(),
        forall|j: int| 0 <= j < s.len() ==> 0 <= #[trigger] s[j],
    ensures
        s[k] >= k,
    decreases k,
{
    if k > 0 {
        lemma_increasing_lower_bound(s, k - 1);
    }
}

proof fn lemma_increasing_upper_bound(s: Seq<int>, k: int)
    requires
        strictly_increasing(s),
        0 <= k < s.len(),
        forall|j: int| 0 <= j < s.len() ==> #[trigger] s[j] < s.len(),
    ensures
        s[k] <= k,
    decreases s.len() - k,
{
    if k < s.len() - 1 {
        lemma_increasing_upper_bound(s, k + 1);
    }
}

/// An iterator over the positions of a bitmask, lowest first.
#[derive(Clone, Copy)]
pub struct BitPositions(pub u64);

impl BitPositions {
    /// The next position, removed from the mask; `None` once the mask is empty.
    pub fn next(&mut self) -> (res: Option<usize>)
        ensures
            old(self).0 == 0 ==> res is None && final(self).0 == 0,
            old(self).0 != 0 ==> res == Some(u64_trailing_zeros(old(self).0) as usize)
                && final(self).0 == old(self).0 & ((old(self).0 - 1) as u64),
            bits_seq(old(self).0) == (match res {
                Some(u) => seq![u as int],
                None => Seq::<int>::empty(),
            }) + bits_seq(final(self).0),
    {
        let mask = self.0;
        if mask == 0 {
            return None;
        }
        proof {
            lemma_clear_lowest(mask);
        }
        let u = mask.trailing_zeros() as usize;
        self.0 = mask & (mask - 1);
        Some(u)
    }
}

/// The positions of `mask`, lowest first.
pub fn bit_positions(mask: u64) -> (res: Vec<usize>)
    ensures
        res@.len() == bits_seq(mask).len(),
        forall|k: int| 0 <= k < res@.len() ==> #[trigger] res@[k] as int == bits_seq(mask)[k],
{
    let mut it = BitPositions(mask);
    let mut res: Vec<usize> = Vec::new();
    loop
        invariant
            bits_seq(mask) == res@.map_values(|u: usize| u as int) + bits_seq(it.0),
        ensures
            bits_seq(mask) == res@.map_values(|u: usize| u as int),
        decreases it.0,
    {
        let ghost before = it.0;
        let ghost prev = res@;
        match it.next() {
            Some(u) => {
                proof {
                    lemma_clear_lowest_smaller(before);
                }
                res.push(u);
                assert(res@.map_values(|u: usize| u as int) =~= prev.map_values(|u: usize| u as int).push(u as int));
            },
            None => {
                assert(bits_seq(it.0) =~= Seq::<int>::empty());
                assert(bits_seq(mask) =~= res@.map_values(|u: usize| u as int));
                break ;
            },
        }
    }
    proof {
        assert forall|k: int| 0 <= k < res@.len() implies #[trigger] res@[k] as int == bits_seq(
            mask,
        )[k] by {
            assert(res@.map_values(|u: usize| u as int)[k] == res@[k] as int);
        }
    }
    res
}

/// The number of positions of `mask`.
pub fn count_ones(mask: u64) -> (c: u32)
    ensures
        c == popcount(mask),
        c <= 64,
{
    let mut it = BitPositions(mask);
    let mut c: u32 = 0;
    proof {
        lemma_bits_seq(mask);
    }
    while it.0 != 0
        invariant
            c + bits_seq(it.0).len() == bits_seq(mask).len(),
            bits_seq(mask).len() <= 64,
        decreases it.0,
    {
        let ghost before = it.0;
        let _ = it.next();
        proof {
            lemma_clear_lowest_smaller(before);
        }
        c = c + 1;
    }
    c
}


/// The number of positions of `m` below `k`.
pub open spec fn count_below(m: u64, k: int) -> nat
    decreases k,
{
    if k <= 0 {
        0
    } else {
        count_below(m, k - 1) + (if bit(m, k - 1) {
            1nat
        } else {
            0nat
        })
    }
}

/// Between `a` and `b` there are at most `b - a` positions.
pub proof fn lemma_count_below_step(m: u64, a: int, b: int)
    requires
        0 <= a <= b,
    ensures
        count_below(m, a) <= count_below(m, b) <= count_below(m, a) + (b - a),
    decreases b - a,
{
    if a < b {
        lemma_count_below_step(m, a, b - 1);
    }
}

/// No positions at or above `n`: counting below `k >= n` counts them all.
pub proof fn lemma_count_below_high(m: u64, n: int, k: int)
    requires
        0 <= n <= k,
        forall|i: int| #[trigger] bit(m, i) ==> i < n,
    ensures
        count_below(m, k) == count_below(m, n),
    decreases k - n,
{
    if n < k {
        lemma_count_below_high(m, n, k - 1);
    }
}

/// Clearing the lowest position removes it from the counts above it.
proof fn lemma_count_below_clear(m: u64, k: int)
    requires
        m != 0,
        k >= 0,
    ensures
        count_below(m & ((m - 1) as u64), k) + (if u64_trailing_zeros(m) < k { 1nat } else { 0nat }) == count_below(m, k),
    decreases k,
{
    lemma_clear_lowest(m);
    if k > 0 {
        lemma_count_below_clear(m, k - 1);
    }
}

/// All the positions lie below 64.
pub proof fn lemma_count_below_popcount(m: u64)
    ensures
        count_below(m, 64) == popcount(m),
    decreases m,
{
    if m == 0 {
        lemma_bit_zero();
        lemma_count_below_zero(64);
    } else {
        let r = m & ((m - 1) as u64);
        lemma_clear_lowest_smaller(m);
        lemma_clear_lowest(m);
        lemma_count_below_popcount(r);
        lemma_count_below_clear(m, 64);
        assert(bits_seq(m) == seq![u64_trailing_zeros(m) as int] + bits_seq(r));
    }
}

proof fn lemma_count_below_zero(k: int)
    ensures
        count_below(0u64, k) == 0,
    decreases k,
{
    lemma_bit_zero();
    if k > 0 {
        lemma_count_below_zero(k - 1);
    }
}

/// There are no positions below the lowest one, which is itself a position.
pub proof fn lemma_count_below_lowest(m: u64)
    requires
        m != 0,
    ensures
        count_below(m, u64_trailing_zeros(m) as int) == 0,
        count_below(m, u64_trailing_zeros(m) as int + 1) == 1,
{
    lemma_clear_lowest(m);
    lemma_count_below_none(m, u64_trailing_zeros(m) as int);
}

proof fn lemma_count_below_none(m: u64, k: int)
    requires
        forall|j: int| 0 <= j < k ==> !bit(m, j),
    ensures
        count_below(m, k) == 0,
    decreases k,
{
    if k > 0 {
        lemma_count_below_none(m, k - 1);
    }
}

} // verus!
