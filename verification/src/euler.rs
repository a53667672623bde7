//! Euler characteristics of the forested graph complex from the dimensions of
//! its pieces: row `e` of the dimensions counts, for the graphs of excess
//! `e`, the forests of each size.
use vstd::prelude::*;
use crate::bits::{count_ones, popcount};

verus! {

/// The sign `(-1)^k`.
pub open spec fn sign_of(k: int) -> int {
    if k % 2 == 0 { 1 } else { -1 }
}

/// The first `n` terms of the alternating sum for the characteristic `l - 1`:
/// term `i` is `(-1)^(l + i)` times the count of forests of size `i` in row
/// `i + len - l`.
pub open spec fn euler_sum(dims: Seq<Seq<usize>>, l: int, n: int) -> int
    decreases n,
{
    if n <= 0 {
        0
    } else {
        euler_sum(dims, l, n - 1) + sign_of(l + n - 1) * dims[n - 1 + dims.len() - l][n - 1]
    }
}

/// Characteristic `k`: the count in the last row, plus, for `k` below the
/// number of rows, the alternating sum over the diagonal ending there.
pub open spec fn euler_char(dims: Seq<Seq<usize>>, k: int) -> int {
    let len = dims.len() as int;
    dims[len - 1][k] + if k < len { euler_sum(dims, k + 1, k + 1) } else { 0 }
}

/// The dimensions that `euler_characteristics` takes: at least one row, row
/// `r` with more than `r` counts, and counts small enough that the sums fit.
pub open spec fn euler_ready(dims: Seq<Seq<usize>>) -> bool {
    &&& dims.len() >= 1
    &&& forall|r: int| 0 <= r < dims.len() ==> #[trigger] dims[r].len() > r
    &&& forall|r: int, c: int| 0 <= r < dims.len() && 0 <= c < dims[r].len() ==> #[trigger] dims[r][c] * (dims.len() + 1) <= isize::MAX
}

/// Raising one count off the diagonal sum by one changes the partial sum by
/// the sign of its term, where the count lies on the diagonal of `l`.
proof fn lemma_euler_sum_raise(d1: Seq<Seq<usize>>, d2: Seq<Seq<usize>>, r: int, c: int, l: int, n: int)
    requires
        d1.len() == d2.len(),
        0 <= n <= l <= d1.len(),
        forall|x: int| 0 <= x < d1.len() ==> #[trigger] d1[x].len() == d2[x].len() && d1[x].len() > x,
        forall|x: int, y: int| 0 <= x < d1.len() && 0 <= y < d1[x].len() && (x != r || y != c) ==> #[trigger] d2[x][y] == d1[x][y],
        0 <= r < d1.len() && 0 <= c < d1[r].len(),
        d2[r][c] == d1[r][c] + 1,
    ensures
        euler_sum(d2, l, n) - euler_sum(d1, l, n) == (if c < n && r == c + d1.len() - l { sign_of(l + c) } else { 0 }),
    decreases n,
{
    if n > 0 {
        lemma_euler_sum_raise(d1, d2, r, c, l, n - 1);
        let x = n - 1 + d1.len() - l;
        assert(d1[x].len() > x);
    }
}

/// How each characteristic answers one more forest: raising the count of
/// forests of size `c` in row `r` raises characteristic `k` by
/// `(-1)^(k + 1 + c)` where the count lies on the diagonal of `k`
/// (`r - c == len - 1 - k`), and by one more where it is the count `k` of the
/// last row; it leaves it alone otherwise. The sign does not depend on the
/// number of rows.
pub proof fn lemma_euler_char_raise(d1: Seq<Seq<usize>>, d2: Seq<Seq<usize>>, r: int, c: int, k: int)
    requires
        d1.len() == d2.len(),
        d1.len() >= 1,
        forall|x: int| 0 <= x < d1.len() ==> #[trigger] d1[x].len() == d2[x].len() && d1[x].len() > x,
        forall|x: int, y: int| 0 <= x < d1.len() && 0 <= y < d1[x].len() && (x != r || y != c) ==> #[trigger] d2[x][y] == d1[x][y],
        0 <= r < d1.len() && 0 <= c < d1[r].len(),
        d2[r][c] == d1[r][c] + 1,
        0 <= k < d1[d1.len() - 1].len(),
    ensures
        euler_char(d2, k) - euler_char(d1, k) == (if r == d1.len() - 1 && c == k { 1int } else { 0int })
            + (if k < d1.len() && r - c == d1.len() - 1 - k { sign_of(k + 1 + c) } else { 0 }),
{
    let len = d1.len() as int;
    if !(r == len - 1 && c == k) {
        assert(d2[len - 1][k] == d1[len - 1][k]);
    }
    if k < len {
        lemma_euler_sum_raise(d1, d2, r, c, k + 1, k + 1);
    }
}

/// The partial sums over counts that are all zero vanish.
proof fn lemma_euler_sum_zero(d: Seq<Seq<usize>>, l: int, n: int)
    requires
        0 <= n <= l <= d.len(),
        forall|x: int| 0 <= x < d.len() ==> #[trigger] d[x].len() > x,
        forall|x: int, y: int| 0 <= x < d.len() && 0 <= y < d[x].len() ==> #[trigger] d[x][y] == 0,
    ensures
        euler_sum(d, l, n) == 0,
    decreases n,
{
    if n > 0 {
        lemma_euler_sum_zero(d, l, n - 1);
        let x = n - 1 + d.len() - l;
        assert(d[x].len() > x);
        assert(d[x][n - 1] == 0);
    }
}

/// With no forests at all every characteristic is 0; with
/// `lemma_euler_char_raise` this fixes every characteristic of every table of
/// counts.
pub proof fn lemma_euler_char_zero(d: Seq<Seq<usize>>, k: int)
    requires
        d.len() >= 1,
        forall|x: int| 0 <= x < d.len() ==> #[trigger] d[x].len() > x,
        forall|x: int, y: int| 0 <= x < d.len() && 0 <= y < d[x].len() ==> #[trigger] d[x][y] == 0,
        0 <= k < d[d.len() - 1].len(),
    ensures
        euler_char(d, k) == 0,
{
    let len = d.len() as int;
    assert(d[len - 1][k] == 0);
    if k < len {
        lemma_euler_sum_zero(d, k + 1, k + 1);
    }
}

/// The sum of the first `n` terms stays within `n` times the bound.
proof fn lemma_euler_sum_bound(dims: Seq<Seq<usize>>, l: int, n: int, b: int)
    requires
        0 <= n <= l <= dims.len(),
        forall|r: int| 0 <= r < dims.len() ==> #[trigger] dims[r].len() > r,
        forall|r: int, c: int| 0 <= r < dims.len() && 0 <= c < dims[r].len() ==> #[trigger] dims[r][c] <= b,
    ensures
        -n * b <= euler_sum(dims, l, n) <= n * b,
    decreases n,
{
    if n > 0 {
        lemma_euler_sum_bound(dims, l, n - 1, b);
        let r = n - 1 + dims.len() - l;
        assert(dims[r].len() > r);
        assert(dims[r][n - 1] <= b);
        assert(-n * b == -(n - 1) * b - b) by (nonlinear_arith);
        assert(n * b == (n - 1) * b + b) by (nonlinear_arith);
    }
}

/// The Euler characteristics from the dimensions: one for each count of the
/// last row, as `euler_char` says.
pub fn euler_characteristics(dims: &Vec<Vec<usize>>) -> (chars: Vec<isize>)
    requires
        euler_ready(dims@.map_values(|v: Vec<usize>| v@)),
    ensures
        chars@.len() == dims@.last()@.len(),
        forall|k: int| 0 <= k < chars@.len() ==> #[trigger] chars@[k] as int == euler_char(dims@.map_values(|v: Vec<usize>| v@), k),
{
    let ghost d = dims@.map_values(|v: Vec<usize>| v@);
    let len = dims.len();
    let last = &dims[len - 1];
    let ghost bound: int = (isize::MAX as int) / (len as int + 1);
    proof {
        assert(d[len - 1] == last@);
        assert forall|r: int, c: int| 0 <= r < d.len() && 0 <= c < d[r].len() implies #[trigger] d[r][c] <= bound by {
            let x = d[r][c] as int;
            let m = len as int + 1;
            assert(x * m <= isize::MAX);
            vstd::arithmetic::div_mod::lemma_div_is_ordered(x * m, isize::MAX as int, m);
            vstd::arithmetic::div_mod::lemma_div_multiples_vanish(x, m);
            vstd::arithmetic::mul::lemma_mul_is_commutative(x, m);
        }
        assert(bound * (len + 1) <= isize::MAX) by {
            let mm: int = isize::MAX as int;
            let m: int = len as int + 1;
            vstd::arithmetic::div_mod::lemma_fundamental_div_mod(mm, m);
            vstd::arithmetic::div_mod::lemma_mod_pos_bound(mm, m);
            assert(bound * m <= mm) by (nonlinear_arith)
                requires mm == m * bound + mm % m, mm % m >= 0;
        }
        assert(bound >= 0) by {
            vstd::arithmetic::div_mod::lemma_div_pos_is_pos(isize::MAX as int, len as int + 1);
        }
    }
    let mut chars: Vec<isize> = Vec::new();
    let mut k: usize = 0;
    while k < last.len()
        invariant
            d == dims@.map_values(|v: Vec<usize>| v@),
            euler_ready(d),
            len == d.len(),
            last@ == d[len - 1],
            k <= last@.len(),
            chars@.len() == k,
            forall|c: int| 0 <= c < k ==> #[trigger] chars@[c] as int == d[len - 1][c] as int,
            0 <= bound,
            forall|r: int, c: int| 0 <= r < d.len() && 0 <= c < d[r].len() ==> #[trigger] d[r][c] <= bound,
            bound * (len + 1) <= isize::MAX,
        decreases last@.len() - k,
    {
        proof {
            assert(last@[k as int] <= bound);
            assert(bound <= isize::MAX) by (nonlinear_arith)
                requires bound * (len + 1) <= isize::MAX, bound >= 0, len >= 0;
        }
        chars.push(last[k] as isize);
        k = k + 1;
    }
    proof {
        assert(d[len - 1].len() > len - 1);
    }
    let mut l = len;
    while l > 0
        invariant
            d == dims@.map_values(|v: Vec<usize>| v@),
            euler_ready(d),
            len == d.len(),
            l <= len,
            chars@.len() == d[len - 1].len(),
            d[len - 1].len() >= len,
            forall|c: int| 0 <= c < chars@.len() && (c < l || c >= len) ==> #[trigger] chars@[c] as int == d[len - 1][c] as int,
            forall|c: int| l <= c < len ==> #[trigger] chars@[c] as int == euler_char(d, c),
            0 <= bound,
            forall|r: int, c: int| 0 <= r < d.len() && 0 <= c < d[r].len() ==> #[trigger] d[r][c] <= bound,
            bound * (len + 1) <= isize::MAX,
        decreases l,
    {
        let ghost start = chars@[l - 1] as int;
        let mut s: isize = if l % 2 == 0 { 1 } else { -1 };
        let mut i: usize = 0;
        while i < l
            invariant
                d == dims@.map_values(|v: Vec<usize>| v@),
                euler_ready(d),
                len == d.len(),
                1 <= l <= len,
                i <= l,
                chars@.len() == d[len - 1].len(),
                d[len - 1].len() >= len,
                start == d[len - 1][l - 1] as int,
                chars@[l - 1] as int == start + euler_sum(d, l as int, i as int),
                s as int == sign_of(l + i),
                forall|c: int| 0 <= c < chars@.len() && (c < l - 1 || c >= len) ==> #[trigger] chars@[c] as int == d[len - 1][c] as int,
                forall|c: int| l <= c < len ==> #[trigger] chars@[c] as int == euler_char(d, c),
                0 <= bound,
                forall|r: int, c: int| 0 <= r < d.len() && 0 <= c < d[r].len() ==> #[trigger] d[r][c] <= bound,
                bound * (len + 1) <= isize::MAX,
            decreases l - i,
        {
            let r = len - l + i;
            proof {
                assert(d[r as int] == dims@[r as int]@);
                assert(d[r as int].len() > r);
                assert(d[r as int][i as int] <= bound);
                lemma_euler_sum_bound(d, l as int, i as int + 1, bound);
                assert(start <= bound);
                assert((i + 1) * bound + bound <= (len + 1) * bound) by (nonlinear_arith)
                    requires i + 1 <= len, bound >= 0;
                assert((len + 1) * bound == bound * (len + 1)) by (nonlinear_arith);
            }
            let v = dims[r][i] as isize;
            let term = if s > 0 { v } else { -v };
            let cur = chars[l - 1];
            proof {
                assert(v as int == d[r as int][i as int]);
                assert(term as int == sign_of(l + i) * d[r as int][i as int]);
                assert(euler_sum(d, l as int, i as int + 1) == euler_sum(d, l as int, i as int) + sign_of(l + i) * d[r as int][i as int]);
                assert(cur as int + term as int == start + euler_sum(d, l as int, i as int + 1));
                let nn: int = i as int + 1;
                let ll: int = len as int + 1;
                assert(-nn * bound <= euler_sum(d, l as int, nn) <= nn * bound);
                assert(nn * bound + bound <= ll * bound) by (nonlinear_arith)
                    requires nn <= len, bound >= 0, ll == len + 1;
                assert(ll * bound == bound * (len + 1)) by (nonlinear_arith)
                    requires ll == len + 1;
                assert(-nn * bound >= -(ll * bound)) by (nonlinear_arith)
                    requires nn <= ll, bound >= 0;
                assert(0 <= start <= bound);
            }
            chars.set(l - 1, cur + term);
            s = -s;
            i = i + 1;
        }
        proof {
            assert(chars@[l - 1] as int == euler_char(d, l - 1));
        }
        l = l - 1;
    }
    proof {
        assert forall|k: int| 0 <= k < chars@.len() implies #[trigger] chars@[k] as int == euler_char(d, k) by {
            if k >= len {
                assert(euler_char(d, k) == d[len - 1][k]);
            }
        }
    }
    chars
}

/// The number of the first `n` forests with `k` edges.
pub open spec fn size_count(fs: Seq<u64>, k: int, n: int) -> nat
    decreases n,
{
    if n <= 0 {
        0
    } else {
        size_count(fs, k, n - 1) + if popcount(fs[n - 1]) == k { 1nat } else { 0nat }
    }
}

/// The forests counted by their number of edges, for each number below
/// `len`.
pub fn forest_size_counts(forests: &Vec<u64>, len: usize) -> (r: Vec<usize>)
    requires
        forall|i: int| 0 <= i < forests@.len() ==> popcount(#[trigger] forests@[i]) < len,
    ensures
        r@.len() == len,
        forall|k: int| 0 <= k < len ==> #[trigger] r@[k] == size_count(forests@, k, forests@.len() as int),
{
    let mut r: Vec<usize> = Vec::new();
    let mut k: usize = 0;
    while k < len
        invariant
            k <= len,
            r@.len() == k,
            forall|a: int| 0 <= a < k ==> #[trigger] r@[a] == 0,
        decreases len - k,
    {
        r.push(0);
        k = k + 1;
    }
    let mut i: usize = 0;
    while i < forests.len()
        invariant
            i <= forests@.len(),
            r@.len() == len,
            forall|a: int| 0 <= a < forests@.len() ==> popcount(#[trigger] forests@[a]) < len,
            forall|a: int| 0 <= a < len ==> #[trigger] r@[a] == size_count(forests@, a, i as int),
            forall|a: int| 0 <= a < len ==> #[trigger] r@[a] <= i,
        decreases forests@.len() - i,
    {
        let c = count_ones(forests[i]) as usize;
        proof {
            assert(popcount(forests@[i as int]) < len);
            assert(r@[c as int] <= i);
        }
        let cur = r[c];
        r.set(c, cur + 1);
        i = i + 1;
    }
    r
}

} // verus!
