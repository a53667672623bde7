//! Integral kernel vectors from kernel vectors modulo a prime: the leading
//! nonzero rows of a reduced basis, and for each vector the least multiple
//! that, read as a centred integer vector, the matrix sends to zero.
use vstd::prelude::*;
use crate::csr::Csr;
use crate::modular::multp;

verus! {

/// Row `i` has a nonzero entry.
pub open spec fn row_nonzero(rows: Seq<Seq<u16>>, i: int) -> bool {
    exists|j: int| 0 <= j < rows[i].len() && #[trigger] rows[i][j] != 0
}

/// The views of the rows.
pub open spec fn views(rows: Seq<Vec<u16>>) -> Seq<Seq<u16>> {
    rows.map_values(|r: Vec<u16>| r@)
}

/// The rows before the first zero row, transposed and interleaved: returns
/// their number `n` (all rows where none is zero) and the vector whose entry
/// `j * n + i` is entry `j` of row `i`.
pub fn nonzero_rows_transposed(rows: &Vec<Vec<u16>>) -> (r: (Vec<u16>, usize))
    requires
        rows@.len() > 0,
        forall|i: int| 0 <= i < rows@.len() ==> (#[trigger] rows@[i])@.len() == rows@[0]@.len(),
        rows@.len() * rows@[0]@.len() <= usize::MAX,
    ensures
        r.1 <= rows@.len(),
        forall|i: int| 0 <= i < r.1 ==> #[trigger] row_nonzero(views(rows@), i),
        r.1 < rows@.len() ==> !row_nonzero(views(rows@), r.1 as int),
        r.0@.len() == r.1 * rows@[0]@.len(),
        forall|i: int, j: int| 0 <= i < r.1 && 0 <= j < rows@[0]@.len() ==> #[trigger] r.0@[j * r.1 + i] == rows@[i]@[j],
{
    let ghost vr = views(rows@);
    let w = rows[0].len();
    let mut n: usize = 0;
    let mut done = false;
    while n < rows.len() && !done
        invariant
            vr == views(rows@),
            forall|i: int| 0 <= i < rows@.len() ==> (#[trigger] rows@[i])@.len() == w,
            n <= rows@.len(),
            forall|i: int| 0 <= i < n ==> #[trigger] row_nonzero(vr, i),
            done ==> n < rows@.len() && !row_nonzero(vr, n as int),
        decreases rows@.len() - n, if done { 0int } else { 1int },
    {
        let row = &rows[n];
        let mut j: usize = 0;
        let mut any = false;
        while j < row.len()
            invariant
                vr == views(rows@),
                n < rows@.len(),
                row@ == vr[n as int],
                j <= row@.len(),
                any <==> exists|q: int| 0 <= q < j && #[trigger] vr[n as int][q] != 0,
            decreases row@.len() - j,
        {
            if row[j] != 0 {
                any = true;
            }
            j = j + 1;
        }
        if any {
            n = n + 1;
        } else {
            done = true;
        }
    }
    proof {
        assert(n * w <= rows@.len() * w) by (nonlinear_arith)
            requires n <= rows@.len();
    }
    let mut v: Vec<u16> = Vec::new();
    let total = n * w;
    let mut t: usize = 0;
    while t < total
        invariant
            t <= total,
            v@.len() == t,
            forall|q: int| 0 <= q < t ==> #[trigger] v@[q] == 0,
        decreases total - t,
    {
        v.push(0);
        t = t + 1;
    }
    let mut i: usize = 0;
    while i < n
        invariant
            vr == views(rows@),
            forall|q: int| 0 <= q < rows@.len() ==> (#[trigger] rows@[q])@.len() == w,
            n <= rows@.len(),
            total == n * w,
            v@.len() == total,
            i <= n,
            forall|a: int, j: int| 0 <= a < i && 0 <= j < w ==> #[trigger] v@[j * n + a] == rows@[a]@[j],
        decreases n - i,
    {
        let mut j: usize = 0;
        while j < w
            invariant
                vr == views(rows@),
                forall|q: int| 0 <= q < rows@.len() ==> (#[trigger] rows@[q])@.len() == w,
                n <= rows@.len(),
                total == n * w,
                v@.len() == total,
                i < n,
                j <= w,
                forall|a: int, jj: int| 0 <= a < i && 0 <= jj < w ==> #[trigger] v@[jj * n + a] == rows@[a]@[jj],
                forall|jj: int| 0 <= jj < j ==> #[trigger] v@[jj * n + i] == rows@[i as int]@[jj],
            decreases w - j,
        {
            proof {
                assert(j * n + i < total) by (nonlinear_arith)
                    requires j < w, i < n, total == n * w;
            }
            let ghost before = v@;
            v.set(j * n + i, rows[i][j]);
            proof {
                assert forall|a: int, jj: int| 0 <= a < i && 0 <= jj < w implies #[trigger] v@[jj * n + a] == rows@[a]@[jj] by {
                    lemma_index_in(n as int, w as int, a, jj);
                    if jj * n + a == j * n + i {
                        lemma_index_unique(n as int, a, jj, i as int, j as int);
                    }
                    assert(before[jj * n + a] == rows@[a]@[jj]);
                }
                assert forall|jj: int| 0 <= jj < j + 1 implies #[trigger] v@[jj * n + i] == rows@[i as int]@[jj] by {
                    lemma_index_in(n as int, w as int, i as int, jj);
                    if jj < j {
                        if jj * n + i == j * n + i {
                            lemma_index_unique(n as int, i as int, jj, i as int, j as int);
                        }
                        assert(before[jj * n + i] == rows@[i as int]@[jj]);
                    }
                }
            }
            j = j + 1;
        }
        i = i + 1;
    }
    (v, n)
}

/// Position `b * n + a` lies within `n * w` entries.
proof fn lemma_index_in(n: int, w: int, a: int, b: int)
    requires
        0 <= a < n,
        0 <= b < w,
    ensures
        0 <= b * n + a < n * w,
{
    assert(0 <= b * n + a < n * w) by (nonlinear_arith)
        requires 0 <= a < n, 0 <= b < w;
}

/// Positions `b * n + a` with `a` below `n` are distinct for distinct pairs.
proof fn lemma_index_unique(n: int, a: int, b: int, c: int, d: int)
    requires
        0 <= a < n,
        0 <= c < n,
        0 <= b,
        0 <= d,
        b * n + a == d * n + c,
    ensures
        a == c,
        b == d,
{
    vstd::arithmetic::div_mod::lemma_fundamental_div_mod_converse(b * n + a, n, b, a);
    vstd::arithmetic::div_mod::lemma_fundamental_div_mod_converse(d * n + c, n, d, c);
}

/// The residue of `a` modulo `p`, less `p` where twice it exceeds `p`.
pub open spec fn centred(a: int, p: int) -> int {
    let m = a % p;
    if 2 * m > p {
        m - p
    } else {
        m
    }
}

/// The batch scaled by `k` modulo `p`, read as centred integers.
pub open spec fn scaled(v: Seq<u16>, k: int, p: int) -> Seq<i16> {
    Seq::new(v.len(), |i: int| centred(k * v[i], p) as i16)
}

/// Vector `j` of the batch, scaled by `k`, lies in the kernel of the matrix.
pub open spec fn in_kernel(c: Csr, v: Seq<u16>, k: int, p: int, breadth: int, j: int) -> bool {
    !c.not_zero(scaled(v, k, p), breadth, j)
}

/// The least multiplier from 1 below `kk` that puts vector `j` in the
/// kernel, 0 where there is none.
pub open spec fn first_multiple(c: Csr, v: Seq<u16>, p: int, breadth: int, j: int, kk: int) -> int
    decreases kk,
{
    if kk <= 1 {
        0
    } else {
        let f = first_multiple(c, v, p, breadth, j, kk - 1);
        if f != 0 {
            f
        } else if in_kernel(c, v, kk - 1, p, breadth, j) {
            kk - 1
        } else {
            0
        }
    }
}

/// For each vector of the batch, the least multiplier `k` from 1 below
/// `prime / 2` such that the matrix sends the vector scaled by `k` modulo
/// `prime`, read as centred integers, to zero; 0 where there is none.
pub fn find_coefficients(csr: &Csr, v: &Vec<u16>, breadth: usize, prime: u16) -> (coeffs: Vec<u16>)
    requires
        csr.wf(),
        1 < prime < 32768,
        breadth < 64,
        forall|i: int| 0 <= i < csr.indices@.len() ==> (#[trigger] csr.indices@[i] + 1) * breadth <= v@.len(),
    ensures
        coeffs@.len() == breadth,
        forall|j: int| 0 <= j < breadth ==> #[trigger] coeffs@[j] == first_multiple(*csr, v@, prime as int, breadth as int, j, (prime / 2) as int),
{
    let ghost p = prime as int;
    let ghost b = breadth as int;
    let mut coeffs: Vec<u16> = Vec::new();
    let mut pending: Vec<bool> = Vec::new();
    let mut j: usize = 0;
    while j < breadth
        invariant
            j <= breadth,
            coeffs@.len() == j,
            pending@.len() == j,
            forall|q: int| 0 <= q < j ==> #[trigger] coeffs@[q] == 0 && pending@[q],
        decreases breadth - j,
    {
        coeffs.push(0);
        pending.push(true);
        j = j + 1;
    }
    let half = prime / 2;
    let mut k: u16 = 1;
    while k < half
        invariant
            csr.wf(),
            1 < prime < 32768,
            p == prime,
            b == breadth,
            half == prime / 2,
            1 <= k,
            k <= half || half <= 1,
            half <= 1 ==> k == 1,
            forall|i: int| 0 <= i < csr.indices@.len() ==> (#[trigger] csr.indices@[i] + 1) * breadth <= v@.len(),
            coeffs@.len() == breadth,
            pending@.len() == breadth,
            forall|q: int| 0 <= q < breadth ==> #[trigger] coeffs@[q] == first_multiple(*csr, v@, p, b, q, k as int),
            forall|q: int| 0 <= q < breadth ==> (#[trigger] pending@[q] <==> coeffs@[q] == 0),
        decreases half - k,
    {
        let mut w: Vec<i16> = Vec::new();
        let mut i: usize = 0;
        while i < v.len()
            invariant
                1 < prime < 32768,
                p == prime,
                i <= v@.len(),
                w@.len() == i,
                forall|q: int| 0 <= q < i ==> #[trigger] w@[q] == scaled(v@, k as int, p)[q],
            decreases v@.len() - i,
        {
            let m = multp(k, v[i], prime) as i32;
            let c = if 2 * m > prime as i32 { m - prime as i32 } else { m };
            w.push(c as i16);
            i = i + 1;
        }
        proof {
            assert(w@ =~= scaled(v@, k as int, p));
        }
        let flags = csr.nonzero_flags(w.as_slice(), breadth);
        let mut q: usize = 0;
        while q < breadth
            invariant
                p == prime,
                b == breadth,
                1 <= k,
                flags@.len() == breadth,
                forall|t: int| 0 <= t < breadth ==> #[trigger] flags@[t] == csr.not_zero(scaled(v@, k as int, p), b, t),
                coeffs@.len() == breadth,
                pending@.len() == breadth,
                q <= breadth,
                forall|t: int| 0 <= t < q ==> #[trigger] coeffs@[t] == first_multiple(*csr, v@, p, b, t, k + 1),
                forall|t: int| q <= t < breadth ==> #[trigger] coeffs@[t] == first_multiple(*csr, v@, p, b, t, k as int),
                forall|t: int| 0 <= t < breadth ==> (#[trigger] pending@[t] <==> coeffs@[t] == 0),
            decreases breadth - q,
        {
            if pending[q] && !flags[q] {
                coeffs.set(q, k);
                pending.set(q, false);
            }
            q = q + 1;
        }
        k = k + 1;
    }
    proof {
        if half <= 1 {
            assert forall|q: int| 0 <= q < breadth implies #[trigger] coeffs@[q] == first_multiple(*csr, v@, p, b, q, (prime / 2) as int) by {
            }
        }
    }
    coeffs
}

} // verus!
