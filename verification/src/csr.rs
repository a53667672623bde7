//! A sparse matrix in compressed rows, and which of a batch of vectors it
//! does not send to zero.
use vstd::prelude::*;

verus! {

/// A sparse matrix in compressed rows: the entries of row `r` are those from
/// `rows[r]` to `rows[r + 1]`, each a column (counted from 0) and a value.
pub struct Csr {
    pub indices: Vec<u32>,
    pub values: Vec<i16>,
    pub rows: Vec<u32>,
    pub columns: usize,
}

/// The row starts after the first `n` entries (rows counted from 1): a row
/// that comes up after a lower one starts at its entry; other starts stay 0.
/// Also the last row that came up, counted from 0.
pub open spec fn starts_upto(entries: Seq<([u32; 2], i16)>, h: int, n: int) -> (Seq<u32>, int)
    decreases n,
{
    if n <= 0 {
        (Seq::new((h + 1) as nat, |i: int| 0u32), 0)
    } else {
        let (st, r) = starts_upto(entries, h, n - 1);
        let i = entries[n - 1].0[0] as int;
        if i - 1 > r {
            (st.update(i - 1, (n - 1) as u32), i - 1)
        } else {
            (st, r)
        }
    }
}

/// The sum over the entries from `a` to `b` of their value times the
/// entry of the vector batch at their column and position `k`.
pub open spec fn seg_sum(values: Seq<i16>, indices: Seq<u32>, vs: Seq<i16>, cs: int, k: int, a: int, b: int) -> int
    decreases b - a,
{
    if b <= a {
        0
    } else {
        seg_sum(values, indices, vs, cs, k, a, b - 1) + values[b - 1] * vs[indices[b - 1] * cs + k]
    }
}

/// The number whose bit `k` is set exactly where `bits[k]` holds, for the
/// first `n` bits.
pub open spec fn mask_of(bits: Seq<bool>, n: int) -> nat
    decreases n,
{
    if n <= 0 {
        0
    } else {
        2 * mask_of(bits.drop_first(), n - 1) + if bits[0] {
            1nat
        } else {
            0nat
        }
    }
}

impl Csr {
    /// The matrix is well formed: values and columns in pairs, a start for
    /// each row and one past the last, every start within the entries.
    pub open spec fn wf(&self) -> bool {
        &&& self.indices@.len() == self.values@.len()
        &&& self.rows@.len() >= 1
        &&& self.indices@.len() < 0x1_0000_0000
        &&& forall|r: int| 0 <= r < self.rows@.len() ==> #[trigger] self.rows@[r] <= self.indices@.len()
    }

    /// Row `r` times vector `k` of the batch: the sum over the row's entries,
    /// none where its start is not below its end.
    pub open spec fn row_times(&self, vs: Seq<i16>, cs: int, r: int, k: int) -> int {
        seg_sum(self.values@, self.indices@, vs, cs, k, self.rows@[r] as int, self.rows@[r + 1] as int)
    }

    /// Vector `k` of the batch is not sent to zero.
    pub open spec fn not_zero(&self, vs: Seq<i16>, cs: int, k: int) -> bool {
        exists|r: int| 0 <= r < self.rows@.len() - 1 && #[trigger] self.row_times(vs, cs, r, k) != 0
    }

    /// Build the compressed rows from entries sorted by rows, numbered from 1
    /// to `dims[0]`, and columns numbered from 1.
    pub fn from_coo(coo: &Vec<([u32; 2], i16)>, dims: [usize; 2]) -> (c: Csr)
        requires
            dims[0] < usize::MAX,
            coo@.len() < 0x1_0000_0000,
            forall|e: int| 0 <= e < coo@.len() ==> 1 <= #[trigger] coo@[e].0[0] <= dims[0],
            forall|e: int| 0 <= e < coo@.len() ==> 1 <= #[trigger] coo@[e].0[1],
        ensures
            c.wf(),
            c.indices@ == coo@.map_values(|e: ([u32; 2], i16)| (e.0[1] - 1) as u32),
            c.values@ == coo@.map_values(|e: ([u32; 2], i16)| e.1),
            c.rows@ == starts_upto(coo@, dims[0] as int, coo@.len() as int).0.update(dims[0] as int, coo@.len() as u32),
            c.columns == dims[1],
    {
        let h = dims[0];
        let mut indices: Vec<u32> = Vec::new();
        let mut values: Vec<i16> = Vec::new();
        let mut rows: Vec<u32> = Vec::new();
        let mut j: usize = 0;
        while j <= h
            invariant
                h < usize::MAX,
                j <= h + 1,
                rows@.len() == j,
                forall|i: int| 0 <= i < j ==> #[trigger] rows@[i] == 0,
            decreases h + 1 - j,
        {
            rows.push(0);
            j = j + 1;
        }
        proof {
            assert(rows@ =~= starts_upto(coo@, h as int, 0).0);
        }
        let mut r: u32 = 0;
        let mut k: usize = 0;
        while k < coo.len()
            invariant
                h == dims[0],
                coo@.len() < 0x1_0000_0000,
                forall|e: int| 0 <= e < coo@.len() ==> 1 <= #[trigger] coo@[e].0[0] <= dims[0],
                forall|e: int| 0 <= e < coo@.len() ==> 1 <= #[trigger] coo@[e].0[1],
                k <= coo@.len(),
                (rows@, r as int) == starts_upto(coo@, h as int, k as int),
                rows@.len() == h + 1,
                r < h + 1 || k == 0,
                forall|i: int| 0 <= i < rows@.len() ==> #[trigger] rows@[i] <= k,
                indices@ == coo@.take(k as int).map_values(|e: ([u32; 2], i16)| (e.0[1] - 1) as u32),
                values@ == coo@.take(k as int).map_values(|e: ([u32; 2], i16)| e.1),
            decreases coo@.len() - k,
        {
            let (t, s) = coo[k];
            indices.push(t[1] - 1);
            values.push(s);
            if t[0] - 1 > r {
                r = t[0] - 1;
                rows.set(r as usize, k as u32);
            }
            proof {
                assert(coo@.take(k + 1).map_values(|e: ([u32; 2], i16)| (e.0[1] - 1) as u32) =~= coo@.take(k as int).map_values(|e: ([u32; 2], i16)| (e.0[1] - 1) as u32).push((t[1] - 1) as u32));
                assert(coo@.take(k + 1).map_values(|e: ([u32; 2], i16)| e.1) =~= coo@.take(k as int).map_values(|e: ([u32; 2], i16)| e.1).push(s));
            }
            k = k + 1;
        }
        let total = k as u32;
        rows.set(h, total);
        proof {
            assert(coo@.take(k as int) =~= coo@);
        }
        Csr { indices, values, rows, columns: dims[1] }
    }

    /// Which vectors of the batch the matrix does not send to zero: bit `k`
    /// of the result is set exactly where some row times vector `k` is not 0.
    /// The batch holds `chunk_size` vectors, interleaved: entry `k` of the
    /// vector at column `c` is `vs[c * chunk_size + k]`. The sums are taken
    /// over the integers.
    pub fn multiplies_to_zero(&self, vs: &[i16], chunk_size: usize) -> (m: u64)
        requires
            self.wf(),
            chunk_size <= 64,
            forall|i: int| 0 <= i < self.indices@.len() ==> (#[trigger] self.indices@[i] + 1) * chunk_size <= vs@.len(),
        ensures
            m == mask_of(Seq::new(chunk_size as nat, |k: int| self.not_zero(vs@, chunk_size as int, k)), chunk_size as int),
    {
        let nz = self.nonzero_flags(vs, chunk_size);
        proof {
            assert(nz@ =~= Seq::new(chunk_size as nat, |k: int| self.not_zero(vs@, chunk_size as int, k)));
        }
        mask_bits(&nz)
    }

    /// Row `r` times each vector of the batch, over the integers.
    pub fn row_products(&self, vs: &[i16], chunk_size: usize, r: usize) -> (res: Vec<i64>)
        requires
            self.wf(),
            r + 1 < self.rows@.len(),
            forall|i: int| 0 <= i < self.indices@.len() ==> (#[trigger] self.indices@[i] + 1) * chunk_size <= vs@.len(),
        ensures
            res@.len() == chunk_size,
            forall|p: int| 0 <= p < chunk_size ==> #[trigger] res@[p] == self.row_times(vs@, chunk_size as int, r as int, p),
    {
        let ghost cs = chunk_size as int;
        let vlen = vs.len();
        let nr = self.rows.len();
        assert(r + 1 < nr);
        let a = self.rows[r];
        let b = self.rows[r + 1];
        let mut res: Vec<i64> = Vec::new();
        let mut q: usize = 0;
        while q < chunk_size
            invariant
                q <= chunk_size,
                res@.len() == q,
                forall|i: int| 0 <= i < q ==> #[trigger] res@[i] == 0,
            decreases chunk_size - q,
        {
            res.push(0);
            q = q + 1;
        }
        let end = if b > a { b } else { a };
        let mut i = a;
        while i < end
            invariant
                vlen == vs@.len(),
                self.wf(),
                cs == chunk_size,
                forall|i: int| 0 <= i < self.indices@.len() ==> (#[trigger] self.indices@[i] + 1) * chunk_size <= vs@.len(),
                a == self.rows@[r as int],
                b == self.rows@[r + 1],
                b <= self.indices@.len(),
                end == (if b > a { b } else { a }),
                end <= self.indices@.len(),
                a <= i <= end,
                res@.len() == chunk_size,
                forall|q: int| 0 <= q < chunk_size ==> #[trigger] res@[q] == seg_sum(self.values@, self.indices@, vs@, cs, q, a as int, i as int),
                forall|q: int| 0 <= q < chunk_size ==> -(i - a) * 0x4000_0000 <= #[trigger] seg_sum(self.values@, self.indices@, vs@, cs, q, a as int, i as int) <= (i - a) * 0x4000_0000,
            decreases end - i,
        {
            let idx = self.indices[i as usize] as usize;
            let val = self.values[i as usize];
            proof {
                assert((self.indices@[i as int] + 1) * chunk_size <= vs@.len());
                assert(idx * chunk_size + chunk_size <= vs@.len()) by (nonlinear_arith)
                    requires (idx + 1) * chunk_size <= vs@.len();
            }
            let base = idx * chunk_size;
            let mut q: usize = 0;
            while q < chunk_size
                invariant
                    vlen == vs@.len(),
                    cs == chunk_size,
                    base == idx * chunk_size,
                    base + chunk_size <= vs@.len(),
                    idx == self.indices@[i as int],
                    val == self.values@[i as int],
                    a <= i < end,
                    end <= self.indices@.len(),
                    self.wf(),
                    q <= chunk_size,
                    res@.len() == chunk_size,
                    forall|p: int| 0 <= p < q ==> #[trigger] res@[p] == seg_sum(self.values@, self.indices@, vs@, cs, p, a as int, i + 1),
                    forall|p: int| q <= p < chunk_size ==> #[trigger] res@[p] == seg_sum(self.values@, self.indices@, vs@, cs, p, a as int, i as int),
                    forall|p: int| 0 <= p < chunk_size ==> -(i - a) * 0x4000_0000 <= #[trigger] seg_sum(self.values@, self.indices@, vs@, cs, p, a as int, i as int) <= (i - a) * 0x4000_0000,
                decreases chunk_size - q,
            {
                let w = vs[base + q];
                proof {
                    assert(-0x4000_0000 <= (val as int) * (w as int) <= 0x4000_0000) by (nonlinear_arith)
                        requires
                            -0x8000 <= val <= 0x7fff,
                            -0x8000 <= w <= 0x7fff,
                    ;
                    assert(i - a < 0x1_0000_0000);
                    assert(seg_sum(self.values@, self.indices@, vs@, cs, q as int, a as int, i + 1) == res@[q as int] + (val as int) * (w as int));
                }
                let nv = res[q] + (val as i64) * (w as i64);
                res.set(q, nv);
                q = q + 1;
            }
            proof {
                assert forall|p: int| 0 <= p < chunk_size implies -(i + 1 - a) * 0x4000_0000 <= #[trigger] seg_sum(self.values@, self.indices@, vs@, cs, p, a as int, i + 1) <= (i + 1 - a) * 0x4000_0000 by {
                    let w = vs@[self.indices@[i as int] * cs + p];
                    assert(-(i - a) * 0x4000_0000 <= seg_sum(self.values@, self.indices@, vs@, cs, p, a as int, i as int) <= (i - a) * 0x4000_0000);
                    assert(-0x4000_0000 <= (val as int) * (w as int) <= 0x4000_0000) by (nonlinear_arith)
                        requires
                            -0x8000 <= val <= 0x7fff,
                            -0x8000 <= w <= 0x7fff,
                    ;
                }
            }
            i = i + 1;
        }
        proof {
            if b <= a {
                assert forall|p: int| 0 <= p < chunk_size implies #[trigger] res@[p] == self.row_times(vs@, cs, r as int, p) by {}
            }
        }
        res
    }

    /// Each row times each vector of the batch, over the integers: entry
    /// `r * chunk_size + k` is row `r` times vector `k`.
    pub fn multiply_vectors(&self, vs: &[i16], chunk_size: usize) -> (out: Vec<i64>)
        requires
            self.wf(),
            forall|i: int| 0 <= i < self.indices@.len() ==> (#[trigger] self.indices@[i] + 1) * chunk_size <= vs@.len(),
            (self.rows@.len() - 1) * chunk_size <= usize::MAX,
        ensures
            out@.len() == (self.rows@.len() - 1) * chunk_size,
            forall|r: int, k: int| 0 <= r < self.rows@.len() - 1 && 0 <= k < chunk_size ==> #[trigger] out@[r * chunk_size + k] == self.row_times(vs@, chunk_size as int, r, k),
    {
        let nrows = self.rows.len() - 1;
        let mut out: Vec<i64> = Vec::new();
        let mut r: usize = 0;
        while r < nrows
            invariant
                self.wf(),
                forall|i: int| 0 <= i < self.indices@.len() ==> (#[trigger] self.indices@[i] + 1) * chunk_size <= vs@.len(),
                nrows == self.rows@.len() - 1,
                r <= nrows,
                out@.len() == r * chunk_size,
                forall|rr: int, k: int| 0 <= rr < r && 0 <= k < chunk_size ==> #[trigger] out@[rr * chunk_size + k] == self.row_times(vs@, chunk_size as int, rr, k),
            decreases nrows - r,
        {
            let res = self.row_products(vs, chunk_size, r);
            let ghost before = out@;
            let mut k: usize = 0;
            while k < chunk_size
                invariant
                    r < nrows,
                    res@.len() == chunk_size,
                    out@.len() == r * chunk_size + k,
                    k <= chunk_size,
                    forall|i: int| 0 <= i < r * chunk_size ==> #[trigger] out@[i] == before[i],
                    forall|q: int| 0 <= q < k ==> #[trigger] out@[r * chunk_size + q] == res@[q],
                decreases chunk_size - k,
            {
                out.push(res[k]);
                k = k + 1;
            }
            proof {
                assert((r + 1) * chunk_size == r * chunk_size + chunk_size) by (nonlinear_arith);
                assert forall|rr: int, q: int| 0 <= rr < r + 1 && 0 <= q < chunk_size implies #[trigger] out@[rr * chunk_size + q] == self.row_times(vs@, chunk_size as int, rr, q) by {
                    if rr < r {
                        assert(rr * chunk_size + q < r * chunk_size) by (nonlinear_arith)
                            requires rr < r, q < chunk_size;
                        assert(out@[rr * chunk_size + q] == before[rr * chunk_size + q]);
                    }
                }
            }
            r = r + 1;
        }
        out
    }

    /// Which vectors of the batch the matrix does not send to zero, one flag
    /// for each (see `multiplies_to_zero`).
    pub fn nonzero_flags(&self, vs: &[i16], chunk_size: usize) -> (nz: Vec<bool>)
        requires
            self.wf(),
            forall|i: int| 0 <= i < self.indices@.len() ==> (#[trigger] self.indices@[i] + 1) * chunk_size <= vs@.len(),
        ensures
            nz@.len() == chunk_size,
            forall|k: int| 0 <= k < chunk_size ==> #[trigger] nz@[k] == self.not_zero(vs@, chunk_size as int, k),
    {
        let ghost cs = chunk_size as int;
        let mut nz: Vec<bool> = Vec::new();
        let mut k: usize = 0;
        while k < chunk_size
            invariant
                k <= chunk_size,
                nz@.len() == k,
                forall|i: int| 0 <= i < k ==> !#[trigger] nz@[i],
            decreases chunk_size - k,
        {
            nz.push(false);
            k = k + 1;
        }
        let nrows = self.rows.len() - 1;
        let vlen = vs.len();
        let mut r: usize = 0;
        while r < nrows
            invariant
                vlen == vs@.len(),
                self.wf(),
                cs == chunk_size,
                forall|i: int| 0 <= i < self.indices@.len() ==> (#[trigger] self.indices@[i] + 1) * chunk_size <= vs@.len(),
                nrows == self.rows@.len() - 1,
                r <= nrows,
                nz@.len() == chunk_size,
                forall|q: int| 0 <= q < chunk_size ==> (#[trigger] nz@[q] <==> exists|rr: int| 0 <= rr < r && #[trigger] self.row_times(vs@, cs, rr, q) != 0),
            decreases nrows - r,
        {
            let res = self.row_products(vs, chunk_size, r);
            let mut q: usize = 0;
            let ghost nz0 = nz@;
            while q < chunk_size
                invariant
                    cs == chunk_size,
                    q <= chunk_size,
                    nz@.len() == chunk_size,
                    res@.len() == chunk_size,
                    forall|p: int| 0 <= p < chunk_size ==> #[trigger] res@[p] == self.row_times(vs@, cs, r as int, p),
                    forall|p: int| 0 <= p < q ==> #[trigger] nz@[p] == (nz0[p] || res@[p] != 0),
                    forall|p: int| q <= p < chunk_size ==> #[trigger] nz@[p] == nz0[p],
                decreases chunk_size - q,
            {
                if res[q] != 0 {
                    nz.set(q, true);
                }
                q = q + 1;
            }
            proof {
                assert forall|p: int| 0 <= p < chunk_size implies (#[trigger] nz@[p] <==> exists|rr: int| 0 <= rr < r + 1 && #[trigger] self.row_times(vs@, cs, rr, p) != 0) by {
                    if nz0[p] {
                        let rr = choose|rr: int| 0 <= rr < r && #[trigger] self.row_times(vs@, cs, rr, p) != 0;
                    }
                    if exists|rr: int| 0 <= rr < r + 1 && #[trigger] self.row_times(vs@, cs, rr, p) != 0 {
                        let rr = choose|rr: int| 0 <= rr < r + 1 && #[trigger] self.row_times(vs@, cs, rr, p) != 0;
                        if rr < r {
                            assert(nz0[p]);
                        }
                    }
                }
            }
            r = r + 1;
        }
        nz
    }
}

/// The number whose bit `k` is set exactly where `bits[k]` holds.
fn mask_bits(bits: &Vec<bool>) -> (m: u64)
    requires
        bits@.len() <= 64,
    ensures
        m == mask_of(bits@, bits@.len() as int),
{
    let n = bits.len();
    let mut m: u64 = 0;
    let mut k = n;
    proof {
        reveal_with_fuel(pow2, 65);
        assert(pow2(64) == 0x1_0000_0000_0000_0000);
    }
    while k > 0
        invariant
            n == bits@.len(),
            n <= 64,
            k <= n,
            m == mask_of(bits@.subrange(k as int, n as int), n - k),
            m < pow2(n - k),
            pow2(64) == 0x1_0000_0000_0000_0000,
        decreases k,
    {
        k = k - 1;
        proof {
            let tail = bits@.subrange(k as int, n as int);
            assert(tail.drop_first() =~= bits@.subrange(k + 1, n as int));
            assert(tail[0] == bits@[k as int]);
            assert(pow2(n - k) == 2 * pow2(n - k - 1));
            assert(2 * pow2(n - k - 1) <= pow2(64)) by {
                lemma_pow2_mono(n - k, 64);
            }
        }
        m = 2 * m + if bits[k] { 1 } else { 0 };
    }
    proof {
        assert(bits@.subrange(0, n as int) =~= bits@);
    }
    m
}

/// Two to the power `n`.
pub open spec fn pow2(n: int) -> nat
    decreases n,
{
    if n <= 0 {
        1
    } else {
        2 * pow2(n - 1)
    }
}

/// Powers of two grow with the exponent.
proof fn lemma_pow2_mono(a: int, b: int)
    requires
        0 <= a <= b,
    ensures
        pow2(a) <= pow2(b),
    decreases b - a,
{
    if a < b {
        lemma_pow2_mono(a, b - 1);
    }
}

} // verus!
