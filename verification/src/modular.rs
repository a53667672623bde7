//! Arithmetic modulo a prime and row reduction of a dense matrix over it.
use vstd::prelude::*;
use std::cmp::Reverse;
use crate::sms::{abs, gcd_spec};
use crate::span::{same_row_space, rows_of_len, lemma_rows_rearranged, lemma_scale_keeps_space, lemma_add_keeps_space, lemma_same_row_space_refl};

verus! {

broadcast use vstd::seq_lib::group_to_multiset_ensures;

/// The larger of `a` and 1.
pub open spec fn at_least_one(a: int) -> int {
    if a < 1 {
        1
    } else {
        a
    }
}

/// The extended Euclidean algorithm: `(g, x, y)` with `g` the greatest common
/// divisor of `a` and `b` and `a * x + b * y == g`.
pub fn extended_euclid(a: u16, b: u16) -> (r: (u16, i16, i16))
    requires
        a < 32768,
        b < 32768,
    ensures
        r.0 == gcd_spec(a as nat, b as nat),
        a * r.1 + b * r.2 == r.0,
        b == 0 ==> r.1 == 1 && r.2 == 0,
        b > 0 ==> abs(r.1 as int) <= b && abs(r.2 as int) <= at_least_one(a as int),
    decreases b,
{
    if b == 0 {
        return (a, 1, 0);
    }
    let (g, x1, y1) = extended_euclid(b, a % b);
    let q = a / b;
    proof {
        let r = (a % b) as int;
        assert(a == b * q + r) by (nonlinear_arith)
            requires
                b > 0,
                q == a / b,
                r == a % b,
        ;
        if r == 0 {
            assert(y1 == 0);
        } else {
            assert(abs(y1 as int) <= b);
            assert(abs(x1 as int) <= r);
            assert(abs((q as int) * (y1 as int)) <= (q as int) * (b as int)) by (nonlinear_arith)
                requires
                    abs(y1 as int) <= b,
                    q >= 0,
            ;
        }
    }
    let x = y1;
    let y = x1 - (q as i16) * y1;
    proof {
        assert(b * x1 + (a % b) * y1 == g);
        assert(a * x + b * y == g) by (nonlinear_arith)
            requires
                b * x1 + (a % b) * y1 == g,
                a == b * q + (a % b),
                x == y1,
                y == x1 - q * y1,
        ;
    }
    (g, x, y)
}

/// The inverse of `a` modulo `p`, where `a` and `p` are coprime.
pub fn mod_inverse(a: u16, p: u16) -> (r: Option<u16>)
    requires
        a < 32768,
        0 < p < 32768,
    ensures
        r is Some <==> gcd_spec(p as nat, a as nat) == 1,
        r matches Some(x) ==> x <= p && (a * x) % (p as int) == 1int % (p as int),
{
    let (g, c, x) = extended_euclid(p, a);
    if g != 1 {
        return None;
    }
    let ghost y0 = x as int;
    let mut x = x;
    if x < 0 {
        x = x + p as i16;
    }
    proof {
        assert(p * c + a * y0 == 1);
        lemma_inverse_mod(a as int, p as int, c as int, y0, x as int);
    }
    Some(x as u16)
}

/// An inverse from Bezout's identity, moved into `0..p`.
proof fn lemma_inverse_mod(a: int, p: int, c: int, y0: int, x: int)
    requires
        p > 0,
        p * c + a * y0 == 1,
        x == y0 || x == y0 + p,
    ensures
        (a * x) % p == 1int % p,
{
    if x == y0 {
        assert(a * x == 1 + p * (-c)) by (nonlinear_arith)
            requires
                p * c + a * y0 == 1,
                x == y0,
        ;
        vstd::arithmetic::div_mod::lemma_mod_multiples_vanish(-c, 1, p);
        assert(p * (-c) == (-c) * p) by (nonlinear_arith);
    } else {
        assert(a * x == 1 + p * (a - c)) by (nonlinear_arith)
            requires
                p * c + a * y0 == 1,
                x == y0 + p,
        ;
        vstd::arithmetic::div_mod::lemma_mod_multiples_vanish(a - c, 1, p);
        assert(p * (a - c) == (a - c) * p) by (nonlinear_arith);
    }
}

/// The product modulo `p`.
pub fn multp(a: u16, b: u16, p: u16) -> (r: u16)
    requires
        p > 0,
    ensures
        r == (a * b) % (p as int),
{
    proof {
        assert(a * b <= 65535 * 65535) by (nonlinear_arith)
            requires
                a <= 65535,
                b <= 65535,
        ;
    }
    ((a as u32 * b as u32) % p as u32) as u16
}


/// A dense matrix over the integers modulo `prime`, by rows.
pub struct Rows {
    pub rows: Vec<Vec<u16>>,
    pub prime: u16,
}

/// The views of the rows.
pub open spec fn row_views(rows: Seq<Vec<u16>>) -> Seq<Seq<u16>> {
    rows.map_values(|r: Vec<u16>| r@)
}

/// `row` is a pivot row with its 1 in column `col`, and every other row has 0
/// there.
pub open spec fn pivot_at(m: Seq<Seq<u16>>, row: int, col: int) -> bool {
    &&& m[row][col] == 1
    &&& forall|i: int| 0 <= i < m.len() && i != row ==> #[trigger] m[i][col] == 0
}

/// `std::slice::sort_unstable_by_key` on the rows from `from` on, by the
/// entry in column `col`, largest first (`Reverse` of the entry): the rows
/// before `from` stay, and those after are a permutation of the old ones in
/// that order. Which of rows with equal keys comes first the documentation
/// leaves open.
#[verifier::external_body]
fn sort_rows_by_column_desc(rows: &mut Vec<Vec<u16>>, from: usize, col: usize)
    requires
        from <= old(rows)@.len(),
        forall|i: int| 0 <= i < old(rows)@.len() ==> col < (#[trigger] old(rows)@[i])@.len(),
    ensures
        final(rows)@.len() == old(rows)@.len(),
        forall|i: int| 0 <= i < from ==> #[trigger] final(rows)@[i] == old(rows)@[i],
        final(rows)@.subrange(from as int, final(rows)@.len() as int).to_multiset()
            == old(rows)@.subrange(from as int, old(rows)@.len() as int).to_multiset(),
        forall|i: int, j: int| from <= i < j < final(rows)@.len() ==> (#[trigger] final(rows)@[i])@[col as int] >= (#[trigger] final(rows)@[j])@[col as int],
{
    rows[from..].sort_unstable_by_key(|r| Reverse(r[col]));
}

impl Rows {
    /// All rows have the length of the first, and every entry is below the
    /// prime.
    pub open spec fn wf(&self) -> bool {
        let m = row_views(self.rows@);
        &&& m.len() > 0
        &&& forall|i: int| 0 <= i < m.len() ==> (#[trigger] m[i]).len() == m[0].len()
        &&& forall|i: int, k: int| 0 <= i < m.len() && 0 <= k < m[i].len() ==> #[trigger] m[i][k] < self.prime
        &&& 1 < self.prime < 32768
    }

    /// A matrix of at least one row, all rows of the same length.
    pub fn new(rows: Vec<Vec<u16>>, prime: u16) -> (r: Self)
        requires
            rows@.len() != 0,
            forall|i: int| 0 <= i < rows@.len() ==> (#[trigger] rows@[i])@.len() == rows@[0]@.len(),
        ensures
            r.rows@ == rows@,
            r.prime == prime,
    {
        Rows { rows, prime }
    }

    /// Multiply row `i` by `a`.
    pub fn multiply_row(&mut self, i: usize, a: u16)
        requires
            i < old(self).rows@.len(),
            old(self).prime > 0,
        ensures
            final(self).prime == old(self).prime,
            final(self).rows@.len() == old(self).rows@.len(),
            forall|j: int| 0 <= j < old(self).rows@.len() && j != i ==> #[trigger] final(self).rows@[j] == old(self).rows@[j],
            final(self).rows@[i as int]@.len() == old(self).rows@[i as int]@.len(),
            forall|k: int| 0 <= k < old(self).rows@[i as int]@.len() ==>
                #[trigger] final(self).rows@[i as int]@[k] == (a * old(self).rows@[i as int]@[k]) % (old(self).prime as int),
    {
        let ghost r0 = self.rows@[i as int]@;
        let len = self.rows[i].len();
        let mut k: usize = 0;
        while k < len
            invariant
                i < self.rows@.len(),
                self.prime > 0,
                self.prime == old(self).prime,
                self.rows@.len() == old(self).rows@.len(),
                forall|j: int| 0 <= j < old(self).rows@.len() && j != i ==> #[trigger] self.rows@[j] == old(self).rows@[j],
                r0 == old(self).rows@[i as int]@,
                len == r0.len(),
                self.rows@[i as int]@.len() == len,
                k <= len,
                forall|x: int| k <= x < len ==> #[trigger] self.rows@[i as int]@[x] == r0[x],
                forall|x: int| 0 <= x < k ==> #[trigger] self.rows@[i as int]@[x] == (a * r0[x]) % (self.prime as int),
            decreases len - k,
        {
            let b = self.rows[i][k];
            let v = multp(a, b, self.prime);
            self.rows[i].set(k, v);
            k = k + 1;
        }
    }

    /// Add `a` times row `i` to row `j`.
    pub fn add_row(&mut self, ia: (usize, u16), j: usize)
        requires
            ia.0 < old(self).rows@.len(),
            j < old(self).rows@.len(),
            old(self).rows@[ia.0 as int]@.len() <= old(self).rows@[j as int]@.len(),
            old(self).prime > 0,
        ensures
            final(self).prime == old(self).prime,
            final(self).rows@.len() == old(self).rows@.len(),
            forall|x: int| 0 <= x < old(self).rows@.len() && x != j ==> #[trigger] final(self).rows@[x] == old(self).rows@[x],
            final(self).rows@[j as int]@.len() == old(self).rows@[j as int]@.len(),
            forall|k: int| 0 <= k < old(self).rows@[ia.0 as int]@.len() ==> #[trigger] final(self).rows@[j as int]@[k] == (old(self).rows@[j as int]@[k]
                + (old(self).rows@[ia.0 as int]@[k] * ia.1) % (old(self).prime as int)) % (old(self).prime as int),
            forall|k: int| old(self).rows@[ia.0 as int]@.len() <= k < old(self).rows@[j as int]@.len() ==> #[trigger] final(self).rows@[j as int]@[k] == old(self).rows@[j as int]@[k],
    {
        let (i, a) = ia;
        let ghost ri = self.rows@[i as int]@;
        let ghost rj = self.rows@[j as int]@;
        let len = self.rows[i].len();
        let mut k: usize = 0;
        while k < len
            invariant
                i < self.rows@.len(),
                j < self.rows@.len(),
                self.prime > 0,
                self.prime == old(self).prime,
                self.rows@.len() == old(self).rows@.len(),
                forall|x: int| 0 <= x < old(self).rows@.len() && x != j ==> #[trigger] self.rows@[x] == old(self).rows@[x],
                ri == old(self).rows@[i as int]@,
                rj == old(self).rows@[j as int]@,
                len == ri.len(),
                len <= rj.len(),
                self.rows@[j as int]@.len() == rj.len(),
                i != j ==> self.rows@[i as int]@ == ri,
                k <= len,
                forall|x: int| k <= x < rj.len() ==> #[trigger] self.rows@[j as int]@[x] == rj[x],
                forall|x: int| 0 <= x < k ==> #[trigger] self.rows@[j as int]@[x] == (rj[x] + (ri[x] * a) % (self.prime as int)) % (self.prime as int),
            decreases len - k,
        {
            let b = self.rows[i][k];
            let m = multp(b, a, self.prime);
            let c = self.rows[j][k];
            let v = ((c as u32 + m as u32) % self.prime as u32) as u16;
            self.rows[j].set(k, v);
            k = k + 1;
        }
    }

    /// Row reduction modulo the prime: column by column, the rows not yet
    /// used are sorted by their entry there, largest first; a nonzero
    /// invertible entry on top is scaled to 1 and cleared from every other
    /// row. The result has pivots in increasing columns, each 1 in its row and
    /// 0 in all the others.
    pub fn eliminate(&mut self)
        requires
            old(self).wf(),
        ensures
            final(self).wf(),
            final(self).prime == old(self).prime,
            final(self).rows@.len() == old(self).rows@.len(),
            exists|piv: Seq<int>| #[trigger] pivots(row_views(final(self).rows@), piv)
                && (is_prime(final(self).prime as int) ==> reduced_echelon(row_views(final(self).rows@), piv)),
            same_row_space(row_views(final(self).rows@), row_views(old(self).rows@), final(self).prime as int),
    {
        let nrows = self.rows.len();
        let ncols = self.rows[0].len();
        let ghost orig = row_views(self.rows@);
        proof {
            lemma_same_row_space_refl(orig, self.prime as int);
            assert(orig[0] == self.rows@[0]@);
        }
        let ghost mut piv: Seq<int> = Seq::empty();
        let mut row: usize = 0;
        let mut col: usize = 0;
        while row < nrows && col < ncols
            invariant
                self.wf(),
                self.prime == old(self).prime,
                self.rows@.len() == nrows,
                ncols == row_views(self.rows@)[0].len(),
                row <= nrows,
                col <= ncols,
                piv.len() == row,
                pivots(row_views(self.rows@), piv),
                forall|k: int| 0 <= k < row ==> #[trigger] piv[k] < col,
                is_prime(self.prime as int) ==> zero_from(row_views(self.rows@), row as int, col as int),
                is_prime(self.prime as int) ==> leading_zeros(row_views(self.rows@), piv),
                orig == row_views(old(self).rows@),
                rows_of_len(orig, ncols as int),
                same_row_space(row_views(self.rows@), orig, self.prime as int),
            decreases ncols - col,
        {
            let ghost m0 = row_views(self.rows@);
            proof {
                assert forall|i: int| 0 <= i < self.rows@.len() implies col < (#[trigger] self.rows@[i])@.len() by {
                    assert(m0[i] == self.rows@[i]@);
                }
            }
            let ghost before = self.rows@;
            sort_rows_by_column_desc(&mut self.rows, row, col);
            proof {
                lemma_sorted_keeps(before, self.rows@, row as int, self.prime, piv);
                let ms = row_views(self.rows@);
                lemma_sorted_same_rows(before, self.rows@, row as int);
                lemma_rows_rearranged(m0, ms, orig, self.prime as int);
                assert forall|i: int| 0 <= i < ms.len() implies (#[trigger] ms[i]).len() == m0[0].len() && forall|k: int| 0 <= k < ms[i].len() ==> ms[i][k] < self.prime by {
                    if i >= row {
                        assert(came_from(self.rows@[i], before, row as int));
                        let j = choose|j: int| row <= j < before.len() && self.rows@[i] == before[j];
                        assert(ms[i] == m0[j]);
                    } else {
                        assert(ms[i] == m0[i]);
                    }
                }
                if row > 0 {
                    assert(ms[0] == m0[0]);
                } else {
                    assert(ms[0].len() == m0[0].len());
                }
                assert(ms[row as int] == self.rows@[row as int]@);
                assert(ms[row as int][col as int] < self.prime);
                if is_prime(self.prime as int) {
                    assert forall|i: int, c: int| row <= i < ms.len() && 0 <= c < col implies #[trigger] ms[i][c] == 0 by {
                        assert(came_from(self.rows@[i], before, row as int));
                        let j = choose|j: int| row <= j < before.len() && self.rows@[i] == before[j];
                        assert(ms[i] == m0[j]);
                    }
                    assert forall|k: int, c: int| 0 <= k < piv.len() && 0 <= c < piv[k] implies #[trigger] ms[k][c] == 0 by {
                        assert(ms[k] == m0[k]);
                    }
                }
            }
            let pivot = self.rows[row][col];
            if pivot == 0 {
                proof {
                    let ms = row_views(self.rows@);
                    if is_prime(self.prime as int) {
                        assert forall|i: int, c: int| row <= i < ms.len() && 0 <= c < col + 1 implies #[trigger] ms[i][c] == 0 by {
                            assert(ms[i] == self.rows@[i]@);
                            if c == col && i > row {
                                assert(self.rows@[row as int]@[col as int] >= self.rows@[i]@[col as int]);
                            }
                        }
                    }
                }
                col = col + 1;
                continue;
            }
            let inv = match mod_inverse(pivot, self.prime) {
                Some(inv) => inv,
                None => {
                    proof {
                        if is_prime(self.prime as int) {
                            lemma_prime_coprime(self.prime as nat, pivot as nat);
                        }
                    }
                    col = col + 1;
                    continue;
                },
            };
            let ghost m1 = row_views(self.rows@);
            self.multiply_row(row, inv);
            let ghost m2 = row_views(self.rows@);
            proof {
                assert(rows_of_len(m1, ncols as int)) by {
                    assert forall|x: int| 0 <= x < m1.len() implies (#[trigger] m1[x]).len() == ncols by {
                        assert(m1[x].len() == m1[0].len());
                    }
                }
                assert(m2[row as int] == self.rows@[row as int]@);
                assert forall|x: int| 0 <= x < ncols implies #[trigger] m2[row as int][x] == (inv * m1[row as int][x]) % (self.prime as int) by {
                    assert(m1[row as int].len() == ncols);
                }
                assert((pivot * inv) % (self.prime as int) == 1) by {
                    vstd::arithmetic::div_mod::lemma_small_mod(1, self.prime as nat);
                }
                assert forall|k: int| 0 <= k < m1.len() && k != row implies #[trigger] m2[k] == m1[k] by {
                    assert(m2[k] == self.rows@[k]@);
                }
                lemma_scale_keeps_space(m1, m2, orig, row as int, inv as int, pivot as int, self.prime as int, ncols as int);
                assert(pivot < self.prime);
                assert(m2[row as int][col as int] == 1) by {
                    assert(m2[row as int][col as int] == (inv * pivot) % (self.prime as int));
                    assert(inv * pivot == pivot * inv) by (nonlinear_arith);
                    vstd::arithmetic::div_mod::lemma_small_mod(1, self.prime as nat);
                }
                assert forall|k: int| 0 <= k < row implies #[trigger] m2[row as int][piv[k]] == 0 by {
                    assert(pivot_at(m1, k, piv[k]));
                    assert(m1[row as int][piv[k]] == 0);
                    assert(piv[k] < col);
                    assert(m2[row as int][piv[k]] == (inv * m1[row as int][piv[k]]) % (self.prime as int));
                    assert(inv * 0 == 0);
                    vstd::arithmetic::div_mod::lemma_small_mod(0, self.prime as nat);
                }
                assert forall|i: int, k: int| 0 <= i < m2.len() && 0 <= k < m2[i].len() implies #[trigger] m2[i][k] < self.prime by {
                    if i == row {
                        assert(m2[i][k] == (inv * m1[i][k]) % (self.prime as int));
                    } else {
                        assert(m2[i] == m1[i]);
                    }
                }
                assert forall|i: int| 0 <= i < m2.len() implies (#[trigger] m2[i]).len() == m2[0].len() by {
                    assert(m1[i].len() == m1[0].len());
                    if i != row {
                        assert(m2[i] == m1[i]);
                    }
                    if row != 0 {
                        assert(m2[0] == m1[0]);
                    }
                }
                assert forall|k: int| 0 <= k < piv.len() implies #[trigger] pivot_at(m2, k, piv[k]) by {
                    assert(pivot_at(m1, k, piv[k]));
                    assert(m2[k] == m1[k]);
                    assert forall|i: int| 0 <= i < m2.len() && i != k implies #[trigger] m2[i][piv[k]] == 0 by {
                        if i != row {
                            assert(m2[i] == m1[i]);
                        }
                    }
                }
                if is_prime(self.prime as int) {
                    assert forall|i: int, c: int| row <= i < m2.len() && 0 <= c < col implies #[trigger] m2[i][c] == 0 by {
                        if i == row {
                            assert(m1[i][c] == 0);
                            assert(m2[i][c] == (inv * m1[i][c]) % (self.prime as int));
                            assert(inv * 0 == 0);
                            vstd::arithmetic::div_mod::lemma_small_mod(0, self.prime as nat);
                        } else {
                            assert(m2[i] == m1[i]);
                        }
                    }
                    assert forall|k: int, c: int| 0 <= k < piv.len() && 0 <= c < piv[k] implies #[trigger] m2[k][c] == 0 by {
                        assert(m2[k] == m1[k]);
                    }
                }
            }
            let mut i: usize = 0;
            while i < nrows
                invariant
                    self.wf(),
                    self.prime == old(self).prime,
                    self.rows@.len() == nrows,
                    ncols == row_views(self.rows@)[0].len(),
                    row < nrows,
                    col < ncols,
                    piv.len() == row,
                    pivots(row_views(self.rows@), piv),
                    forall|k: int| 0 <= k < row ==> #[trigger] piv[k] < col,
                    forall|k: int| 0 <= k < row ==> #[trigger] row_views(self.rows@)[row as int][piv[k]] == 0,
                    row_views(self.rows@)[row as int][col as int] == 1,
                    i <= nrows,
                    forall|x: int| 0 <= x < i && x != row ==> #[trigger] row_views(self.rows@)[x][col as int] == 0,
                    is_prime(self.prime as int) ==> zero_from(row_views(self.rows@), row as int, col as int),
                    is_prime(self.prime as int) ==> leading_zeros(row_views(self.rows@), piv),
                    rows_of_len(orig, ncols as int),
                    same_row_space(row_views(self.rows@), orig, self.prime as int),
                decreases nrows - i,
            {
                proof {
                    let mm = row_views(self.rows@);
                    assert(mm[i as int] == self.rows@[i as int]@);
                    assert(mm[i as int].len() == mm[0].len());
                }
                let pv = self.rows[i][col];
                let ghost m3 = row_views(self.rows@);
                proof {
                    assert(m3[i as int][col as int] == pv);
                    assert(m3[i as int].len() == m3[0].len() && m3[row as int].len() == m3[0].len());
                }
                if pv != 0 && i != row {
                    let f = self.prime - pv;
                    self.add_row((row, f), i);
                    let ghost m4 = row_views(self.rows@);
                    proof {
                        let p = self.prime as int;
                        assert(rows_of_len(m3, ncols as int)) by {
                            assert forall|x: int| 0 <= x < m3.len() implies (#[trigger] m3[x]).len() == ncols by {
                                assert(m3[x].len() == m3[0].len());
                            }
                        }
                        assert(m4[i as int] == self.rows@[i as int]@);
                        assert forall|x: int| 0 <= x < ncols implies #[trigger] m4[i as int][x] == (m3[i as int][x] + (m3[row as int][x] * f) % p) % p by {
                            assert(m3[row as int].len() == ncols);
                        }
                        assert forall|k: int| 0 <= k < m3.len() && k != i implies #[trigger] m4[k] == m3[k] by {
                            assert(m4[k] == self.rows@[k]@);
                        }
                        lemma_add_keeps_space(m3, m4, orig, row as int, i as int, f as int, p, ncols as int);
                        assert forall|k: int| 0 <= k < m3[row as int].len() implies #[trigger] m4[i as int][k] == (m3[i as int][k] + (m3[row as int][k] * f) % p) % p by {
                            assert(m4[i as int] == self.rows@[i as int]@);
                        }
                        assert(m4[i as int][col as int] == 0) by {
                            assert(m3[row as int][col as int] * f == f);
                            vstd::arithmetic::div_mod::lemma_small_mod(f as nat, p as nat);
                            assert(pv + f == p);
                            vstd::arithmetic::div_mod::lemma_mod_self_0(p);
                        }
                        assert forall|x: int, k: int| 0 <= x < m4.len() && 0 <= k < m4[x].len() implies #[trigger] m4[x][k] < self.prime by {
                            if x != i {
                                assert(m4[x] == m3[x]);
                            }
                        }
                        assert forall|x: int| 0 <= x < m4.len() implies (#[trigger] m4[x]).len() == m4[0].len() by {
                            if x != i {
                                assert(m4[x] == m3[x]);
                            }
                            if i != 0 {
                                assert(m4[0] == m3[0]);
                            }
                        }
                        assert(m4[row as int] == m3[row as int]);
                        assert forall|k: int| 0 <= k < piv.len() implies #[trigger] pivot_at(m4, k, piv[k]) by {
                            assert(pivot_at(m3, k, piv[k]));
                            assert(m3[row as int][piv[k]] == 0);
                            let pk = piv[k];
                            assert(m4[i as int][pk] == (m3[i as int][pk] + (0 * f) % p) % p);
                            assert(0 * f == 0);
                            vstd::arithmetic::div_mod::lemma_small_mod(0, p as nat);
                            assert(m3[i as int][pk] < p);
                            vstd::arithmetic::div_mod::lemma_small_mod(m3[i as int][pk] as nat, p as nat);
                            assert(m4[i as int][pk] == m3[i as int][pk]);
                            assert forall|x: int| 0 <= x < m4.len() && x != k implies #[trigger] m4[x][pk] == 0 by {
                                if x != i {
                                    assert(m4[x] == m3[x]);
                                }
                            }
                            if k != i {
                                assert(m4[k] == m3[k]);
                            }
                        }
                        assert forall|x: int| 0 <= x < i + 1 && x != row implies #[trigger] m4[x][col as int] == 0 by {
                            if x != i {
                                assert(m4[x] == m3[x]);
                            }
                        }
                        if is_prime(p) {
                            assert forall|c: int| 0 <= c < col implies #[trigger] m4[i as int][c] == m3[i as int][c] by {
                                assert(m3[row as int][c] == 0);
                                assert(m4[i as int][c] == (m3[i as int][c] + (0 * f) % p) % p);
                                assert(0 * f == 0);
                                vstd::arithmetic::div_mod::lemma_small_mod(0, p as nat);
                                vstd::arithmetic::div_mod::lemma_small_mod(m3[i as int][c] as nat, p as nat);
                            }
                            assert forall|x: int, c: int| row <= x < m4.len() && 0 <= c < col implies #[trigger] m4[x][c] == 0 by {
                                if x != i {
                                    assert(m4[x] == m3[x]);
                                } else {
                                    assert(m4[i as int][c] == m3[i as int][c]);
                                }
                            }
                            assert forall|k: int, c: int| 0 <= k < piv.len() && 0 <= c < piv[k] implies #[trigger] m4[k][c] == 0 by {
                                if k != i {
                                    assert(m4[k] == m3[k]);
                                } else {
                                    assert(m4[i as int][c] == m3[i as int][c]);
                                }
                            }
                        }
                    }
                }
                i = i + 1;
            }
            proof {
                let m5 = row_views(self.rows@);
                let piv2 = piv.push(col as int);
                assert forall|k: int| 0 <= k < piv2.len() implies #[trigger] pivot_at(m5, k, piv2[k]) by {
                    if k < row {
                        assert(piv2[k] == piv[k]);
                        assert(pivot_at(m5, k, piv[k]));
                    }
                }
                assert forall|a: int, b: int| 0 <= a < b < piv2.len() implies piv2[a] < piv2[b] by {
                    if b == row {
                        assert(piv2[a] == piv[a]);
                    } else {
                        assert(piv2[a] == piv[a] && piv2[b] == piv[b]);
                    }
                }
                if is_prime(self.prime as int) {
                    assert forall|x: int, c: int| row + 1 <= x < m5.len() && 0 <= c < col + 1 implies #[trigger] m5[x][c] == 0 by {
                        if c == col {
                            assert(x != row);
                        }
                    }
                    assert forall|k: int, c: int| 0 <= k < piv2.len() && 0 <= c < piv2[k] implies #[trigger] m5[k][c] == 0 by {
                        if k < row {
                            assert(piv2[k] == piv[k]);
                        }
                    }
                }
                piv = piv2;
            }
            col = col + 1;
            row = row + 1;
        }
        proof {
            let m = row_views(self.rows@);
            if is_prime(self.prime as int) {
                assert forall|i: int, c: int| piv.len() <= i < m.len() && 0 <= c < m[i].len() implies #[trigger] m[i][c] == 0 by {
                    assert(m[i].len() == m[0].len());
                }
                assert(reduced_echelon(m, piv));
            }
            assert(pivots(m, piv));
        }
    }
}

/// `piv` lists increasing pivot columns, one for each of the first rows.
pub open spec fn pivots(m: Seq<Seq<u16>>, piv: Seq<int>) -> bool {
    &&& piv.len() <= m.len()
    &&& forall|a: int, b: int| 0 <= a < b < piv.len() ==> piv[a] < piv[b]
    &&& forall|k: int| 0 <= k < piv.len() ==> 0 <= #[trigger] piv[k]
    &&& forall|k: int| 0 <= k < piv.len() ==> #[trigger] pivot_at(m, k, piv[k])
}

/// `p` is a prime number.
pub open spec fn is_prime(p: int) -> bool {
    &&& p > 1
    &&& forall|d: int| 1 < d < p ==> #[trigger] (p % d) != 0
}

/// Each pivot row is zero before its pivot column.
pub open spec fn leading_zeros(m: Seq<Seq<u16>>, piv: Seq<int>) -> bool {
    forall|k: int, c: int| 0 <= k < piv.len() && 0 <= c < piv[k] ==> #[trigger] m[k][c] == 0
}

/// The rows from `r` on are zero in the columns before `cols`.
pub open spec fn zero_from(m: Seq<Seq<u16>>, r: int, cols: int) -> bool {
    forall|i: int, c: int| r <= i < m.len() && 0 <= c < cols ==> #[trigger] m[i][c] == 0
}

/// Reduced row echelon form: the pivot rows come first, each with its leading
/// 1 in a column of its own, increasing, where every other row is 0, and all
/// the rows after them are zero.
pub open spec fn reduced_echelon(m: Seq<Seq<u16>>, piv: Seq<int>) -> bool {
    &&& pivots(m, piv)
    &&& leading_zeros(m, piv)
    &&& forall|i: int, c: int| piv.len() <= i < m.len() && 0 <= c < m[i].len() ==> #[trigger] m[i][c] == 0
}

/// Modulo a prime every nonzero residue is coprime to it.
pub proof fn lemma_prime_coprime(p: nat, a: nat)
    requires
        is_prime(p as int),
        0 < a < p,
    ensures
        gcd_spec(p, a) == 1,
{
    crate::sms::lemma_gcd_divides(p, a);
    let g = gcd_spec(p, a) as int;
    let y = choose|y: int| #[trigger] (g * y) == a as int;
    let x = choose|x: int| #[trigger] (g * x) == p as int;
    if g == 0 {
        assert(g * y == 0) by (nonlinear_arith)
            requires
                g == 0,
        ;
    }
    assert(g <= a) by (nonlinear_arith)
        requires
            g >= 1,
            g * y == a as int,
            a > 0,
    ;
    if g > 1 {
        vstd::arithmetic::div_mod::lemma_mod_multiples_basic(x, g);
        assert(x * g == g * x) by (nonlinear_arith);
        assert((p as int) % g == 0);
    }
}

/// Sorting the rows from the first one not used keeps the pivots and the
/// shape of the matrix.
proof fn lemma_sorted_keeps(before: Seq<Vec<u16>>, after: Seq<Vec<u16>>, from: int, p: u16, piv: Seq<int>)
    requires
        0 <= from <= before.len(),
        piv.len() == from,
        after.len() == before.len(),
        forall|i: int| 0 <= i < from ==> #[trigger] after[i] == before[i],
        after.subrange(from, after.len() as int).to_multiset() == before.subrange(from, before.len() as int).to_multiset(),
        pivots(row_views(before), piv),
    ensures
        pivots(row_views(after), piv),
        forall|i: int| from <= i < after.len() ==> #[trigger] came_from(after[i], before, from),
{
    assert forall|i: int| from <= i < after.len() implies #[trigger] came_from(after[i], before, from) by {
        let sa = after.subrange(from, after.len() as int);
        let sb = before.subrange(from, before.len() as int);
        assert(sa[i - from] == after[i]);
        assert(sa.contains(after[i]));
        assert(sa.to_multiset().count(after[i]) > 0);
        assert(sb.to_multiset().count(after[i]) > 0);
        assert(sb.contains(after[i]));
        let j = choose|j: int| 0 <= j < sb.len() && sb[j] == after[i];
        assert(before[from + j] == after[i]);
    }
    let ma = row_views(after);
    let mb = row_views(before);
    assert forall|k: int| 0 <= k < piv.len() implies #[trigger] pivot_at(ma, k, piv[k]) by {
        assert(pivot_at(mb, k, piv[k]));
        assert(ma[k] == mb[k]);
        assert forall|i: int| 0 <= i < ma.len() && i != k implies #[trigger] ma[i][piv[k]] == 0 by {
            if i < from {
                assert(ma[i] == mb[i]);
            } else {
                assert(came_from(after[i], before, from));
                let j = choose|j: int| from <= j < before.len() && after[i] == before[j];
                assert(ma[i] == mb[j]);
                assert(j != k);
            }
        }
    }
    assert(ma.len() == mb.len());
    assert(pivots(ma, piv));
}

/// Sorting the rows from `from` on keeps which rows the matrix has.
proof fn lemma_sorted_same_rows(before: Seq<Vec<u16>>, after: Seq<Vec<u16>>, from: int)
    requires
        0 <= from <= before.len(),
        after.len() == before.len(),
        forall|i: int| 0 <= i < from ==> #[trigger] after[i] == before[i],
        after.subrange(from, after.len() as int).to_multiset() == before.subrange(from, before.len() as int).to_multiset(),
    ensures
        forall|w: Seq<u16>| #[trigger] row_views(before).contains(w) <==> row_views(after).contains(w),
{
    let sa = after.subrange(from, after.len() as int);
    let sb = before.subrange(from, before.len() as int);
    assert forall|w: Seq<u16>| #[trigger] row_views(before).contains(w) implies row_views(after).contains(w) by {
        let k = choose|k: int| 0 <= k < row_views(before).len() && row_views(before)[k] == w;
        if k < from {
            assert(row_views(after)[k] == w);
        } else {
            assert(sb[k - from] == before[k]);
            assert(sb.contains(before[k]));
            assert(sb.to_multiset().count(before[k]) > 0);
            assert(sa.to_multiset().count(before[k]) > 0);
            assert(sa.contains(before[k]));
            let j = choose|j: int| 0 <= j < sa.len() && sa[j] == before[k];
            assert(after[from + j] == before[k]);
            assert(row_views(after)[from + j] == w);
        }
    }
    assert forall|w: Seq<u16>| #[trigger] row_views(after).contains(w) implies row_views(before).contains(w) by {
        let k = choose|k: int| 0 <= k < row_views(after).len() && row_views(after)[k] == w;
        if k < from {
            assert(row_views(before)[k] == w);
        } else {
            assert(sa[k - from] == after[k]);
            assert(sa.contains(after[k]));
            assert(sa.to_multiset().count(after[k]) > 0);
            assert(sb.to_multiset().count(after[k]) > 0);
            assert(sb.contains(after[k]));
            let j = choose|j: int| 0 <= j < sb.len() && sb[j] == after[k];
            assert(before[from + j] == after[k]);
            assert(row_views(before)[from + j] == w);
        }
    }
}

/// The row is one of the rows from `from` on.
pub open spec fn came_from(r: Vec<u16>, rows: Seq<Vec<u16>>, from: int) -> bool {
    exists|j: int| from <= j < rows.len() && r == rows[j]
}

} // verus!
