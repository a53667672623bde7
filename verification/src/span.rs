//! Row spaces modulo a number: combinations of rows, and how the row
//! operations of elimination keep the row space.
use vstd::prelude::*;
use vstd::arithmetic::div_mod::{lemma_add_mod_noop, lemma_mul_mod_noop_general, lemma_sub_mod_noop, lemma_mod_twice};

verus! {

/// Column `x` of the first `k` terms of a combination of rows, each term a
/// coefficient with a row.
pub open spec fn lin(ts: Seq<(int, Seq<u16>)>, x: int, k: int) -> int
    decreases k,
{
    if k <= 0 {
        0
    } else {
        lin(ts, x, k - 1) + ts[k - 1].0 * ts[k - 1].1[x]
    }
}

/// Column `x` of a combination of rows.
pub open spec fn lin_all(ts: Seq<(int, Seq<u16>)>, x: int) -> int {
    lin(ts, x, ts.len() as int)
}

/// Every row of the combination is a row of `m`.
pub open spec fn terms_of(ts: Seq<(int, Seq<u16>)>, m: Seq<Seq<u16>>) -> bool {
    forall|t: int| 0 <= t < ts.len() ==> m.contains(#[trigger] ts[t].1)
}

/// In each of its columns, `v` is congruent modulo `p` to the combination.
pub open spec fn represents(ts: Seq<(int, Seq<u16>)>, v: Seq<u16>, p: int) -> bool {
    forall|x: int| 0 <= x < v.len() ==> (#[trigger] v[x] as int) % p == lin_all(ts, x) % p
}

/// `v` lies in the row space of `m` modulo `p`: it is, column by column, a
/// combination of rows of `m` with integer coefficients, modulo `p`.
pub open spec fn in_span(v: Seq<u16>, m: Seq<Seq<u16>>, p: int) -> bool {
    exists|ts: Seq<(int, Seq<u16>)>| #[trigger] terms_of(ts, m) && represents(ts, v, p)
}

/// Every row of `a` lies in the row space of `b` modulo `p`.
pub open spec fn spans_within(a: Seq<Seq<u16>>, b: Seq<Seq<u16>>, p: int) -> bool {
    forall|i: int| 0 <= i < a.len() ==> in_span(#[trigger] a[i], b, p)
}

/// The rows of `a` and of `b` span the same space modulo `p`.
pub open spec fn same_row_space(a: Seq<Seq<u16>>, b: Seq<Seq<u16>>, p: int) -> bool {
    spans_within(a, b, p) && spans_within(b, a, p)
}

/// Every row has length `n`.
pub open spec fn rows_of_len(m: Seq<Seq<u16>>, n: int) -> bool {
    forall|i: int| 0 <= i < m.len() ==> (#[trigger] m[i]).len() == n
}

/// The combination with every coefficient multiplied by `f`.
pub open spec fn scaled(ts: Seq<(int, Seq<u16>)>, f: int) -> Seq<(int, Seq<u16>)> {
    ts.map_values(|t: (int, Seq<u16>)| (f * t.0, t.1))
}

proof fn lemma_lin_concat(a: Seq<(int, Seq<u16>)>, b: Seq<(int, Seq<u16>)>, x: int, k: int)
    requires
        0 <= k <= b.len(),
    ensures
        lin(a + b, x, a.len() + k) == lin_all(a, x) + lin(b, x, k),
    decreases k,
{
    if k > 0 {
        lemma_lin_concat(a, b, x, k - 1);
        assert((a + b)[a.len() + k - 1] == b[k - 1]);
    } else {
        lemma_lin_concat_prefix(a, b, x, a.len() as int);
    }
}

proof fn lemma_lin_concat_prefix(a: Seq<(int, Seq<u16>)>, b: Seq<(int, Seq<u16>)>, x: int, k: int)
    requires
        0 <= k <= a.len(),
    ensures
        lin(a + b, x, k) == lin(a, x, k),
    decreases k,
{
    if k > 0 {
        lemma_lin_concat_prefix(a, b, x, k - 1);
        assert((a + b)[k - 1] == a[k - 1]);
    }
}

proof fn lemma_lin_scaled(ts: Seq<(int, Seq<u16>)>, f: int, x: int, k: int)
    requires
        0 <= k <= ts.len(),
    ensures
        lin(scaled(ts, f), x, k) == f * lin(ts, x, k),
    decreases k,
{
    if k > 0 {
        lemma_lin_scaled(ts, f, x, k - 1);
        let c = ts[k - 1].0;
        let r = ts[k - 1].1[x] as int;
        let l = lin(ts, x, k - 1);
        assert(scaled(ts, f)[k - 1] == (f * c, ts[k - 1].1));
        assert(f * l + (f * c) * r == f * (l + c * r)) by (nonlinear_arith);
    }
}

/// `a + f * b` modulo `p` only depends on `a` and `b` modulo `p`.
proof fn lemma_mod_affine(a: int, b: int, a2: int, b2: int, f: int, p: int)
    requires
        p > 0,
        a % p == a2 % p,
        b % p == b2 % p,
    ensures
        (a + f * b) % p == (a2 + f * b2) % p,
{
    lemma_mul_mod_noop_general(f, b, p);
    lemma_mul_mod_noop_general(f, b2, p);
    lemma_add_mod_noop(a, f * b, p);
    lemma_add_mod_noop(a2, f * b2, p);
}

/// The combination with each term whose row is no longer a row of `cur2`
/// replaced by `rep` times its coefficient.
pub open spec fn replaced(ts: Seq<(int, Seq<u16>)>, cur2: Seq<Seq<u16>>, rep: Seq<(int, Seq<u16>)>) -> Seq<(int, Seq<u16>)>
    decreases ts.len(),
{
    if ts.len() == 0 {
        Seq::empty()
    } else {
        let prev = replaced(ts.drop_last(), cur2, rep);
        let t = ts.last();
        if cur2.contains(t.1) {
            prev.push(t)
        } else {
            prev + scaled(rep, t.0)
        }
    }
}

/// Replacing the row `q` of `cur` by rows of `cur2` that give it modulo `p`
/// turns a combination of rows of `cur` into one of rows of `cur2` with the
/// same value modulo `p` in the columns below `n`.
proof fn lemma_replaced(
    ts: Seq<(int, Seq<u16>)>,
    cur: Seq<Seq<u16>>,
    cur2: Seq<Seq<u16>>,
    q: int,
    rep: Seq<(int, Seq<u16>)>,
    p: int,
    n: int,
)
    requires
        p > 0,
        0 <= q < cur.len(),
        cur2.len() == cur.len(),
        forall|k: int| 0 <= k < cur.len() && k != q ==> #[trigger] cur2[k] == cur[k],
        terms_of(ts, cur),
        terms_of(rep, cur2),
        forall|x: int| 0 <= x < n ==> (#[trigger] cur[q][x] as int) % p == lin_all(rep, x) % p,
    ensures
        terms_of(replaced(ts, cur2, rep), cur2),
        forall|x: int| 0 <= x < n ==> #[trigger] lin_all(replaced(ts, cur2, rep), x) % p == lin_all(ts, x) % p,
    decreases ts.len(),
{
    if ts.len() > 0 {
        let init = ts.drop_last();
        assert(terms_of(init, cur)) by {
            assert forall|t: int| 0 <= t < init.len() implies cur.contains(#[trigger] init[t].1) by {
                assert(init[t] == ts[t]);
            }
        }
        lemma_replaced(init, cur, cur2, q, rep, p, n);
        let prev = replaced(init, cur2, rep);
        let t = ts.last();
        assert(ts[ts.len() - 1] == t);
        assert(cur.contains(t.1));
        if cur2.contains(t.1) {
            let r2 = prev.push(t);
            assert(terms_of(r2, cur2)) by {
                assert forall|u: int| 0 <= u < r2.len() implies cur2.contains(#[trigger] r2[u].1) by {
                    if u < prev.len() {
                        assert(r2[u] == prev[u]);
                    }
                }
            }
            assert forall|x: int| 0 <= x < n implies #[trigger] lin_all(r2, x) % p == lin_all(ts, x) % p by {
                assert(lin_all(prev, x) % p == lin_all(init, x) % p);
                assert(lin(r2, x, prev.len() as int) == lin_all(prev, x)) by {
                    lemma_lin_prefix(prev, t, x, prev.len() as int);
                }
                assert(lin(ts, x, init.len() as int) == lin_all(init, x)) by {
                    lemma_lin_prefix(init, t, x, init.len() as int);
                    assert(init.push(t) =~= ts);
                }
                lemma_mod_affine(lin_all(prev, x), t.1[x] as int, lin_all(init, x), t.1[x] as int, t.0, p);
                assert(t.0 * (t.1[x] as int) == (t.1[x] as int) * t.0) by (nonlinear_arith);
            }
        } else {
            let k = choose|k: int| 0 <= k < cur.len() && cur[k] == t.1;
            if k != q {
                assert(cur2[k] == t.1);
            }
            assert(k == q);
            let sr = scaled(rep, t.0);
            let r2 = prev + sr;
            assert(terms_of(r2, cur2)) by {
                assert forall|u: int| 0 <= u < r2.len() implies cur2.contains(#[trigger] r2[u].1) by {
                    if u < prev.len() {
                        assert(r2[u] == prev[u]);
                    } else {
                        assert(r2[u] == sr[u - prev.len()]);
                        assert(sr[u - prev.len()].1 == rep[u - prev.len()].1);
                    }
                }
            }
            assert forall|x: int| 0 <= x < n implies #[trigger] lin_all(r2, x) % p == lin_all(ts, x) % p by {
                lemma_lin_concat(prev, sr, x, sr.len() as int);
                lemma_lin_scaled(rep, t.0, x, rep.len() as int);
                assert(lin(ts, x, init.len() as int) == lin_all(init, x)) by {
                    lemma_lin_prefix(init, t, x, init.len() as int);
                    assert(init.push(t) =~= ts);
                }
                assert(lin_all(ts, x) == lin_all(init, x) + t.0 * cur[q][x]);
                assert((cur[q][x] as int) % p == lin_all(rep, x) % p);
                lemma_mod_affine(lin_all(prev, x), lin_all(rep, x), lin_all(init, x), cur[q][x] as int, t.0, p);
            }
        }
    }
}

/// The sum of a prefix does not see the terms pushed after it.
proof fn lemma_lin_prefix(ts: Seq<(int, Seq<u16>)>, t: (int, Seq<u16>), x: int, k: int)
    requires
        0 <= k <= ts.len(),
    ensures
        lin(ts.push(t), x, k) == lin(ts, x, k),
    decreases k,
{
    if k > 0 {
        lemma_lin_prefix(ts, t, x, k - 1);
        assert(ts.push(t)[k - 1] == ts[k - 1]);
    }
}

/// The combination with one more term.
proof fn lemma_lin_push(ts: Seq<(int, Seq<u16>)>, t: (int, Seq<u16>), x: int)
    ensures
        lin_all(ts.push(t), x) == lin_all(ts, x) + t.0 * t.1[x],
{
    lemma_lin_prefix(ts, t, x, ts.len() as int);
    assert(ts.push(t)[ts.len() as int] == t);
}

/// A row of `cur` keeps its combinations when `cur2` has the same rows.
proof fn lemma_span_same_rows(v: Seq<u16>, cur: Seq<Seq<u16>>, cur2: Seq<Seq<u16>>, p: int)
    requires
        in_span(v, cur, p),
        forall|w: Seq<u16>| cur.contains(w) ==> #[trigger] cur2.contains(w),
    ensures
        in_span(v, cur2, p),
{
    let ts = choose|ts: Seq<(int, Seq<u16>)>| #[trigger] terms_of(ts, cur) && represents(ts, v, p);
    assert(terms_of(ts, cur2)) by {
        assert forall|t: int| 0 <= t < ts.len() implies cur2.contains(#[trigger] ts[t].1) by {
            assert(cur.contains(ts[t].1));
        }
    }
}

/// Rearranging the rows keeps the row space: when `cur2` holds exactly the
/// rows of `cur`, both relations with `orig` carry over.
pub proof fn lemma_rows_rearranged(cur: Seq<Seq<u16>>, cur2: Seq<Seq<u16>>, orig: Seq<Seq<u16>>, p: int)
    requires
        same_row_space(cur, orig, p),
        forall|w: Seq<u16>| #[trigger] cur.contains(w) <==> cur2.contains(w),
    ensures
        same_row_space(cur2, orig, p),
{
    assert forall|i: int| 0 <= i < cur2.len() implies in_span(#[trigger] cur2[i], orig, p) by {
        assert(cur2.contains(cur2[i]));
        assert(cur.contains(cur2[i]));
        let k = choose|k: int| 0 <= k < cur.len() && cur[k] == cur2[i];
        assert(in_span(cur[k], orig, p));
    }
    assert forall|i: int| 0 <= i < orig.len() implies in_span(#[trigger] orig[i], cur2, p) by {
        assert(in_span(orig[i], cur, p));
        lemma_span_same_rows(orig[i], cur, cur2, p);
    }
}

/// Every row of the original matrix stays in the row space after row `q` is
/// replaced, when rows of the new matrix give the old row `q` modulo `p`.
proof fn lemma_orig_within(
    cur: Seq<Seq<u16>>,
    cur2: Seq<Seq<u16>>,
    orig: Seq<Seq<u16>>,
    q: int,
    rep: Seq<(int, Seq<u16>)>,
    p: int,
    n: int,
)
    requires
        p > 0,
        0 <= q < cur.len(),
        cur2.len() == cur.len(),
        forall|k: int| 0 <= k < cur.len() && k != q ==> #[trigger] cur2[k] == cur[k],
        terms_of(rep, cur2),
        forall|x: int| 0 <= x < n ==> (#[trigger] cur[q][x] as int) % p == lin_all(rep, x) % p,
        rows_of_len(orig, n),
        spans_within(orig, cur, p),
    ensures
        spans_within(orig, cur2, p),
{
    assert forall|i: int| 0 <= i < orig.len() implies in_span(#[trigger] orig[i], cur2, p) by {
        assert(in_span(orig[i], cur, p));
        let ts = choose|ts: Seq<(int, Seq<u16>)>| #[trigger] terms_of(ts, cur) && represents(ts, orig[i], p);
        lemma_replaced(ts, cur, cur2, q, rep, p, n);
        let ts2 = replaced(ts, cur2, rep);
        assert(terms_of(ts2, cur2));
        assert forall|x: int| 0 <= x < orig[i].len() implies (#[trigger] orig[i][x] as int) % p == lin_all(ts2, x) % p by {
            assert(lin_all(ts2, x) % p == lin_all(ts, x) % p);
        }
        assert(represents(ts2, orig[i], p));
    }
}

/// Multiplying row `q` by `a`, where `b * a` is 1 modulo `p`, keeps the row
/// space.
pub proof fn lemma_scale_keeps_space(cur: Seq<Seq<u16>>, cur2: Seq<Seq<u16>>, orig: Seq<Seq<u16>>, q: int, a: int, b: int, p: int, n: int)
    requires
        p > 1,
        0 <= q < cur.len(),
        cur2.len() == cur.len(),
        forall|k: int| 0 <= k < cur.len() && k != q ==> #[trigger] cur2[k] == cur[k],
        cur2[q].len() == n,
        forall|x: int| 0 <= x < n ==> #[trigger] cur2[q][x] == (a * cur[q][x]) % p,
        (b * a) % p == 1,
        rows_of_len(cur, n),
        rows_of_len(orig, n),
        same_row_space(cur, orig, p),
    ensures
        same_row_space(cur2, orig, p),
{
    // the new row is `a` times a combination of the original rows
    assert forall|i: int| 0 <= i < cur2.len() implies in_span(#[trigger] cur2[i], orig, p) by {
        assert(in_span(cur[i], orig, p));
        if i == q {
            let ts = choose|ts: Seq<(int, Seq<u16>)>| #[trigger] terms_of(ts, orig) && represents(ts, cur[q], p);
            let ts2 = scaled(ts, a);
            assert(terms_of(ts2, orig)) by {
                assert forall|t: int| 0 <= t < ts2.len() implies orig.contains(#[trigger] ts2[t].1) by {
                    assert(ts2[t].1 == ts[t].1);
                }
            }
            assert forall|x: int| 0 <= x < cur2[q].len() implies (#[trigger] cur2[q][x] as int) % p == lin_all(ts2, x) % p by {
                lemma_lin_scaled(ts, a, x, ts.len() as int);
                assert((cur[q][x] as int) % p == lin_all(ts, x) % p);
                lemma_mod_affine(0, cur[q][x] as int, 0, lin_all(ts, x), a, p);
                lemma_mod_twice(a * cur[q][x], p);
            }
            assert(represents(ts2, cur2[q], p));
        }
    }
    // the old row is `b` times the new one
    let rep = seq![(b, cur2[q])];
    assert(terms_of(rep, cur2)) by {
        assert forall|t: int| 0 <= t < rep.len() implies cur2.contains(#[trigger] rep[t].1) by {
            assert(cur2[q] == rep[t].1);
        }
    }
    assert forall|x: int| 0 <= x < n implies (#[trigger] cur[q][x] as int) % p == lin_all(rep, x) % p by {
        lemma_lin_push(Seq::empty(), (b, cur2[q]), x);
        assert(seq![(b, cur2[q])] =~= Seq::<(int, Seq<u16>)>::empty().push((b, cur2[q])));
        let y = cur[q][x] as int;
        // b * ((a * y) % p) == b * a * y == y, modulo p
        lemma_mul_mod_noop_general(b, a * y, p);
        assert(b * (a * y) == (b * a) * y) by (nonlinear_arith);
        lemma_mul_mod_noop_general(b * a, y, p);
        assert(1 * y == y);
    }
    lemma_orig_within(cur, cur2, orig, q, rep, p, n);
}

/// Adding `f` times row `i` to row `j` keeps the row space.
pub proof fn lemma_add_keeps_space(cur: Seq<Seq<u16>>, cur2: Seq<Seq<u16>>, orig: Seq<Seq<u16>>, i: int, j: int, f: int, p: int, n: int)
    requires
        p > 1,
        0 <= i < cur.len(),
        0 <= j < cur.len(),
        i != j,
        cur2.len() == cur.len(),
        forall|k: int| 0 <= k < cur.len() && k != j ==> #[trigger] cur2[k] == cur[k],
        cur2[j].len() == n,
        forall|x: int| 0 <= x < n ==> #[trigger] cur2[j][x] == (cur[j][x] + (cur[i][x] * f) % p) % p,
        rows_of_len(cur, n),
        rows_of_len(orig, n),
        same_row_space(cur, orig, p),
    ensures
        same_row_space(cur2, orig, p),
{
    assert forall|k: int| 0 <= k < cur2.len() implies in_span(#[trigger] cur2[k], orig, p) by {
        assert(in_span(cur[k], orig, p));
        if k == j {
            assert(in_span(cur[i], orig, p));
            let tj = choose|ts: Seq<(int, Seq<u16>)>| #[trigger] terms_of(ts, orig) && represents(ts, cur[j], p);
            let ti = choose|ts: Seq<(int, Seq<u16>)>| #[trigger] terms_of(ts, orig) && represents(ts, cur[i], p);
            let si = scaled(ti, f);
            let ts2 = tj + si;
            assert(terms_of(ts2, orig)) by {
                assert forall|t: int| 0 <= t < ts2.len() implies orig.contains(#[trigger] ts2[t].1) by {
                    if t < tj.len() {
                        assert(ts2[t] == tj[t]);
                    } else {
                        assert(ts2[t] == si[t - tj.len()]);
                        assert(si[t - tj.len()].1 == ti[t - tj.len()].1);
                    }
                }
            }
            assert forall|x: int| 0 <= x < cur2[j].len() implies (#[trigger] cur2[j][x] as int) % p == lin_all(ts2, x) % p by {
                lemma_lin_concat(tj, si, x, si.len() as int);
                lemma_lin_scaled(ti, f, x, ti.len() as int);
                let yj = cur[j][x] as int;
                let yi = cur[i][x] as int;
                assert(yj % p == lin_all(tj, x) % p);
                assert(yi % p == lin_all(ti, x) % p);
                // cur2[j][x] == (yj + (yi * f) % p) % p == (yj + f * yi) % p
                lemma_add_mod_noop(yj, yi * f, p);
                lemma_mod_twice(yj, p);
                lemma_mod_twice(yi * f, p);
                assert(yi * f == f * yi) by (nonlinear_arith);
                lemma_add_mod_noop(yj, (yi * f) % p, p);
                lemma_mod_affine(yj, yi, lin_all(tj, x), lin_all(ti, x), f, p);
                lemma_mod_twice(yj + (yi * f) % p, p);
            }
            assert(represents(ts2, cur2[j], p));
        }
    }
    // the old row `j` is the new row `j` minus `f` times row `i`
    let rep = seq![(1int, cur2[j]), (-f, cur2[i])];
    assert(terms_of(rep, cur2)) by {
        assert forall|t: int| 0 <= t < rep.len() implies cur2.contains(#[trigger] rep[t].1) by {
            if t == 0 {
                assert(cur2[j] == rep[t].1);
            } else {
                assert(cur2[i] == rep[t].1);
            }
        }
    }
    assert forall|x: int| 0 <= x < n implies (#[trigger] cur[j][x] as int) % p == lin_all(rep, x) % p by {
        let e = Seq::<(int, Seq<u16>)>::empty();
        lemma_lin_push(e, (1int, cur2[j]), x);
        lemma_lin_push(e.push((1int, cur2[j])), (-f, cur2[i]), x);
        assert(rep =~= e.push((1int, cur2[j])).push((-f, cur2[i])));
        assert(lin_all(e, x) == 0);
        let yj = cur[j][x] as int;
        let yi = cur[i][x] as int;
        let z = cur2[j][x] as int;
        assert(cur2[i] == cur[i]);
        assert(lin_all(rep, x) == 1 * z + (-f) * yi);
        assert(1 * z + (-f) * yi == z - f * yi) by (nonlinear_arith);
        assert(yi * f == f * yi) by (nonlinear_arith);
        // z == (yj + (f * yi) % p) % p, so z == (yj + f * yi) % p
        assert(z == (yj + (f * yi) % p) % p);
        lemma_mod_twice(yj, p);
        lemma_add_mod_noop(yj, f * yi, p);
        lemma_mod_twice(f * yi, p);
        lemma_add_mod_noop(yj, (f * yi) % p, p);
        assert(z == (yj + f * yi) % p);
        // (z - f * yi) % p == ((yj + f * yi) - f * yi) % p
        lemma_sub_mod_noop(z, f * yi, p);
        lemma_sub_mod_noop(yj + f * yi, f * yi, p);
        lemma_mod_twice(yj + f * yi, p);
        assert((yj + f * yi) - f * yi == yj);
    }
    lemma_orig_within(cur, cur2, orig, j, rep, p, n);
}

/// Every matrix spans its own row space.
pub proof fn lemma_same_row_space_refl(m: Seq<Seq<u16>>, p: int)
    requires
        p > 0,
    ensures
        same_row_space(m, m, p),
{
    assert forall|i: int| 0 <= i < m.len() implies in_span(#[trigger] m[i], m, p) by {
        let ts = Seq::<(int, Seq<u16>)>::empty().push((1int, m[i]));
        assert(terms_of(ts, m)) by {
            assert forall|t: int| 0 <= t < ts.len() implies m.contains(#[trigger] ts[t].1) by {
                assert(m[i] == ts[t].1);
            }
        }
        assert forall|x: int| 0 <= x < m[i].len() implies (#[trigger] m[i][x] as int) % p == lin_all(ts, x) % p by {
            lemma_lin_push(Seq::empty(), (1int, m[i]), x);
            assert(lin_all(Seq::<(int, Seq<u16>)>::empty(), x) == 0);
            assert(lin_all(ts, x) == 1 * m[i][x]);
        }
        assert(represents(ts, m[i], p));
    }
}

} // verus!
