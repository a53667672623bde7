//! Deleting duplicate rows of a sparse integer matrix: rows are compared
//! after division by the greatest common divisor of their entries (and the
//! sign of their first entry); a row with the same nonzero columns as earlier
//! rows is combined with one of them to gain as many zeros as possible.
use vstd::prelude::*;
use rustc_hash::FxHashMap;
use crate::sms::{abs, divides, gcd, gcd_spec, lemma_divides_abs, lemma_divides_trans, lemma_exact_division, lemma_gcd_divides};

verus! {

/// The rows seen so far by their nonzero columns: for each list of columns,
/// the normalized values of the rows with those columns, one after another.
pub type PatternMap = FxHashMap<Vec<u32>, Vec<i32>>;

/// What a map of row patterns holds: each list of columns, with the values
/// stored under it.
pub uninterp spec fn pattern_rows(m: PatternMap) -> Map<Seq<u32>, Seq<i32>>;

/// An empty Fx hash map of row patterns.
#[verifier::external_body]
fn new_pattern_map() -> (m: PatternMap)
    ensures
        pattern_rows(m).dom() == Set::<Seq<u32>>::empty(),
{
    FxHashMap::default()
}

/// `HashMap::get` on the map of row patterns, cloned: the values stored under
/// the columns, if any. Keys are compared by their entries, as `Vec`'s `Eq`
/// and `Hash` do.
#[verifier::external_body]
fn pattern_get(m: &PatternMap, k: &Vec<u32>) -> (r: Option<Vec<i32>>)
    ensures
        match r {
            Some(v) => pattern_rows(*m).contains_key(k@) && v@ == pattern_rows(*m)[k@],
            None => !pattern_rows(*m).contains_key(k@),
        },
{
    m.get(k).cloned()
}

/// `HashMap::insert` on the map of row patterns: the columns are bound to
/// the values, replacing what was stored under them.
#[verifier::external_body]
fn pattern_insert(m: &mut PatternMap, k: Vec<u32>, v: Vec<i32>)
    ensures
        pattern_rows(*final(m)) == pattern_rows(*old(m)).insert(k@, v@),
{
    m.insert(k, v);
}

/// The greatest common divisor of the absolute values of a sequence, folded
/// from 0.
pub open spec fn seq_gcd(v: Seq<int>) -> nat
    decreases v.len(),
{
    if v.len() == 0 {
        0
    } else {
        gcd_spec(seq_gcd(v.drop_last()), abs(v.last()))
    }
}

/// The values as integers.
pub open spec fn ints(v: Seq<i32>) -> Seq<int> {
    v.map_values(|x: i32| x as int)
}

/// A row divided by the greatest common divisor of its entries, negated where
/// its first entry is negative.
pub open spec fn normalized_row(v: Seq<i32>) -> Seq<i32> {
    let g = seq_gcd(ints(v)) as int;
    if v[0] < 0 {
        v.map_values(|x: i32| (-((x as int) / g)) as i32)
    } else if g != 1 {
        v.map_values(|x: i32| ((x as int) / g) as i32)
    } else {
        v
    }
}

/// The `c`-th stored row of length `len`.
pub open spec fn chunk(stored: Seq<i32>, c: int, len: int) -> Seq<i32> {
    stored.subrange(c * len, c * len + len)
}

/// Some stored row equals the row.
pub open spec fn is_stored(stored: Seq<i32>, v: Seq<i32>) -> bool {
    exists|c: int| 0 <= c < stored.len() / v.len() && #[trigger] chunk(stored, c, v.len() as int) == v
}

/// The coefficients `(y / g, -x / g)` that cancel the pair `(x, y)`, `g`
/// their greatest common divisor.
pub open spec fn cancel(x: int, y: int) -> (int, int) {
    let g = gcd_spec(abs(x), abs(y)) as int;
    (y / g, -x / g)
}

/// The number of positions among the first `k` where `a * v + b * w` is 0.
pub open spec fn zeros(v: Seq<i32>, w: Seq<i32>, a: int, b: int, k: int) -> nat
    decreases k,
{
    if k <= 0 {
        0
    } else {
        zeros(v, w, a, b, k - 1) + (if a * v[k - 1] + b * w[k - 1] == 0 {
            1nat
        } else {
            0nat
        })
    }
}

/// The best cancellation among the first `t` candidates (stored row
/// `t / len`, position `t % len`): the most zeros, the coefficients, and the
/// stored row; the first one wins a tie.
pub open spec fn best_upto(stored: Seq<i32>, v: Seq<i32>, t: int) -> (nat, int, int, int)
    decreases t,
{
    if t <= 0 {
        (0, 0, 0, 0)
    } else {
        let prev = best_upto(stored, v, t - 1);
        let len = v.len() as int;
        let c = (t - 1) / len;
        let p = (t - 1) % len;
        let w = chunk(stored, c, len);
        let (a, b) = cancel(v[p] as int, w[p] as int);
        let z = zeros(v, w, a, b, len);
        if z > prev.0 {
            (z, a, b, c)
        } else {
            prev
        }
    }
}

/// The combination `a * v + b * w`.
pub open spec fn combination(v: Seq<i32>, w: Seq<i32>, a: int, b: int) -> Seq<int> {
    Seq::new(v.len(), |k: int| a * v[k] + b * w[k])
}

/// The combination divided by the greatest common divisor of its entries
/// where that is not 1.
pub open spec fn reduced(c: Seq<int>) -> Seq<int> {
    let g = seq_gcd(c) as int;
    if g != 1 {
        c.map_values(|x: int| x / g)
    } else {
        c
    }
}

/// Every entry fits in an `i32` other than its least value.
pub open spec fn fits_i32(c: Seq<int>) -> bool {
    forall|k: int| 0 <= k < c.len() ==> i32::MIN < #[trigger] c[k] <= i32::MAX
}

/// The groups of entries from position `e` on, after the current group of
/// row `ri` with columns `cols` and values `vals`: a new group starts at an
/// entry whose row exceeds the current one. The last group is the one still
/// open at the end.
pub open spec fn groups_from(m: Seq<([u32; 2], i32)>, e: int, ri: int, cols: Seq<u32>, vals: Seq<i32>) -> Seq<(int, Seq<u32>, Seq<i32>)>
    decreases m.len() - e,
{
    if e >= m.len() {
        seq![(ri, cols, vals)]
    } else if m[e].0[0] > ri {
        seq![(ri, cols, vals)] + groups_from(m, e + 1, m[e].0[0] as int, seq![m[e].0[1]], seq![m[e].1])
    } else {
        groups_from(m, e + 1, ri, cols.push(m[e].0[1]), vals.push(m[e].1))
    }
}

/// The groups that are processed: all but the last, which is processed only
/// where the row after the last (`x + 1`) exceeds its row.
pub open spec fn row_groups(m: Seq<([u32; 2], i32)>, x: int) -> Seq<(int, Seq<u32>, Seq<i32>)> {
    let g = groups_from(m, 0, 1, Seq::empty(), Seq::empty());
    if x + 1 > g.last().0 {
        g
    } else {
        g.drop_last()
    }
}

/// The state after the first `k` groups: the stored rows, the number of
/// deleted rows, whether a row was combined, the entries written, and whether
/// every combination was nonzero and fit.
pub open spec fn dedup_upto(gs: Seq<(int, Seq<u32>, Seq<i32>)>, k: int) -> (Map<Seq<u32>, Seq<i32>>, int, bool, Seq<([u32; 2], i32)>, bool)
    decreases k,
{
    if k <= 0 {
        (Map::empty(), 0, false, Seq::empty(), true)
    } else {
        let (rows, shift, elim, out, ok) = dedup_upto(gs, k - 1);
        let (ri, cols, vals) = gs[k - 1];
        let nv = normalized_row(vals);
        let stored = if rows.contains_key(cols) { rows[cols] } else { Seq::empty() };
        if is_stored(stored, nv) {
            (rows, shift + 1, elim, out, ok)
        } else {
            let len = nv.len() as int;
            let (mx, a, b, c) = best_upto(stored, nv, (stored.len() as int / len) * len);
            let rows2 = rows.insert(cols, stored + nv);
            let row = ri - shift;
            if mx > 0 {
                let comb = combination(nv, chunk(stored, c, len), a, b);
                let fin = reduced(comb);
                (rows2, shift, true, out + written(row, cols, fin), ok && fits_i32(comb) && seq_gcd(comb) != 0)
            } else {
                (rows2, shift, elim, out + written(row, cols, ints(nv)), ok)
            }
        }
    }
}

/// The entries of a row: its nonzero values, in its columns.
pub open spec fn written(row: int, cols: Seq<u32>, vals: Seq<int>) -> Seq<([u32; 2], i32)>
    decreases vals.len(),
{
    if vals.len() == 0 {
        Seq::empty()
    } else {
        let k = vals.len() - 1;
        let prev = written(row, cols, vals.drop_last());
        if vals[k] != 0 {
            prev.push(([row as u32, cols[k]], vals[k] as i32))
        } else {
            prev
        }
    }
}


/// Some earlier group `j < k` has the columns `cols` and, normalised, the
/// `c`-th stored row of `s`.
pub open spec fn chunk_of_earlier(gs: Seq<(int, Seq<u32>, Seq<i32>)>, k: int, cols: Seq<u32>, s: Seq<i32>, c: int) -> bool {
    exists|j: int| 0 <= j < k && gs[j].1 == cols && #[trigger] normalized_row(gs[j].2) == chunk(s, c, cols.len() as int)
}

/// The normalised group `j` is one of the rows stored under its columns.
pub open spec fn kept_under(gs: Seq<(int, Seq<u32>, Seq<i32>)>, rows: Map<Seq<u32>, Seq<i32>>, j: int) -> bool {
    let cols = gs[j].1;
    &&& rows.contains_key(cols)
    &&& exists|c: int| 0 <= c < (rows[cols].len() as int) / (cols.len() as int)
        && #[trigger] chunk(rows[cols], c, cols.len() as int) == normalized_row(gs[j].2)
}

/// The rows stored after `k` groups: under each columns, whole rows, each the
/// normalised values of an earlier group with those columns; and every
/// earlier group, normalised, among them.
pub open spec fn store_ok(gs: Seq<(int, Seq<u32>, Seq<i32>)>, k: int, rows: Map<Seq<u32>, Seq<i32>>) -> bool {
    &&& forall|cols: Seq<u32>| #[trigger] rows.contains_key(cols) ==> cols.len() > 0
        && rows[cols].len() == ((rows[cols].len() as int) / (cols.len() as int)) * cols.len()
        && forall|c: int| 0 <= c < (rows[cols].len() as int) / (cols.len() as int) ==> #[trigger] chunk_of_earlier(gs, k, cols, rows[cols], c)
    &&& forall|j: int| 0 <= j < k ==> #[trigger] kept_under(gs, rows, j)
}

/// Groups whose columns and values are equally many, and not none.
pub open spec fn groups_shaped(gs: Seq<(int, Seq<u32>, Seq<i32>)>) -> bool {
    forall|j: int| 0 <= j < gs.len() ==> #[trigger] gs[j].1.len() == gs[j].2.len() && gs[j].2.len() > 0
}

proof fn lemma_normalized_len(v: Seq<i32>)
    requires
        v.len() > 0,
    ensures
        normalized_row(v).len() == v.len(),
{
}

/// The stored rows keep what `store_ok` says, group after group.
proof fn lemma_dedup_store(gs: Seq<(int, Seq<u32>, Seq<i32>)>, k: int)
    requires
        0 <= k <= gs.len(),
        groups_shaped(gs),
    ensures
        store_ok(gs, k, dedup_upto(gs, k).0),
    decreases k,
{
    if k > 0 {
        lemma_dedup_store(gs, k - 1);
        let rows = dedup_upto(gs, k - 1).0;
        let (ri, cols, vals) = gs[k - 1];
        assert(gs[k - 1].1.len() == gs[k - 1].2.len() && gs[k - 1].2.len() > 0);
        let nv = normalized_row(vals);
        lemma_normalized_len(vals);
        let l = cols.len() as int;
        let stored = if rows.contains_key(cols) { rows[cols] } else { Seq::<i32>::empty() };
        let rows2 = dedup_upto(gs, k).0;
        let q = (stored.len() as int) / l;
        assert(stored.len() == q * l) by {
            if !rows.contains_key(cols) {
                assert(stored.len() == 0);
            }
        }
        if is_stored(stored, nv) {
            assert(rows2 == rows);
            let c = choose|c: int| 0 <= c < stored.len() / nv.len() && #[trigger] chunk(stored, c, nv.len() as int) == nv;
            if !rows.contains_key(cols) {
                assert(stored.len() / nv.len() == 0);
            }
            assert(kept_under(gs, rows2, k - 1));
            assert forall|cs: Seq<u32>| #[trigger] rows2.contains_key(cs) implies cs.len() > 0
                && rows2[cs].len() == ((rows2[cs].len() as int) / (cs.len() as int)) * cs.len()
                && forall|c: int| 0 <= c < (rows2[cs].len() as int) / (cs.len() as int) ==> #[trigger] chunk_of_earlier(gs, k, cs, rows2[cs], c) by {
                assert forall|c: int| 0 <= c < (rows2[cs].len() as int) / (cs.len() as int) implies #[trigger] chunk_of_earlier(gs, k, cs, rows2[cs], c) by {
                    assert(chunk_of_earlier(gs, k - 1, cs, rows[cs], c));
                    let j = choose|j: int| 0 <= j < k - 1 && gs[j].1 == cs && #[trigger] normalized_row(gs[j].2) == chunk(rows[cs], c, cs.len() as int);
                    assert(normalized_row(gs[j].2) == chunk(rows2[cs], c, cs.len() as int));
                }
            }
            assert forall|j: int| 0 <= j < k implies #[trigger] kept_under(gs, rows2, j) by {
                if j < k - 1 {
                    assert(kept_under(gs, rows, j));
                }
            }
        } else {
            let ns = stored + nv;
            assert(rows2 == rows.insert(cols, ns));
            assert(ns.len() == (q + 1) * l) by (nonlinear_arith)
                requires ns.len() == stored.len() + l, stored.len() == q * l;
            vstd::arithmetic::div_mod::lemma_div_multiples_vanish(q + 1, l);
            assert(l * (q + 1) == (q + 1) * l) by (nonlinear_arith);
            assert((ns.len() as int) / l == q + 1);
            assert forall|c: int| 0 <= c < q implies #[trigger] chunk(ns, c, l) == chunk(stored, c, l) by {
                assert(c * l + l <= q * l) by (nonlinear_arith)
                    requires c + 1 <= q, l > 0;
                assert(0 <= c * l) by (nonlinear_arith)
                    requires 0 <= c, l > 0;
                assert(chunk(ns, c, l) =~= chunk(stored, c, l));
            }
            assert(chunk(ns, q, l) =~= nv);
            assert forall|cs: Seq<u32>| #[trigger] rows2.contains_key(cs) implies cs.len() > 0
                && rows2[cs].len() == ((rows2[cs].len() as int) / (cs.len() as int)) * cs.len()
                && forall|c: int| 0 <= c < (rows2[cs].len() as int) / (cs.len() as int) ==> #[trigger] chunk_of_earlier(gs, k, cs, rows2[cs], c) by {
                if cs == cols {
                    assert forall|c: int| 0 <= c < (rows2[cs].len() as int) / (cs.len() as int) implies #[trigger] chunk_of_earlier(gs, k, cs, rows2[cs], c) by {
                        if c < q {
                            assert(rows.contains_key(cols));
                            assert(chunk_of_earlier(gs, k - 1, cs, rows[cs], c));
                            let j = choose|j: int| 0 <= j < k - 1 && gs[j].1 == cs && #[trigger] normalized_row(gs[j].2) == chunk(rows[cs], c, cs.len() as int);
                            assert(normalized_row(gs[j].2) == chunk(rows2[cs], c, cs.len() as int));
                        } else {
                            assert(normalized_row(gs[k - 1].2) == chunk(rows2[cs], c, cs.len() as int));
                        }
                    }
                } else {
                    assert forall|c: int| 0 <= c < (rows2[cs].len() as int) / (cs.len() as int) implies #[trigger] chunk_of_earlier(gs, k, cs, rows2[cs], c) by {
                        assert(chunk_of_earlier(gs, k - 1, cs, rows[cs], c));
                        let j = choose|j: int| 0 <= j < k - 1 && gs[j].1 == cs && #[trigger] normalized_row(gs[j].2) == chunk(rows[cs], c, cs.len() as int);
                        assert(normalized_row(gs[j].2) == chunk(rows2[cs], c, cs.len() as int));
                    }
                }
            }
            assert forall|j: int| 0 <= j < k implies #[trigger] kept_under(gs, rows2, j) by {
                if j < k - 1 {
                    assert(kept_under(gs, rows, j));
                    let cj = gs[j].1;
                    let c = choose|c: int| 0 <= c < (rows[cj].len() as int) / (cj.len() as int)
                        && #[trigger] chunk(rows[cj], c, cj.len() as int) == normalized_row(gs[j].2);
                    if cj == cols {
                        assert(chunk(rows2[cj], c, l) == chunk(stored, c, l));
                    }
                } else {
                    assert(chunk(rows2[cols], q, l) == nv);
                }
            }
        }
    }
}

/// A row is deleted as a duplicate exactly where an earlier row has the same
/// columns and, divided by the greatest common divisor of its entries and
/// made positive in front, the same values: equal entry for entry, not
/// merely on some of them.
pub proof fn lemma_deleted_iff_repeated(gs: Seq<(int, Seq<u32>, Seq<i32>)>, k: int)
    requires
        0 <= k < gs.len(),
        groups_shaped(gs),
    ensures
        (dedup_upto(gs, k + 1).1 == dedup_upto(gs, k).1 + 1) <==> exists|j: int| 0 <= j < k && gs[j].1 == gs[k].1
            && #[trigger] normalized_row(gs[j].2) == normalized_row(gs[k].2),
{
    lemma_dedup_store(gs, k);
    let rows = dedup_upto(gs, k).0;
    let (ri, cols, vals) = gs[k];
    assert(gs[k].1.len() == gs[k].2.len() && gs[k].2.len() > 0);
    let nv = normalized_row(vals);
    lemma_normalized_len(vals);
    let l = cols.len() as int;
    let stored = if rows.contains_key(cols) { rows[cols] } else { Seq::<i32>::empty() };
    if is_stored(stored, nv) {
        let c = choose|c: int| 0 <= c < stored.len() / nv.len() && #[trigger] chunk(stored, c, nv.len() as int) == nv;
        if !rows.contains_key(cols) {
            assert(stored.len() / nv.len() == 0);
        }
        assert(chunk_of_earlier(gs, k, cols, rows[cols], c));
    } else {
        assert forall|j: int| 0 <= j < k && gs[j].1 == gs[k].1 implies #[trigger] normalized_row(gs[j].2) != normalized_row(gs[k].2) by {
            assert(kept_under(gs, rows, j));
            let c = choose|c: int| 0 <= c < (rows[cols].len() as int) / l && #[trigger] chunk(rows[cols], c, l) == normalized_row(gs[j].2);
            if normalized_row(gs[j].2) == nv {
                assert(is_stored(stored, nv));
            }
        }
        let st = dedup_upto(gs, k);
        let len = nv.len() as int;
        let best = best_upto(stored, nv, (stored.len() as int / len) * len);
        if best.0 > 0 {
            assert(dedup_upto(gs, k + 1).1 == st.1);
        } else {
            assert(dedup_upto(gs, k + 1).1 == st.1);
        }
    }
}

/// For the rows of a matrix as `delete_duplicate_rows` takes it: row group
/// `k` is deleted exactly where an earlier group has the same columns and the
/// same normalised values.
pub proof fn lemma_duplicate_row_deleted(m: Seq<([u32; 2], i32)>, x: int, k: int)
    requires
        forall|e: int| 0 <= e < m.len() ==> #[trigger] m[e].1 != 0 && m[e].1 != i32::MIN,
        forall|e: int| 0 <= e < m.len() ==> #[trigger] m[e].0[0] <= x,
        forall|j: int| 0 <= j < row_groups(m, x).len() ==> #[trigger] row_groups(m, x)[j].1.len() > 0,
        0 <= k < row_groups(m, x).len(),
    ensures
        ({
            let gs = row_groups(m, x);
            (dedup_upto(gs, k + 1).1 == dedup_upto(gs, k).1 + 1) <==> exists|j: int| 0 <= j < k && gs[j].1 == gs[k].1
                && #[trigger] normalized_row(gs[j].2) == normalized_row(gs[k].2)
        }),
{
    let gs = row_groups(m, x);
    lemma_row_groups(m, x);
    assert forall|j: int| 0 <= j < gs.len() implies #[trigger] gs[j].1.len() == gs[j].2.len() && gs[j].2.len() > 0 by {
        assert(gs[j].1.len() == gs[j].2.len());
        assert(gs[j].1.len() > 0);
    }
    lemma_deleted_iff_repeated(gs, k);
}

/// Candidate `t` for cancelling the row `v` with a stored row: stored row
/// `t / len`, cancelled at position `t % len`; the zeros it leaves, its
/// coefficients and the stored row.
pub open spec fn cancellation(stored: Seq<i32>, v: Seq<i32>, t: int) -> (nat, int, int, int) {
    let len = v.len() as int;
    let w = chunk(stored, t / len, len);
    let ab = cancel(v[t % len] as int, w[t % len] as int);
    (zeros(v, w, ab.0, ab.1, len), ab.0, ab.1, t / len)
}

/// The cancellation chosen among the first `t` candidates leaves the most
/// zeros; it is the first candidate that leaves that many, and nothing where
/// no candidate leaves a zero.
pub proof fn lemma_best_cancellation(stored: Seq<i32>, v: Seq<i32>, t: int)
    requires
        0 <= t,
        v.len() > 0,
    ensures
        forall|u: int| 0 <= u < t ==> (#[trigger] cancellation(stored, v, u)).0 <= best_upto(stored, v, t).0,
        best_upto(stored, v, t).0 == 0 ==> best_upto(stored, v, t) == (0nat, 0int, 0int, 0int),
        best_upto(stored, v, t).0 > 0 ==> exists|u: int| 0 <= u < t && best_upto(stored, v, t) == #[trigger] cancellation(stored, v, u)
            && forall|w: int| 0 <= w < u ==> (#[trigger] cancellation(stored, v, w)).0 < best_upto(stored, v, t).0,
    decreases t,
{
    if t > 0 {
        lemma_best_cancellation(stored, v, t - 1);
        let prev = best_upto(stored, v, t - 1);
        let cur = best_upto(stored, v, t);
        let cand = cancellation(stored, v, t - 1);
        assert(cur == (if cand.0 > prev.0 { cand } else { prev }));
        if cand.0 > prev.0 {
            assert forall|w: int| 0 <= w < t - 1 implies (#[trigger] cancellation(stored, v, w)).0 < cur.0 by {
                assert(cancellation(stored, v, w).0 <= prev.0);
            }
        } else if prev.0 > 0 {
            let u = choose|u: int| 0 <= u < t - 1 && prev == #[trigger] cancellation(stored, v, u)
                && forall|w: int| 0 <= w < u ==> (#[trigger] cancellation(stored, v, w)).0 < prev.0;
            assert(0 <= u < t && cur == cancellation(stored, v, u));
        }
    }
}

/// `d` divides every entry of `s`.
pub open spec fn divides_all(d: int, s: Seq<i32>) -> bool {
    forall|k: int| 0 <= k < s.len() ==> divides(d, #[trigger] s[k] as int)
}

/// Every common divisor of the entries divides their folded divisor.
proof fn lemma_seq_gcd_greatest(v: Seq<int>, d: int)
    requires
        forall|k: int| 0 <= k < v.len() ==> divides(d, #[trigger] v[k]),
    ensures
        divides(d, seq_gcd(v) as int),
    decreases v.len(),
{
    if v.len() == 0 {
        assert(d * 0 == 0);
    } else {
        let p = v.drop_last();
        assert forall|k: int| 0 <= k < p.len() implies divides(d, #[trigger] p[k]) by {
            assert(p[k] == v[k]);
        }
        lemma_seq_gcd_greatest(p, d);
        let x = v.last();
        assert(divides(d, x));
        let q = choose|q: int| #[trigger] (d * q) == x;
        assert(divides(d, abs(x) as int)) by {
            if x < 0 {
                assert(d * (-q) == abs(x) as int) by (nonlinear_arith)
                    requires d * q == x, x < 0;
            } else {
                assert(d * q == abs(x) as int);
            }
        }
        lemma_gcd_divides(seq_gcd(p), abs(x));
    }
}

/// Normalising a row of nonzero entries divides it by a common factor, the
/// folded divisor of its entries with the sign of its first entry: the
/// result starts positive, and no divisor above 1 divides all its entries.
pub proof fn lemma_normalized_row_law(v: Seq<i32>)
    requires
        v.len() > 0,
        forall|k: int| 0 <= k < v.len() ==> #[trigger] v[k] != 0 && v[k] != i32::MIN,
    ensures
        ({
            let nv = normalized_row(v);
            let g = seq_gcd(ints(v)) as int;
            &&& nv.len() == v.len()
            &&& g > 0
            &&& nv[0] > 0
            &&& forall|k: int| 0 <= k < v.len() ==> v[k] as int == (if v[0] < 0 { -g } else { g }) * #[trigger] nv[k]
            &&& forall|d: int| d > 1 ==> !#[trigger] divides_all(d, nv)
        }),
{
    let iv = ints(v);
    let nv = normalized_row(v);
    let g = seq_gcd(iv) as int;
    lemma_seq_gcd(iv);
    assert(iv[0] == v[0] as int);
    if g == 0 {
        assert(iv[0] == 0);
    }
    let s: int = if v[0] < 0 { -g } else { g };
    assert forall|k: int| 0 <= k < v.len() implies v[k] as int == s * #[trigger] nv[k] && -0x7fff_ffff <= nv[k] <= 0x7fff_ffff by {
        assert(iv[k] == v[k] as int);
        assert(divides(g, iv[k]));
        let q = choose|q: int| #[trigger] (g * q) == iv[k];
        assert(abs(q) <= abs(iv[k])) by (nonlinear_arith)
            requires g * q == iv[k], g > 0;
        if g > 1 {
            lemma_exact_division(iv[k], g, q);
        } else {
            assert(g == 1);
            assert(iv[k] / 1 == iv[k]);
        }
        assert(iv[k] / g == q);
        if v[0] < 0 {
            assert(nv[k] == (-q) as i32);
            assert(s * (-q) == v[k] as int) by (nonlinear_arith)
                requires s == -g, g * q == v[k] as int;
        } else if g != 1 {
            assert(nv[k] == q as i32);
        } else {
            assert(nv[k] == v[k]);
        }
    }
    assert(nv[0] > 0) by {
        assert(v[0] as int == s * nv[0]);
        if v[0] < 0 {
            assert(nv[0] > 0) by (nonlinear_arith)
                requires v[0] as int == -g * nv[0], v[0] < 0, g > 0;
        } else {
            assert(nv[0] > 0) by (nonlinear_arith)
                requires v[0] as int == g * nv[0], v[0] > 0, g > 0;
        }
    }
    assert forall|d: int| d > 1 implies !#[trigger] divides_all(d, nv) by {
        if divides_all(d, nv) {
            assert forall|k: int| 0 <= k < iv.len() implies divides(d * g, #[trigger] iv[k]) by {
                assert(divides(d, nv[k] as int));
                let q = choose|q: int| #[trigger] (d * q) == nv[k] as int;
                assert(v[k] as int == s * nv[k]);
                assert(iv[k] == v[k] as int);
                if v[0] < 0 {
                    assert((d * g) * (-q) == iv[k]) by (nonlinear_arith)
                        requires iv[k] == -g * (nv[k] as int), d * q == nv[k] as int;
                } else {
                    assert((d * g) * q == iv[k]) by (nonlinear_arith)
                        requires iv[k] == g * (nv[k] as int), d * q == nv[k] as int;
                }
            }
            lemma_seq_gcd_greatest(iv, d * g);
            let q = choose|q: int| #[trigger] ((d * g) * q) == g;
            assert(false) by (nonlinear_arith)
                requires (d * g) * q == g, d > 1, g > 0;
        }
    }
}

/// Reducing a combination that is not all zeros divides it by the folded
/// divisor of its entries, which leaves no divisor above 1 common to all.
pub proof fn lemma_reduced_law(c: Seq<int>)
    requires
        seq_gcd(c) != 0,
    ensures
        reduced(c).len() == c.len(),
        forall|k: int| 0 <= k < c.len() ==> c[k] == seq_gcd(c) * #[trigger] reduced(c)[k],
        forall|d: int| d > 1 ==> !#[trigger] divides_all_ints(d, reduced(c)),
{
    let g = seq_gcd(c) as int;
    let r = reduced(c);
    lemma_seq_gcd(c);
    assert forall|k: int| 0 <= k < c.len() implies c[k] == g * #[trigger] r[k] by {
        assert(divides(g, c[k]));
        let q = choose|q: int| #[trigger] (g * q) == c[k];
        if g > 1 {
            lemma_exact_division(c[k], g, q);
        }
    }
    assert forall|d: int| d > 1 implies !#[trigger] divides_all_ints(d, r) by {
        if divides_all_ints(d, r) {
            assert forall|k: int| 0 <= k < c.len() implies divides(d * g, #[trigger] c[k]) by {
                assert(divides(d, r[k]));
                let q = choose|q: int| #[trigger] (d * q) == r[k];
                assert((d * g) * q == c[k]) by (nonlinear_arith)
                    requires c[k] == g * r[k], d * q == r[k];
            }
            lemma_seq_gcd_greatest(c, d * g);
            let q = choose|q: int| #[trigger] ((d * g) * q) == g;
            assert(false) by (nonlinear_arith)
                requires (d * g) * q == g, d > 1, g > 0;
        }
    }
}

/// `d` divides every entry of `s`.
pub open spec fn divides_all_ints(d: int, s: Seq<int>) -> bool {
    forall|k: int| 0 <= k < s.len() ==> divides(d, #[trigger] s[k])
}

/// The views of groups of entries.
pub open spec fn group_views(gs: Seq<(u32, Vec<u32>, Vec<i32>)>) -> Seq<(int, Seq<u32>, Seq<i32>)> {
    gs.map_values(|g: (u32, Vec<u32>, Vec<i32>)| (g.0 as int, g.1@, g.2@))
}

/// Split the entries into groups of consecutive entries, a new group starting
/// at an entry whose row exceeds the row of the current group (the first
/// group has row 1).
pub(crate) fn split_groups(m: &Vec<([u32; 2], i32)>) -> (gs: Vec<(u32, Vec<u32>, Vec<i32>)>)
    ensures
        group_views(gs@) == groups_from(m@, 0, 1, Seq::empty(), Seq::empty()),
{
    let mut gs: Vec<(u32, Vec<u32>, Vec<i32>)> = Vec::new();
    let mut ri: u32 = 1;
    let mut cols: Vec<u32> = Vec::new();
    let mut vals: Vec<i32> = Vec::new();
    let mut e: usize = 0;
    while e < m.len()
        invariant
            e <= m@.len(),
            group_views(gs@) + groups_from(m@, e as int, ri as int, cols@, vals@) == groups_from(m@, 0, 1, Seq::empty(), Seq::empty()),
        decreases m@.len() - e,
    {
        let (t, v) = m[e];
        let ghost g0 = group_views(gs@);
        let ghost c0 = cols@;
        let ghost v0 = vals@;
        if t[0] > ri {
            let done_cols = cols;
            let done_vals = vals;
            gs.push((ri, done_cols, done_vals));
            ri = t[0];
            cols = Vec::new();
            cols.push(t[1]);
            vals = Vec::new();
            vals.push(v);
            proof {
                assert(group_views(gs@) =~= g0 + seq![(gs@.last().0 as int, c0, v0)]);
                assert(cols@ =~= seq![m@[e as int].0[1]]);
                assert(vals@ =~= seq![m@[e as int].1]);
            }
        } else {
            cols.push(t[1]);
            vals.push(v);
        }
        e = e + 1;
    }
    let ghost g0 = group_views(gs@);
    gs.push((ri, cols, vals));
    proof {
        assert(group_views(gs@) =~= g0 + seq![(ri as int, gs@.last().1@, gs@.last().2@)]);
    }
    gs
}


/// The folded divisor divides every entry, and is 0 only where every entry
/// is 0.
proof fn lemma_seq_gcd(v: Seq<int>)
    ensures
        forall|k: int| 0 <= k < v.len() ==> divides(seq_gcd(v) as int, #[trigger] v[k]),
        seq_gcd(v) == 0 ==> forall|k: int| 0 <= k < v.len() ==> #[trigger] v[k] == 0,
    decreases v.len(),
{
    if v.len() > 0 {
        let p = v.drop_last();
        lemma_seq_gcd(p);
        let a = seq_gcd(p);
        let x = abs(v.last());
        lemma_gcd_divides(a, x);
        let g = gcd_spec(a, x) as int;
        assert forall|k: int| 0 <= k < v.len() implies divides(g, #[trigger] v[k]) by {
            if k < v.len() - 1 {
                assert(v[k] == p[k]);
                lemma_divides_trans(g, a as int, v[k]);
            } else {
                lemma_divides_abs(g, v[k]);
            }
        }
        if g == 0 {
            let q = choose|q: int| #[trigger] (g * q) == x as int;
            let r = choose|r: int| #[trigger] (g * r) == a as int;
            assert(x == 0);
            assert(a == 0);
            assert forall|k: int| 0 <= k < v.len() implies #[trigger] v[k] == 0 by {
                if k < v.len() - 1 {
                    assert(v[k] == p[k]);
                }
            }
        }
    }
}

/// The quotient of an exact division by a positive divisor.
pub(crate) fn exact_div(v: i32, d: i32) -> (q: i32)
    requires
        d > 0,
        divides(d as int, v as int),
        v != i32::MIN,
    ensures
        q == (v as int) / (d as int),
        q * d == v,
        v != 0 ==> q != 0,
        q != i32::MIN,
        abs(q as int) <= abs(v as int),
{
    let ghost k = choose|k: int| #[trigger] ((d as int) * k) == v as int;
    proof {
        assert((d as int) * (-k) == -(v as int)) by (nonlinear_arith)
            requires (d as int) * k == v as int;
        lemma_exact_division_neg(v as int, d as int, k);
        lemma_exact_division_neg(-(v as int), d as int, -k);
        assert(k * d == v) by (nonlinear_arith)
            requires (d as int) * k == v as int;
        if v != 0 {
            assert(k != 0);
        }
        assert(abs(k) <= abs(v as int)) by (nonlinear_arith)
            requires (d as int) * k == v as int, d > 0;
    }
    if v < 0 {
        let w = (-v) / d;
        -w
    } else {
        v / d
    }
}

/// The Euclidean quotient of a negative exact multiple.
proof fn lemma_exact_division_neg(v: int, d: int, k: int)
    requires
        d > 0,
        d * k == v,
    ensures
        v / d == k,
{
    vstd::arithmetic::div_mod::lemma_div_multiples_vanish(k, d);
}


/// The folded divisor of the values, by `gcd` from 0.
fn fold_gcd(vals: &Vec<i32>) -> (g: i32)
    requires
        forall|k: int| 0 <= k < vals@.len() ==> #[trigger] vals@[k] != i32::MIN,
    ensures
        g as int == seq_gcd(ints(vals@)),
        g >= 0,
{
    let mut g: i32 = 0;
    let mut k: usize = 0;
    while k < vals.len()
        invariant
            k <= vals@.len(),
            forall|x: int| 0 <= x < vals@.len() ==> #[trigger] vals@[x] != i32::MIN,
            g as int == seq_gcd(ints(vals@.take(k as int))),
            g >= 0,
        decreases vals@.len() - k,
    {
        let v = vals[k];
        g = gcd(g, v);
        proof {
            assert(ints(vals@.take(k + 1)).drop_last() =~= ints(vals@.take(k as int)));
            assert(ints(vals@.take(k + 1)).last() == v as int);
        }
        k = k + 1;
    }
    proof {
        assert(vals@.take(k as int) =~= vals@);
    }
    g
}

/// A row divided by the greatest common divisor of its entries, negated where
/// its first entry is negative.
fn normalize(vals: &Vec<i32>) -> (r: Vec<i32>)
    requires
        vals@.len() > 0,
        forall|k: int| 0 <= k < vals@.len() ==> #[trigger] vals@[k] != 0 && vals@[k] != i32::MIN,
    ensures
        r@ == normalized_row(vals@),
        r@.len() == vals@.len(),
        forall|k: int| 0 <= k < r@.len() ==> #[trigger] r@[k] != 0 && r@[k] != i32::MIN,
{
    let g = fold_gcd(vals);
    proof {
        lemma_seq_gcd(ints(vals@));
        if g == 0 {
            assert(ints(vals@)[0] == 0);
        }
    }
    let neg = vals[0] < 0;
    let mut r: Vec<i32> = Vec::new();
    let mut k: usize = 0;
    while k < vals.len()
        invariant
            g > 0,
            g as int == seq_gcd(ints(vals@)),
            neg == (vals@[0] < 0),
            vals@.len() > 0,
            forall|x: int| 0 <= x < vals@.len() ==> #[trigger] vals@[x] != 0 && vals@[x] != i32::MIN,
            forall|x: int| 0 <= x < vals@.len() ==> divides(g as int, #[trigger] ints(vals@)[x]),
            k <= vals@.len(),
            r@.len() == k,
            forall|x: int| 0 <= x < k ==> #[trigger] r@[x] == normalized_row(vals@)[x],
            forall|x: int| 0 <= x < k ==> #[trigger] r@[x] != 0 && r@[x] != i32::MIN,
        decreases vals@.len() - k,
    {
        let v = vals[k];
        proof {
            assert(ints(vals@)[k as int] == v as int);
        }
        let q = exact_div(v, g);
        let w = if neg { -q } else if g != 1 { q } else { v };
        proof {
            if !neg && g == 1 {
                assert(q == v) by (nonlinear_arith)
                    requires q * g == v, g == 1;
            }
        }
        r.push(w);
        k = k + 1;
    }
    proof {
        assert(r@ =~= normalized_row(vals@));
    }
    r
}


/// Position `p` of stored row `c`: the flat index and back.
proof fn lemma_flat_index(c: int, p: int, len: int)
    requires
        len > 0,
        0 <= p < len,
        0 <= c,
    ensures
        (c * len + p) / len == c,
        (c * len + p) % len == p,
{
    vstd::arithmetic::div_mod::lemma_fundamental_div_mod_converse_div(c * len + p, len, c, p);
    vstd::arithmetic::div_mod::lemma_fundamental_div_mod_converse_mod(c * len + p, len, c, p);
}

/// The number of whole stored rows times their length lies within the
/// stored values.
proof fn lemma_rows_within(n: int, len: int)
    requires
        len > 0,
        n >= 0,
    ensures
        (n / len) * len <= n,
        n / len >= 0,
{
    vstd::arithmetic::div_mod::lemma_fundamental_div_mod(n, len);
    assert(n % len >= 0);
    assert(len * (n / len) == (n / len) * len) by (nonlinear_arith);
    vstd::arithmetic::div_mod::lemma_div_pos_is_pos(n, len);
}

/// Whether some stored row equals the row.
fn find_stored(stored: &Vec<i32>, v: &Vec<i32>) -> (r: bool)
    requires
        v@.len() > 0,
    ensures
        r == is_stored(stored@, v@),
{
    let len = v.len();
    let total = stored.len();
    let n = total / len;
    proof {
        lemma_rows_within(stored@.len() as int, len as int);
    }
    let mut c: usize = 0;
    while c < n
        invariant
            len == v@.len(),
            len > 0,
            n as int == (stored@.len() as int) / (len as int),
            total == stored@.len(),
            n * len <= stored@.len(),
            c <= n,
            forall|x: int| 0 <= x < c ==> #[trigger] chunk(stored@, x, len as int) != v@,
        decreases n - c,
    {
        proof {
            assert((c + 1) * len <= n * len) by (nonlinear_arith)
                requires c + 1 <= n, len > 0;
            assert(c * len + len == (c + 1) * len) by (nonlinear_arith);
            assert(c * len + len <= total);
        }
        let base = c * len;
        let mut k: usize = 0;
        let mut same = true;
        while k < len && same
            invariant
                base == c * len,
                base + len <= stored@.len(),
                total == stored@.len(),
                len == v@.len(),
                k <= len,
                same ==> forall|x: int| 0 <= x < k ==> stored@[base + x] == v@[x],
                !same ==> exists|x: int| 0 <= x < len && stored@[base + x] != v@[x],
            decreases len - k,
        {
            assert(base + k < total);
            if stored[base + k] != v[k] {
                same = false;
            }
            k = k + 1;
        }
        if same {
            proof {
                assert(chunk(stored@, c as int, len as int) =~= v@);
            }
            return true;
        }
        proof {
            let x = choose|x: int| 0 <= x < len && stored@[base + x] != v@[x];
            assert(chunk(stored@, c as int, len as int)[x] != v@[x]);
        }
        c = c + 1;
    }
    proof {
        assert forall|x: int| 0 <= x < stored@.len() / v@.len() implies #[trigger] chunk(stored@, x, v@.len() as int) != v@ by {
        }
    }
    false
}


/// The number of positions where `a * v + b * w` is 0, `w` the stored row
/// from `base`.
fn count_zeros(v: &Vec<i32>, stored: &Vec<i32>, base: usize, a: i32, b: i32) -> (z: usize)
    requires
        base + v@.len() <= stored@.len(),
        a != i32::MIN,
        b != i32::MIN,
        forall|k: int| 0 <= k < v@.len() ==> #[trigger] v@[k] != i32::MIN,
        forall|k: int| 0 <= k < stored@.len() ==> #[trigger] stored@[k] != i32::MIN,
    ensures
        z == zeros(v@, stored@.subrange(base as int, base + v@.len()), a as int, b as int, v@.len() as int),
{
    let ghost w = stored@.subrange(base as int, base + v@.len());
    let total = stored.len();
    let mut z: usize = 0;
    let mut k: usize = 0;
    while k < v.len()
        invariant
            base + v@.len() <= stored@.len(),
            total == stored@.len(),
            a != i32::MIN,
            b != i32::MIN,
            forall|k: int| 0 <= k < v@.len() ==> #[trigger] v@[k] != i32::MIN,
            forall|k: int| 0 <= k < stored@.len() ==> #[trigger] stored@[k] != i32::MIN,
            w == stored@.subrange(base as int, base + v@.len()),
            k <= v@.len(),
            z == zeros(v@, w, a as int, b as int, k as int),
            z <= k,
        decreases v@.len() - k,
    {
        assert(base + k < total);
        let x = v[k] as i64;
        let y = stored[base + k] as i64;
        proof {
            assert(w[k as int] == stored@[base + k]);
            lemma_product_bound(a as int, x as int);
            lemma_product_bound(b as int, y as int);
        }
        if (a as i64) * x + (b as i64) * y == 0 {
            z = z + 1;
        }
        k = k + 1;
    }
    z
}

/// The coefficients that cancel `x` against `y`.
fn cancel_pair(x: i32, y: i32) -> (r: (i32, i32))
    requires
        x != 0,
        x != i32::MIN,
        y != i32::MIN,
    ensures
        (r.0 as int, r.1 as int) == cancel(x as int, y as int),
        r.0 != i32::MIN,
        r.1 != i32::MIN,
{
    let g = gcd(x, y);
    proof {
        lemma_gcd_divides(abs(x as int), abs(y as int));
        lemma_divides_abs(g as int, x as int);
        lemma_divides_abs(g as int, y as int);
        if g == 0 {
            let q = choose|q: int| #[trigger] ((g as int) * q) == abs(x as int) as int;
        }
    }
    let a = exact_div(y, g);
    let b = exact_div(x, g);
    proof {
        assert((-(x as int)) / (g as int) == -((x as int) / (g as int))) by {
            let k = choose|k: int| #[trigger] ((g as int) * k) == x as int;
            assert((g as int) * (-k) == -(x as int)) by (nonlinear_arith)
                requires (g as int) * k == x as int;
            lemma_exact_division_neg(-(x as int), g as int, -k);
            lemma_exact_division_neg(x as int, g as int, k);
        }
    }
    (a, -b)
}

/// The best cancellation of the row against the stored rows.
fn best_cancel(stored: &Vec<i32>, v: &Vec<i32>) -> (r: (usize, i32, i32, usize))
    requires
        v@.len() > 0,
        forall|k: int| 0 <= k < v@.len() ==> #[trigger] v@[k] != 0 && v@[k] != i32::MIN,
        forall|k: int| 0 <= k < stored@.len() ==> #[trigger] stored@[k] != i32::MIN,
    ensures
        ({
            let b = best_upto(stored@, v@, (stored@.len() as int / v@.len() as int) * v@.len());
            &&& r.0 as int == b.0
            &&& r.1 as int == b.1
            &&& r.2 as int == b.2
            &&& r.3 as int == b.3
        }),
        r.1 != i32::MIN,
        r.2 != i32::MIN,
{
    let len = v.len();
    let total = stored.len();
    let n = total / len;
    proof {
        lemma_rows_within(stored@.len() as int, len as int);
    }
    let mut best: (usize, i32, i32, usize) = (0, 0, 0, 0);
    let mut c: usize = 0;
    while c < n
        invariant
            len == v@.len(),
            len > 0,
            total == stored@.len(),
            n as int == (stored@.len() as int) / (len as int),
            n * len <= total,
            c <= n,
            forall|k: int| 0 <= k < v@.len() ==> #[trigger] v@[k] != 0 && v@[k] != i32::MIN,
            forall|k: int| 0 <= k < stored@.len() ==> #[trigger] stored@[k] != i32::MIN,
            ({
                let bb = best_upto(stored@, v@, c * len);
                &&& best.0 as int == bb.0
                &&& best.1 as int == bb.1
                &&& best.2 as int == bb.2
                &&& best.3 as int == bb.3
            }),
            best.0 <= len,
            best.1 != i32::MIN,
            best.2 != i32::MIN,
        decreases n - c,
    {
        proof {
            assert((c + 1) * len <= n * len) by (nonlinear_arith)
                requires c + 1 <= n, len > 0;
            assert(c * len + len == (c + 1) * len) by (nonlinear_arith);
            assert(c * len + len <= total);
        }
        let base = c * len;
        let mut p: usize = 0;
        while p < len
            invariant
                len == v@.len(),
                len > 0,
                base == c * len,
                base + len <= total,
                total == stored@.len(),
                p <= len,
                forall|k: int| 0 <= k < v@.len() ==> #[trigger] v@[k] != 0 && v@[k] != i32::MIN,
                forall|k: int| 0 <= k < stored@.len() ==> #[trigger] stored@[k] != i32::MIN,
                ({
                    let bb = best_upto(stored@, v@, c * len + p);
                    &&& best.0 as int == bb.0
                    &&& best.1 as int == bb.1
                    &&& best.2 as int == bb.2
                    &&& best.3 as int == bb.3
                }),
                best.0 <= len,
                best.1 != i32::MIN,
                best.2 != i32::MIN,
            decreases len - p,
        {
            let x = v[p];
            let y = stored[base + p];
            let (a, b) = cancel_pair(x, y);
            let z = count_zeros(v, stored, base, a, b);
            proof {
                lemma_flat_index(c as int, p as int, len as int);
                assert(c * len + p + 1 - 1 == c * len + p);
                assert(chunk(stored@, c as int, len as int) == stored@.subrange(base as int, base + v@.len()));
                assert(chunk(stored@, c as int, len as int)[p as int] == y);
                lemma_zeros_bound(v@, stored@.subrange(base as int, base + v@.len()), a as int, b as int, len as int);
            }
            if z > best.0 {
                best = (z, a, b, c);
            }
            p = p + 1;
        }
        c = c + 1;
    }
    best
}

/// A product of two values of `i32` other than its least value lies within
/// `± (2^31 - 1)^2`.
proof fn lemma_product_bound(a: int, x: int)
    requires
        -0x7fff_ffff <= a <= 0x7fff_ffff,
        -0x7fff_ffff <= x <= 0x7fff_ffff,
    ensures
        -0x3fff_ffff_0000_0001 <= a * x <= 0x3fff_ffff_0000_0001,
{
    assert(-0x3fff_ffff_0000_0001 <= a * x <= 0x3fff_ffff_0000_0001) by (nonlinear_arith)
        requires
            -0x7fff_ffff <= a <= 0x7fff_ffff,
            -0x7fff_ffff <= x <= 0x7fff_ffff,
    ;
}

/// The number of zeros among `k` positions is at most `k`.
proof fn lemma_zeros_bound(v: Seq<i32>, w: Seq<i32>, a: int, b: int, k: int)
    requires
        0 <= k,
    ensures
        zeros(v, w, a, b, k) <= k,
    decreases k,
{
    if k > 0 {
        lemma_zeros_bound(v, w, a, b, k - 1);
    }
}

/// The combination `a * v + b * w` of the row with the stored row from
/// `base`, where every entry fits in an `i32` other than its least value.
fn combine(v: &Vec<i32>, stored: &Vec<i32>, base: usize, a: i32, b: i32) -> (r: Option<Vec<i32>>)
    requires
        base + v@.len() <= stored@.len(),
        a != i32::MIN,
        b != i32::MIN,
        forall|k: int| 0 <= k < v@.len() ==> #[trigger] v@[k] != i32::MIN,
        forall|k: int| 0 <= k < stored@.len() ==> #[trigger] stored@[k] != i32::MIN,
    ensures
        r is Some <==> fits_i32(combination(v@, stored@.subrange(base as int, base + v@.len()), a as int, b as int)),
        r matches Some(c) ==> ints(c@) == combination(v@, stored@.subrange(base as int, base + v@.len()), a as int, b as int),
        r matches Some(c) ==> c@.len() == v@.len(),
{
    let ghost w = stored@.subrange(base as int, base + v@.len());
    let ghost comb = combination(v@, w, a as int, b as int);
    let total = stored.len();
    let mut c: Vec<i32> = Vec::new();
    let mut k: usize = 0;
    while k < v.len()
        invariant
            base + v@.len() <= stored@.len(),
            total == stored@.len(),
            w == stored@.subrange(base as int, base + v@.len()),
            comb == combination(v@, w, a as int, b as int),
            a != i32::MIN,
            b != i32::MIN,
            forall|i: int| 0 <= i < v@.len() ==> #[trigger] v@[i] != i32::MIN,
            forall|i: int| 0 <= i < stored@.len() ==> #[trigger] stored@[i] != i32::MIN,
            k <= v@.len(),
            c@.len() == k,
            forall|i: int| 0 <= i < k ==> #[trigger] c@[i] == comb[i],
            forall|i: int| 0 <= i < k ==> i32::MIN < #[trigger] comb[i] <= i32::MAX,
        decreases v@.len() - k,
    {
        assert(base + k < total);
        let x = v[k] as i64;
        let y = stored[base + k] as i64;
        proof {
            assert(w[k as int] == stored@[base + k]);
            lemma_product_bound(a as int, x as int);
            lemma_product_bound(b as int, y as int);
        }
        let e = (a as i64) * x + (b as i64) * y;
        if e <= i32::MIN as i64 || e > i32::MAX as i64 {
            proof {
                assert(comb[k as int] == e);
            }
            return None;
        }
        c.push(e as i32);
        k = k + 1;
    }
    proof {
        assert(ints(c@) =~= comb);
    }
    Some(c)
}

/// The combination divided by the greatest common divisor of its entries
/// where that is not 1; `None` where that divisor is 0.
fn reduce(c: Vec<i32>) -> (r: Option<Vec<i32>>)
    requires
        forall|k: int| 0 <= k < c@.len() ==> #[trigger] c@[k] != i32::MIN,
    ensures
        r is Some <==> seq_gcd(ints(c@)) != 0,
        r matches Some(f) ==> ints(f@) == reduced(ints(c@)),
        r matches Some(f) ==> f@.len() == c@.len(),
{
    let g = fold_gcd(&c);
    if g == 0 {
        return None;
    }
    if g == 1 {
        return Some(c);
    }
    proof {
        lemma_seq_gcd(ints(c@));
    }
    let mut f: Vec<i32> = Vec::new();
    let mut k: usize = 0;
    while k < c.len()
        invariant
            g > 1,
            g as int == seq_gcd(ints(c@)),
            forall|x: int| 0 <= x < c@.len() ==> #[trigger] c@[x] != i32::MIN,
            forall|x: int| 0 <= x < c@.len() ==> divides(g as int, #[trigger] ints(c@)[x]),
            k <= c@.len(),
            f@.len() == k,
            forall|x: int| 0 <= x < k ==> #[trigger] f@[x] == reduced(ints(c@))[x],
        decreases c@.len() - k,
    {
        let v = c[k];
        proof {
            assert(ints(c@)[k as int] == v as int);
        }
        let q = exact_div(v, g);
        f.push(q);
        k = k + 1;
    }
    proof {
        assert(ints(f@) =~= reduced(ints(c@)));
    }
    Some(f)
}

/// Append the entries of a row: its nonzero values, in its columns.
fn push_written(out: &mut Vec<([u32; 2], i32)>, row: u32, cols: &Vec<u32>, vals: &Vec<i32>)
    requires
        cols@.len() == vals@.len(),
    ensures
        final(out)@ == old(out)@ + written(row as int, cols@, ints(vals@)),
{
    let ghost start = out@;
    let mut k: usize = 0;
    while k < vals.len()
        invariant
            cols@.len() == vals@.len(),
            k <= vals@.len(),
            out@ == start + written(row as int, cols@, ints(vals@.take(k as int))),
        decreases vals@.len() - k,
    {
        let v = vals[k];
        proof {
            assert(ints(vals@.take(k + 1)).drop_last() =~= ints(vals@.take(k as int)));
            assert(ints(vals@.take(k + 1)).last() == v as int);
        }
        if v != 0 {
            out.push(([row, cols[k]], v));
        }
        k = k + 1;
    }
    proof {
        assert(vals@.take(k as int) =~= vals@);
    }
}

/// The rows of the groups from position `e` on grow with each group, the
/// groups after the first take their rows from entries, and the columns
/// and values of each group come in equal number.
pub(crate) proof fn lemma_groups(m: Seq<([u32; 2], i32)>, e: int, ri: int, cols: Seq<u32>, vals: Seq<i32>, x: int)
    requires
        0 <= e <= m.len(),
        cols.len() == vals.len(),
        forall|t: int| e <= t < m.len() ==> #[trigger] m[t].0[0] <= x,
        forall|t: int| e <= t < m.len() ==> #[trigger] m[t].1 != 0 && m[t].1 != i32::MIN,
        forall|i: int| 0 <= i < vals.len() ==> #[trigger] vals[i] != 0 && vals[i] != i32::MIN,
    ensures
        ({
            let gs = groups_from(m, e, ri, cols, vals);
            &&& gs.len() >= 1
            &&& gs[0].0 == ri
            &&& forall|k: int| 0 <= k < gs.len() ==> #[trigger] gs[k].0 >= ri + k
            &&& forall|k: int| 0 < k < gs.len() ==> #[trigger] gs[k].0 <= x
            &&& forall|k: int| 0 <= k < gs.len() ==> #[trigger] gs[k].1.len() == gs[k].2.len()
            &&& forall|k: int, i: int| 0 <= k < gs.len() && 0 <= i < gs[k].2.len() ==> #[trigger] gs[k].2[i] != 0 && gs[k].2[i] != i32::MIN
        }),
    decreases m.len() - e,
{
    let gs = groups_from(m, e, ri, cols, vals);
    if e < m.len() {
        if m[e].0[0] > ri {
            let r2 = m[e].0[0] as int;
            lemma_groups(m, e + 1, r2, seq![m[e].0[1]], seq![m[e].1], x);
            let rest = groups_from(m, e + 1, r2, seq![m[e].0[1]], seq![m[e].1]);
            assert(gs == seq![(ri, cols, vals)] + rest);
            assert forall|k: int| 0 < k < gs.len() implies #[trigger] gs[k].0 >= ri + k && gs[k].0 <= x by {
                assert(gs[k] == rest[k - 1]);
            }
            assert forall|k: int| 0 <= k < gs.len() implies #[trigger] gs[k].1.len() == gs[k].2.len() by {
                if k > 0 {
                    assert(gs[k] == rest[k - 1]);
                    assert(rest[k - 1].1.len() == rest[k - 1].2.len());
                } else {
                    assert(gs[0] == (ri, cols, vals));
                }
            }
            assert forall|k: int, i: int| 0 <= k < gs.len() && 0 <= i < gs[k].2.len() implies #[trigger] gs[k].2[i] != 0 && gs[k].2[i] != i32::MIN by {
                if k > 0 {
                    assert(gs[k] == rest[k - 1]);
                }
            }
        } else {
            let v2 = vals.push(m[e].1);
            assert forall|i: int| 0 <= i < v2.len() implies #[trigger] v2[i] != 0 && v2[i] != i32::MIN by {
                if i < vals.len() {
                    assert(v2[i] == vals[i]);
                }
            }
            lemma_groups(m, e + 1, ri, cols.push(m[e].0[1]), v2, x);
        }
    }
}

/// The groups that are processed have rows from 1 to at most `x`, growing
/// with each group, and as many columns as values.
proof fn lemma_row_groups(m: Seq<([u32; 2], i32)>, x: int)
    requires
        forall|t: int| 0 <= t < m.len() ==> #[trigger] m[t].0[0] <= x,
        forall|t: int| 0 <= t < m.len() ==> #[trigger] m[t].1 != 0 && m[t].1 != i32::MIN,
    ensures
        ({
            let rg = row_groups(m, x);
            &&& forall|k: int| 0 <= k < rg.len() ==> #[trigger] rg[k].0 >= 1 + k
            &&& forall|k: int| 0 <= k < rg.len() ==> #[trigger] rg[k].0 <= x
            &&& forall|k: int| 0 <= k < rg.len() ==> #[trigger] rg[k].1.len() == rg[k].2.len()
            &&& forall|k: int, i: int| 0 <= k < rg.len() && 0 <= i < rg[k].2.len() ==> #[trigger] rg[k].2[i] != 0 && rg[k].2[i] != i32::MIN
            &&& rg.len() <= x || rg.len() == 0
        }),
{
    let gs = groups_from(m, 0, 1, Seq::empty(), Seq::empty());
    lemma_groups(m, 0, 1, Seq::empty(), Seq::empty(), x);
    let rg = row_groups(m, x);
    if gs.len() >= 2 {
        assert(gs.last().0 <= x);
        assert(rg == gs);
        assert(gs[0].0 <= gs[1].0);
        assert(rg[rg.len() - 1].0 >= rg.len());
    } else if x + 1 > gs.last().0 {
        assert(rg == gs);
    } else {
        assert(rg.len() == 0);
    }
}

/// Once a combination has failed, the state records the failure for good.
proof fn lemma_failure_stays(gs: Seq<(int, Seq<u32>, Seq<i32>)>, k: int, n: int)
    requires
        0 <= k <= n,
        !dedup_upto(gs, k).4,
    ensures
        !dedup_upto(gs, n).4,
    decreases n - k,
{
    if k < n {
        lemma_failure_stays(gs, k + 1, n);
    }
}

/// The best stored row lies among the whole stored rows.
proof fn lemma_best_within(stored: Seq<i32>, v: Seq<i32>, t: int)
    requires
        v.len() > 0,
        0 <= t,
    ensures
        best_upto(stored, v, t).0 > 0 ==> 0 <= best_upto(stored, v, t).3 && best_upto(stored, v, t).3 * v.len() < t,
    decreases t,
{
    if t > 0 {
        lemma_best_within(stored, v, t - 1);
        let len = v.len() as int;
        let c = (t - 1) / len;
        vstd::arithmetic::div_mod::lemma_fundamental_div_mod(t - 1, len);
        assert(c * len <= t - 1) by (nonlinear_arith)
            requires len * c + (t - 1) % len == t - 1, (t - 1) % len >= 0, len * c == c * len;
        vstd::arithmetic::div_mod::lemma_div_pos_is_pos(t - 1, len);
    }
}

/// Delete the rows that repeat an earlier row after normalization (division
/// by the greatest common divisor of its entries, negation where its first
/// entry is negative), and combine every other row with an earlier row of
/// the same nonzero columns where that gains zeros, keeping the combination
/// that gains the most.
///
/// The entries come sorted by rows, numbered from 1 to `dims[0]`; the rows
/// after a deleted one move up. Returns the number of rows left and whether
/// some row was combined; `None`, with the matrix untouched, where a
/// combination leaves the range of `i32` or vanishes.
pub fn delete_duplicate_rows(m: &mut Vec<([u32; 2], i32)>, dims: [usize; 2]) -> (r: Option<(usize, bool)>)
    requires
        dims[0] < u32::MAX,
        forall|e: int| 0 <= e < old(m)@.len() ==> #[trigger] old(m)@[e].1 != 0 && old(m)@[e].1 != i32::MIN,
        forall|e: int| 0 <= e < old(m)@.len() ==> #[trigger] old(m)@[e].0[0] <= dims[0],
        forall|k: int| 0 <= k < row_groups(old(m)@, dims[0] as int).len() ==> #[trigger] row_groups(old(m)@, dims[0] as int)[k].1.len() > 0,
    ensures
        ({
            let gs = row_groups(old(m)@, dims[0] as int);
            let st = dedup_upto(gs, gs.len() as int);
            &&& r is Some <==> st.4
            &&& r matches Some(res) ==> final(m)@ == st.3 && res.0 == dims[0] - st.1 && res.1 == st.2
            &&& r is None ==> final(m)@ == old(m)@
        }),
{
    let x = dims[0];
    let ghost gs_spec = row_groups(m@, x as int);
    let gs = split_groups(m);
    proof {
        lemma_row_groups(m@, x as int);
        lemma_groups(m@, 0, 1, Seq::empty(), Seq::empty(), x as int);
    }
    let last_row = gs[gs.len() - 1].0;
    let n = if (last_row as usize) < x + 1 { gs.len() } else { gs.len() - 1 };
    proof {
        assert(gs_spec.len() == n);
        assert forall|k: int| 0 <= k < n implies #[trigger] group_views(gs@)[k] == gs_spec[k] by {}
    }
    let mut rows = new_pattern_map();
    let mut shift: usize = 0;
    let mut elim = false;
    let mut out: Vec<([u32; 2], i32)> = Vec::new();
    let mut k: usize = 0;
    while k < n
        invariant
            n <= gs@.len(),
            m@ == old(m)@,
            x == dims[0],
            gs_spec == row_groups(m@, x as int),
            gs_spec.len() == n,
            forall|i: int| 0 <= i < n ==> #[trigger] group_views(gs@)[i] == gs_spec[i],
            forall|i: int| 0 <= i < gs_spec.len() ==> #[trigger] gs_spec[i].0 >= 1 + i,
            forall|i: int| 0 <= i < gs_spec.len() ==> #[trigger] gs_spec[i].0 <= x,
            forall|i: int| 0 <= i < gs_spec.len() ==> #[trigger] gs_spec[i].1.len() == gs_spec[i].2.len(),
            forall|i: int| 0 <= i < gs_spec.len() ==> #[trigger] gs_spec[i].1.len() > 0,
            forall|i: int, j: int| 0 <= i < gs_spec.len() && 0 <= j < gs_spec[i].2.len() ==> #[trigger] gs_spec[i].2[j] != 0 && gs_spec[i].2[j] != i32::MIN,
            x < u32::MAX,
            k <= n,
            shift <= k,
            ({
                let st = dedup_upto(gs_spec, k as int);
                &&& pattern_rows(rows) == st.0
                &&& shift == st.1
                &&& elim == st.2
                &&& out@ == st.3
                &&& st.4
            }),
            forall|key: Seq<u32>| #[trigger] pattern_rows(rows).contains_key(key) ==> forall|i: int| 0 <= i < pattern_rows(rows)[key].len() ==> #[trigger] pattern_rows(rows)[key][i] != i32::MIN,
        decreases n - k,
    {
        let ghost st0 = dedup_upto(gs_spec, k as int);
        let ghost g = gs_spec[k as int];
        proof {
            assert(group_views(gs@)[k as int] == g);
        }
        let ri = gs[k].0;
        let cols = &gs[k].1;
        let vals = &gs[k].2;
        proof {
            assert(vals@ == g.2);
            assert(cols@ == g.1);
            assert(ri as int == g.0);
            assert forall|j: int| 0 <= j < vals@.len() implies #[trigger] vals@[j] != 0 && vals@[j] != i32::MIN by {
                assert(vals@[j] == g.2[j]);
            }
        }
        let nv = normalize(vals);
        let stored = match pattern_get(&rows, cols) {
            Some(s) => s,
            None => Vec::new(),
        };
        proof {
            assert(stored@ == (if st0.0.contains_key(cols@) { st0.0[cols@] } else { Seq::<i32>::empty() }));
        }
        if find_stored(&stored, &nv) {
            shift = shift + 1;
        } else {
            let (mx, a, b, c) = best_cancel(&stored, &nv);
            let mut grown = stored.clone();
            proof {
                assert(grown@ =~= stored@);
            }
            let mut more = nv.clone();
            proof {
                assert(more@ =~= nv@);
            }
            grown.append(&mut more);
            let ghost old_rows = pattern_rows(rows);
            pattern_insert(&mut rows, cols.clone(), grown);
            proof {
                assert forall|key: Seq<u32>| #[trigger] pattern_rows(rows).contains_key(key) implies forall|i: int| 0 <= i < pattern_rows(rows)[key].len() ==> #[trigger] pattern_rows(rows)[key][i] != i32::MIN by {
                    if key != cols@ {
                        assert(old_rows.contains_key(key));
                    }
                }
            }
            assert(shift < ri);
            let row = ri - (shift as u32);
            if mx > 0 {
                elim = true;
                let len = nv.len();
                proof {
                    lemma_rows_within(stored@.len() as int, len as int);
                    let q = stored@.len() as int / len as int;
                    lemma_best_within(stored@, nv@, q * len);
                    assert(c < q) by (nonlinear_arith)
                        requires c * len < q * len, len > 0;
                    assert((c + 1) * len <= q * len) by (nonlinear_arith)
                        requires c < q, len > 0;
                    assert(c * len + len == (c + 1) * len) by (nonlinear_arith);
                }
                let base = c * len;
                proof {
                    assert(chunk(stored@, c as int, len as int) == stored@.subrange(base as int, base + nv@.len()));
                }
                let comb = match combine(&nv, &stored, base, a, b) {
                    Some(cv) => cv,
                    None => {
                        proof {
                            assert(!dedup_upto(gs_spec, k + 1).4);
                            lemma_failure_stays(gs_spec, k + 1, n as int);
                        }
                        return None;
                    },
                };
                proof {
                    assert forall|i: int| 0 <= i < comb@.len() implies #[trigger] comb@[i] != i32::MIN by {
                        assert(ints(comb@)[i] == comb@[i]);
                    }
                }
                let fin = match reduce(comb) {
                    Some(f) => f,
                    None => {
                        proof {
                            assert(!dedup_upto(gs_spec, k + 1).4);
                            lemma_failure_stays(gs_spec, k + 1, n as int);
                        }
                        return None;
                    },
                };
                push_written(&mut out, row, cols, &fin);
            } else {
                push_written(&mut out, row, cols, &nv);
            }
        }
        k = k + 1;
    }
    *m = out;
    Some((x - shift, elim))
}

} // verus!
