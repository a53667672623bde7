//! Merging the columns of rows with two nonzero entries: such a row says
//! that a multiple of one column is a multiple of the other, so the later
//! column can be expressed by the earlier one and dropped. For each later
//! column the row with the smallest coefficients is kept as an operation;
//! the operations are chained, and every row is rewritten by them.
use vstd::prelude::*;
use vstd::relations::{sorted_by, total_ordering};
use crate::dedup::{exact_div, groups_from, group_views, lemma_groups, split_groups};
use crate::sms::{abs, gcd, gcd_spec, lemma_gcd_divides};
use crate::sort::{sort_by_key, SortKey};
use crate::triplets::strictly_sorted;

verus! {

broadcast use vstd::seq_lib::group_to_multiset_ensures;

/// An operation: columns `j0 < j1` and coefficients `s0`, `s1` with
/// `s0 * col[j0] + s1 * col[j1]` vanishing on the row it came from.
pub type Op = (u32, u32, i32, i32);

/// The groups of entries of the rows: all rows from 1, each with its
/// columns and values.
pub open spec fn row_list(m: Seq<([u32; 2], i32)>) -> Seq<(int, Seq<u32>, Seq<i32>)> {
    groups_from(m, 0, 1, Seq::empty(), Seq::empty())
}

/// The operation of a row with two entries: its columns, and its values
/// divided by their greatest common divisor.
pub open spec fn candidate(g: (int, Seq<u32>, Seq<i32>)) -> Op {
    let d = gcd_spec(abs(g.2[0] as int), abs(g.2[1] as int)) as int;
    (g.1[0], g.1[1], ((g.2[0] as int) / d) as i32, ((g.2[1] as int) / d) as i32)
}

/// The operations of the rows with two entries among the first `n` rows.
pub open spec fn candidates(gs: Seq<(int, Seq<u32>, Seq<i32>)>, n: int) -> Seq<Op>
    decreases n,
{
    if n <= 0 {
        Seq::empty()
    } else if gs[n - 1].1.len() == 2 {
        candidates(gs, n - 1).push(candidate(gs[n - 1]))
    } else {
        candidates(gs, n - 1)
    }
}

/// The size of an operation's coefficients.
pub open spec fn weight(o: Op) -> int {
    (abs(o.2 as int) + abs(o.3 as int)) as int
}

/// Candidate `t` is kept: no candidate for the same later column has
/// smaller coefficients, and none before it has equal ones.
pub open spec fn is_best(cs: Seq<Op>, t: int) -> bool {
    forall|u: int|
        0 <= u < cs.len() && #[trigger] cs[u].1 == cs[t].1 ==> weight(cs[u]) > weight(cs[t]) || (weight(cs[u]) == weight(cs[t]) && u >= t)
}

/// The kept candidates among the first `n`, in order.
pub open spec fn chosen(cs: Seq<Op>, n: int) -> Seq<Op>
    decreases n,
{
    if n <= 0 {
        Seq::empty()
    } else if is_best(cs, n - 1) {
        chosen(cs, n - 1).push(cs[n - 1])
    } else {
        chosen(cs, n - 1)
    }
}

/// The lexicographic order of operations.
pub open spec fn op_leq() -> spec_fn(Op, Op) -> bool {
    |a: Op, b: Op|
        a.0 < b.0 || (a.0 == b.0 && (a.1 < b.1 || (a.1 == b.1 && (a.2 < b.2 || (a.2 == b.2 && a.3 <= b.3)))))
}

/// The kept operations of the matrix, sorted.
pub open spec fn sorted_ops(m: Seq<([u32; 2], i32)>) -> Seq<Op> {
    let gs = row_list(m);
    let cs = candidates(gs, gs.len() as int);
    chosen(cs, cs.len() as int).sort_by(op_leq())
}

/// The lexicographic order of operations is total.
pub proof fn lemma_op_leq_total()
    ensures
        total_ordering(op_leq()),
{
    let leq = op_leq();
    assert(vstd::relations::reflexive(leq));
    assert(vstd::relations::antisymmetric(leq));
    assert(vstd::relations::transitive(leq));
    assert(vstd::relations::strongly_connected(leq));
}

/// Sort operations lexicographically (`slice::sort_unstable`, by the
/// lexicographic order that std gives tuples of integers).
#[verifier::external_body]
fn sort_ops(v: &mut Vec<Op>)
    ensures
        sorted_by(final(v)@, op_leq()),
        final(v)@.to_multiset() == old(v)@.to_multiset(),
{
    v.sort_unstable();
}

/// The coefficients are nonzero and not the least `i32`.
pub open spec fn coeffs_ok(cs: Seq<Op>) -> bool {
    forall|t: int| 0 <= t < cs.len() ==> #[trigger] cs[t].2 != i32::MIN && cs[t].3 != i32::MIN && cs[t].2 != 0 && cs[t].3 != 0
}

/// The operations of the rows with two entries.
fn build_candidates(gs: &Vec<(u32, Vec<u32>, Vec<i32>)>) -> (cs: Vec<Op>)
    requires
        forall|k: int| 0 <= k < gs@.len() ==> #[trigger] gs@[k].1@.len() == gs@[k].2@.len(),
        forall|k: int, i: int| 0 <= k < gs@.len() && 0 <= i < gs@[k].2@.len() ==> #[trigger] gs@[k].2@[i] != 0 && gs@[k].2@[i] != i32::MIN,
    ensures
        cs@ == candidates(group_views(gs@), gs@.len() as int),
        coeffs_ok(cs@),
{
    let ghost gv = group_views(gs@);
    let mut cs: Vec<Op> = Vec::new();
    let mut k: usize = 0;
    while k < gs.len()
        invariant
            gv == group_views(gs@),
            k <= gs@.len(),
            forall|k: int| 0 <= k < gs@.len() ==> #[trigger] gs@[k].1@.len() == gs@[k].2@.len(),
            forall|k: int, i: int| 0 <= k < gs@.len() && 0 <= i < gs@[k].2@.len() ==> #[trigger] gs@[k].2@[i] != 0 && gs@[k].2@[i] != i32::MIN,
            cs@ == candidates(gv, k as int),
            coeffs_ok(cs@),
        decreases gs@.len() - k,
    {
        let cols = &gs[k].1;
        let vals = &gs[k].2;
        proof {
            assert(gv[k as int] == (gs@[k as int].0 as int, cols@, vals@));
        }
        if cols.len() == 2 {
            let s0 = vals[0];
            let s1 = vals[1];
            let d = gcd(s0, s1);
            proof {
                assert(gs@[k as int].2@[0] != 0 && gs@[k as int].2@[0] != i32::MIN);
                assert(gs@[k as int].2@[1] != 0 && gs@[k as int].2@[1] != i32::MIN);
                lemma_gcd_divides(abs(s0 as int), abs(s1 as int));
                crate::sms::lemma_divides_abs(d as int, s0 as int);
                crate::sms::lemma_divides_abs(d as int, s1 as int);
                if d == 0 {
                    let q = choose|q: int| #[trigger] ((d as int) * q) == abs(s0 as int) as int;
                }
            }
            let q0 = exact_div(s0, d);
            let q1 = exact_div(s1, d);
            let ghost before = cs@;
            assert(q0 != 0 && q0 != i32::MIN);
            assert(q1 != 0 && q1 != i32::MIN);
            let o: Op = (cols[0], cols[1], q0, q1);
            cs.push(o);
            proof {
                assert(cs@ == before.push(o));
                assert forall|t: int| 0 <= t < cs@.len() implies #[trigger] cs@[t].2 != i32::MIN && cs@[t].3 != i32::MIN && cs@[t].2 != 0 && cs@[t].3 != 0 by {
                    assert(coeffs_ok(before));
                    if t < before.len() {
                        assert(cs@[t] == before[t]);
                    } else {
                        assert(cs@[t] == o);
                        assert(q0 != 0 && q0 != i32::MIN);
                        assert(q1 != 0 && q1 != i32::MIN);
                    }
                }
            }
        }
        k = k + 1;
    }
    cs
}

/// The kept candidates: for each later column, the first of those with the
/// smallest coefficients.
fn select_best(cs: &Vec<Op>, y: usize) -> (ch: Vec<Op>)
    requires
        y < usize::MAX,
        forall|t: int| 0 <= t < cs@.len() ==> #[trigger] cs@[t].1 <= y,
    ensures
        ch@ == chosen(cs@, cs@.len() as int),
{
    let ghost s = cs@;
    let mut best: Vec<usize> = Vec::new();
    let mut j: usize = 0;
    while j <= y
        invariant
            y < usize::MAX,
            j <= y + 1,
            best@.len() == j,
            forall|i: int| 0 <= i < j ==> #[trigger] best@[i] == usize::MAX,
        decreases y + 1 - j,
    {
        best.push(usize::MAX);
        j = j + 1;
    }
    let n = cs.len();
    let mut t: usize = 0;
    while t < n
        invariant
            s == cs@,
            n == s.len(),
            forall|u: int| 0 <= u < s.len() ==> #[trigger] s[u].1 <= y,
            best@.len() == y + 1,
            t <= n,
            forall|jj: int| 0 <= jj <= y ==> (#[trigger] best@[jj] == usize::MAX) == (forall|u: int| 0 <= u < t ==> #[trigger] s[u].1 != jj),
            forall|jj: int| 0 <= jj <= y && #[trigger] best@[jj] != usize::MAX ==> best@[jj] < t && s[best@[jj] as int].1 == jj,
            forall|jj: int, u: int| 0 <= jj <= y && best@[jj] != usize::MAX && 0 <= u < t && #[trigger] s[u].1 == jj ==> weight(s[u]) > weight(s[#[trigger] best@[jj] as int]) || (weight(s[u]) == weight(s[best@[jj] as int]) && u >= best@[jj]),
        decreases n - t,
    {
        let o = cs[t];
        let jj = o.1 as usize;
        let b = best[jj];
        let w = (if o.2 < 0 { -(o.2 as i64) } else { o.2 as i64 }) + (if o.3 < 0 { -(o.3 as i64) } else { o.3 as i64 });
        let replace = if b == usize::MAX {
            true
        } else {
            let ob = cs[b];
            let wb = (if ob.2 < 0 { -(ob.2 as i64) } else { ob.2 as i64 }) + (if ob.3 < 0 { -(ob.3 as i64) } else { ob.3 as i64 });
            w < wb
        };
        let ghost before = best@;
        if replace {
            best.set(jj, t);
        }
        proof {
            assert forall|j2: int| 0 <= j2 <= y implies (#[trigger] best@[j2] == usize::MAX) == (forall|u: int| 0 <= u < t + 1 ==> #[trigger] s[u].1 != j2) by {
                if j2 != jj {
                    assert(best@[j2] == before[j2]);
                    if before[j2] == usize::MAX {
                        assert forall|u: int| 0 <= u < t + 1 implies #[trigger] s[u].1 != j2 by {
                            if u < t {
                            }
                        }
                    }
                } else {
                    assert(s[t as int].1 == j2);
                }
            }
            assert forall|j2: int, u: int| 0 <= j2 <= y && best@[j2] != usize::MAX && 0 <= u < t + 1 && #[trigger] s[u].1 == j2 implies weight(s[u]) > weight(s[#[trigger] best@[j2] as int]) || (weight(s[u]) == weight(s[best@[j2] as int]) && u >= best@[j2]) by {
                if j2 == jj {
                    if replace {
                        if b != usize::MAX && u < t {
                            assert(weight(s[u]) > weight(s[b as int]) || (weight(s[u]) == weight(s[b as int]) && u >= b));
                        }
                        if b == usize::MAX && u < t {
                            assert(before[j2] == usize::MAX);
                            assert(s[u].1 != j2);
                        }
                    } else {
                        assert(before[j2] == b);
                    }
                } else {
                    assert(best@[j2] == before[j2]);
                }
            }
        }
        t = t + 1;
    }
    let mut ch: Vec<Op> = Vec::new();
    let mut u: usize = 0;
    while u < n
        invariant
            s == cs@,
            n == s.len(),
            forall|v: int| 0 <= v < s.len() ==> #[trigger] s[v].1 <= y,
            best@.len() == y + 1,
            forall|jj: int| 0 <= jj <= y ==> (#[trigger] best@[jj] == usize::MAX) == (forall|u: int| 0 <= u < n ==> #[trigger] s[u].1 != jj),
            forall|jj: int| 0 <= jj <= y && #[trigger] best@[jj] != usize::MAX ==> best@[jj] < n && s[best@[jj] as int].1 == jj,
            forall|jj: int, v: int| 0 <= jj <= y && best@[jj] != usize::MAX && 0 <= v < n && #[trigger] s[v].1 == jj ==> weight(s[v]) > weight(s[#[trigger] best@[jj] as int]) || (weight(s[v]) == weight(s[best@[jj] as int]) && v >= best@[jj]),
            u <= n,
            ch@ == chosen(s, u as int),
        decreases n - u,
    {
        let jj = cs[u].1 as usize;
        proof {
            let b = best@[jj as int];
            assert(b != usize::MAX) by {
                assert(s[u as int].1 == jj);
            }
            if is_best(s, u as int) {
                assert(s[b as int].1 == s[u as int].1);
                assert(weight(s[u as int]) > weight(s[b as int]) || (weight(s[u as int]) == weight(s[b as int]) && u >= b));
            }
            if b == u {
                assert forall|v: int| 0 <= v < s.len() && #[trigger] s[v].1 == s[u as int].1 implies weight(s[v]) > weight(s[u as int]) || (weight(s[v]) == weight(s[u as int]) && v >= u) by {
                    assert(best@[jj as int] == u);
                }
            }
        }
        if best[jj] == u {
            ch.push(cs[u]);
        }
        u = u + 1;
    }
    ch
}

/// No two operations share their later column.
pub open spec fn distinct_later(s: Seq<Op>) -> bool {
    forall|p: int, q: int| 0 <= p < q < s.len() ==> #[trigger] s[p].1 != #[trigger] s[q].1
}

/// The operation is a kept candidate among the first `n`.
pub open spec fn best_member(cs: Seq<Op>, n: int, o: Op) -> bool {
    exists|t: int| 0 <= t < n && is_best(cs, t) && #[trigger] cs[t] == o
}

/// The kept candidates are candidates that are kept.
proof fn lemma_chosen_members(cs: Seq<Op>, n: int)
    requires
        0 <= n <= cs.len(),
    ensures
        forall|p: int| 0 <= p < chosen(cs, n).len() ==> #[trigger] best_member(cs, n, chosen(cs, n)[p]),
        distinct_later(chosen(cs, n)),
    decreases n,
{
    if n > 0 {
        lemma_chosen_members(cs, n - 1);
        let prev = chosen(cs, n - 1);
        if is_best(cs, n - 1) {
            let cur = chosen(cs, n);
            assert(cur == prev.push(cs[n - 1]));
            assert forall|p: int| 0 <= p < cur.len() implies #[trigger] best_member(cs, n, cur[p]) by {
                if p < prev.len() {
                    assert(cur[p] == prev[p]);
                    assert(best_member(cs, n - 1, prev[p]));
                    let t = choose|t: int| 0 <= t < n - 1 && is_best(cs, t) && #[trigger] cs[t] == prev[p];
                    assert(0 <= t < n && is_best(cs, t) && cs[t] == cur[p]);
                } else {
                    assert(cur[p] == cs[n - 1]);
                    assert(0 <= n - 1 < n && is_best(cs, n - 1) && cs[n - 1] == cur[p]);
                }
            }
            assert forall|p: int, q: int| 0 <= p < q < cur.len() implies #[trigger] cur[p].1 != #[trigger] cur[q].1 by {
                if q < prev.len() {
                    assert(cur[p] == prev[p] && cur[q] == prev[q]);
                } else {
                    assert(cur[p] == prev[p]);
                    assert(best_member(cs, n - 1, prev[p]));
                    let t = choose|t: int| 0 <= t < n - 1 && is_best(cs, t) && #[trigger] cs[t] == prev[p];
                    if cs[t].1 == cs[n - 1].1 {
                        assert(is_best(cs, t));
                        assert(weight(cs[n - 1]) > weight(cs[t]) || (weight(cs[n - 1]) == weight(cs[t]) && n - 1 >= t));
                        assert(weight(cs[t]) > weight(cs[n - 1]) || (weight(cs[t]) == weight(cs[n - 1]) && t >= n - 1));
                    }
                }
            }
        } else {
            assert forall|p: int| 0 <= p < chosen(cs, n).len() implies #[trigger] best_member(cs, n, chosen(cs, n)[p]) by {
                assert(best_member(cs, n - 1, prev[p]));
                let t = choose|t: int| 0 <= t < n - 1 && is_best(cs, t) && #[trigger] cs[t] == prev[p];
            }
        }
    }
}

/// Sorting keeps the later columns distinct.
proof fn lemma_sorted_distinct(c: Seq<Op>, srt: Seq<Op>)
    requires
        distinct_later(c),
        srt.to_multiset() == c.to_multiset(),
    ensures
        distinct_later(srt),
        srt.len() == c.len(),
{
    assert(c.no_duplicates()) by {
        assert forall|i: int, j: int| 0 <= i < c.len() && 0 <= j < c.len() && i != j implies c[i] != c[j] by {
            if i < j {
                assert(c[i].1 != c[j].1);
            } else {
                assert(c[j].1 != c[i].1);
            }
        }
    }
    c.lemma_multiset_has_no_duplicates();
    srt.lemma_multiset_has_no_duplicates_conv();
    assert forall|p: int, q: int| 0 <= p < q < srt.len() implies #[trigger] srt[p].1 != #[trigger] srt[q].1 by {
        assert(srt.to_multiset().contains(srt[p]));
        assert(srt.to_multiset().contains(srt[q]));
        assert(c.contains(srt[p]));
        assert(c.contains(srt[q]));
        let i = choose|i: int| 0 <= i < c.len() && c[i] == srt[p];
        let j = choose|j: int| 0 <= j < c.len() && c[j] == srt[q];
        assert(srt[p] != srt[q]);
        if i < j {
            assert(c[i].1 != c[j].1);
        } else if j < i {
            assert(c[j].1 != c[i].1);
        }
    }
    assert(srt.len() == srt.to_multiset().len());
}

/// Where the operation with each later column lies.
fn build_opindex(ops: &Vec<Op>, y: usize) -> (oi: Vec<usize>)
    requires
        y < usize::MAX,
        distinct_later(ops@),
        forall|t: int| 0 <= t < ops@.len() ==> #[trigger] ops@[t].1 <= y,
    ensures
        oi@.len() == y + 1,
        forall|t: int| 0 <= t < ops@.len() ==> #[trigger] oi@[ops@[t].1 as int] == t,
        forall|j: int| 0 <= j <= y && #[trigger] oi@[j] != usize::MAX ==> oi@[j] < ops@.len() && ops@[oi@[j] as int].1 == j,
{
    let mut oi: Vec<usize> = Vec::new();
    let mut j: usize = 0;
    while j <= y
        invariant
            y < usize::MAX,
            j <= y + 1,
            oi@.len() == j,
            forall|i: int| 0 <= i < j ==> #[trigger] oi@[i] == usize::MAX,
        decreases y + 1 - j,
    {
        oi.push(usize::MAX);
        j = j + 1;
    }
    let n = ops.len();
    let mut t: usize = 0;
    while t < n
        invariant
            n == ops@.len(),
            distinct_later(ops@),
            forall|u: int| 0 <= u < ops@.len() ==> #[trigger] ops@[u].1 <= y,
            oi@.len() == y + 1,
            t <= n,
            forall|u: int| 0 <= u < t ==> #[trigger] oi@[ops@[u].1 as int] == u,
            forall|jj: int| 0 <= jj <= y && #[trigger] oi@[jj] != usize::MAX ==> oi@[jj] < t && ops@[oi@[jj] as int].1 == jj,
        decreases n - t,
    {
        let jj = ops[t].1 as usize;
        oi.set(jj, t);
        proof {
            assert forall|u: int| 0 <= u < t + 1 implies #[trigger] oi@[ops@[u].1 as int] == u by {
                if u < t {
                    assert(ops@[u].1 != ops@[t as int].1);
                }
            }
        }
        t = t + 1;
    }
    oi
}

/// The operations with integer coefficients.
pub open spec fn op_ints(s: Seq<Op>) -> Seq<(int, int, int, int)> {
    s.map_values(|o: Op| (o.0 as int, o.1 as int, o.2 as int, o.3 as int))
}

/// The value fits in an `i32`.
pub open spec fn fits32(v: int) -> bool {
    i32::MIN <= v <= i32::MAX
}

/// Operation `k` scales the earlier operations it touches by its second
/// coefficient: those with the same first column in their first
/// coefficient, the one whose later column is its first column in its
/// second.
pub open spec fn step(ops: Seq<(int, int, int, int)>, k: int) -> Seq<(int, int, int, int)> {
    Seq::new(ops.len(), |l: int| {
        let o = ops[l];
        let p = ops[k];
        (o.0, o.1, if l < k && o.0 == p.0 { o.2 * p.3 } else { o.2 }, if l < k && o.1 == p.0 { o.3 * p.3 } else { o.3 })
    })
}

/// The scaled coefficients of step `k` fit in an `i32`.
pub open spec fn step_fits(ops: Seq<(int, int, int, int)>, k: int) -> bool {
    forall|l: int|
        0 <= l < k ==> (#[trigger] ops[l].0 == ops[k].0 ==> fits32(ops[l].2 * ops[k].3)) && (ops[l].1 == ops[k].0 ==> fits32(ops[l].3 * ops[k].3))
}

/// The operations after the steps of the operations from `k` on, the last
/// first.
pub open spec fn cascade(ops: Seq<(int, int, int, int)>, k: int) -> Seq<(int, int, int, int)>
    decreases ops.len() - k,
{
    if k >= ops.len() || k < 0 {
        ops
    } else {
        step(cascade(ops, k + 1), k)
    }
}

/// Every step from `k` on fits.
pub open spec fn cascade_fits(ops: Seq<(int, int, int, int)>, k: int) -> bool
    decreases ops.len() - k,
{
    if k >= ops.len() || k < 0 {
        true
    } else {
        cascade_fits(ops, k + 1) && step_fits(cascade(ops, k + 1), k)
    }
}

/// The steps keep the columns of the operations and their number.
proof fn lemma_cascade_cols(ops: Seq<(int, int, int, int)>, k: int)
    requires
        0 <= k <= ops.len(),
    ensures
        cascade(ops, k).len() == ops.len(),
        forall|l: int| 0 <= l < ops.len() ==> #[trigger] cascade(ops, k)[l].0 == ops[l].0 && cascade(ops, k)[l].1 == ops[l].1,
    decreases ops.len() - k,
{
    if k < ops.len() {
        lemma_cascade_cols(ops, k + 1);
    }
}

/// The operations have the same columns.
pub open spec fn same_cols(a: Seq<Op>, b: Seq<Op>) -> bool {
    a.len() == b.len() && forall|t: int| 0 <= t < a.len() ==> #[trigger] a[t].0 == b[t].0 && a[t].1 == b[t].1
}

/// Setting an operation with the same columns keeps the columns.
proof fn lemma_set_cols(a: Seq<Op>, b: Seq<Op>, l: int, o: Op)
    requires
        same_cols(a, b),
        0 <= l < a.len(),
        o.0 == a[l].0,
        o.1 == a[l].1,
    ensures
        same_cols(a.update(l, o), b),
{
    let c = a.update(l, o);
    assert forall|t: int| 0 <= t < c.len() implies #[trigger] c[t].0 == b[t].0 && c[t].1 == b[t].1 by {
        if t != l {
            assert(c[t] == a[t]);
        }
    }
}

/// Where every step from 0 on fits, every step from `k` on does.
proof fn lemma_fits_from(ops: Seq<(int, int, int, int)>, k: int)
    requires
        0 <= k,
        cascade_fits(ops, 0),
    ensures
        cascade_fits(ops, k),
    decreases k,
{
    if k > 0 {
        lemma_fits_from(ops, k - 1);
    }
}

/// The product of two `i32` values.
fn mul32(a: i32, b: i32) -> (r: Option<i32>)
    ensures
        r is Some <==> fits32(a * b),
        r matches Some(v) ==> v == a * b,
{
    proof {
        assert(-0x4000_0000_0000_0000 <= (a as int) * (b as int) <= 0x4000_0000_0000_0000) by (nonlinear_arith)
            requires
                -0x8000_0000 <= a <= 0x7fff_ffff,
                -0x8000_0000 <= b <= 0x7fff_ffff,
        ;
    }
    let p = (a as i64) * (b as i64);
    if p < i32::MIN as i64 || p > i32::MAX as i64 {
        None
    } else {
        Some(p as i32)
    }
}

/// Chain the operations: go through them from the last to the first, each
/// scaling the earlier ones it touches (see `step`). `false`, with the
/// operations half scaled, where a coefficient leaves the range of `i32`.
#[verifier::rlimit(40)]
fn chain_ops(ops: &mut Vec<Op>, oi: &Vec<usize>, y: usize) -> (ok: bool)
    requires
        sorted_by(old(ops)@, op_leq()),
        forall|t: int| 0 <= t < old(ops)@.len() ==> #[trigger] old(ops)@[t].0 <= y,
        oi@.len() == y + 1,
        forall|t: int| 0 <= t < old(ops)@.len() ==> #[trigger] oi@[old(ops)@[t].1 as int] == t,
        forall|j: int| 0 <= j <= y && #[trigger] oi@[j] != usize::MAX ==> oi@[j] < old(ops)@.len() && old(ops)@[oi@[j] as int].1 == j,
    ensures
        ok == cascade_fits(op_ints(old(ops)@), 0),
        ok ==> op_ints(final(ops)@) == cascade(op_ints(old(ops)@), 0),
{
    let ghost orig = op_ints(ops@);
    let ghost o0 = ops@;
    let n = ops.len();
    let mut kk = n;
    while kk > 0
        invariant
            orig == op_ints(o0),
            o0 == old(ops)@,
            n == o0.len(),
            ops@.len() == n,
            same_cols(ops@, o0),
            kk <= n,
            sorted_by(o0, op_leq()),
            forall|t: int| 0 <= t < n ==> #[trigger] o0[t].0 <= y,
            oi@.len() == y + 1,
            forall|t: int| 0 <= t < n ==> #[trigger] oi@[o0[t].1 as int] == t,
            forall|j: int| 0 <= j <= y && #[trigger] oi@[j] != usize::MAX ==> oi@[j] < n && o0[oi@[j] as int].1 == j,
            op_ints(ops@) == cascade(orig, kk as int),
            cascade_fits(orig, kk as int),
        decreases kk,
    {
        let k = kk - 1;
        let ghost cur = cascade(orig, kk as int);
        proof {
            lemma_cascade_cols(orig, kk as int);
            assert(op_ints(ops@)[k as int] == cur[k as int]);
        }
        let p = ops[k];
        let mut l = k;
        while l > 0 && ops[l - 1].0 == p.0
            invariant
                orig == op_ints(o0),
                o0 == old(ops)@,
                n == o0.len(),
                ops@.len() == n,
                same_cols(ops@, o0),
                k < n,
                l <= k,
                sorted_by(o0, op_leq()),
                cur == cascade(orig, k + 1),
                cur.len() == n,
                forall|t: int| 0 <= t < n ==> #[trigger] cur[t].0 == orig[t].0 && cur[t].1 == orig[t].1,
                p == ops@[k as int],
                op_ints(ops@)[k as int] == cur[k as int],
                forall|t: int| 0 <= t < n && (t < l || t >= k) ==> #[trigger] op_ints(ops@)[t] == cur[t],
                forall|t: int| l <= t < k ==> #[trigger] op_ints(ops@)[t] == (cur[t].0, cur[t].1, cur[t].2 * cur[k as int].3, cur[t].3),
                forall|t: int| l <= t < k ==> #[trigger] o0[t].0 == p.0,
            decreases l,
        {
            l = l - 1;
            let o = ops[l];
            proof {
                assert(op_ints(ops@)[l as int] == cur[l as int]);
            }
            match mul32(o.2, p.3) {
                Some(v) => {
                    let ghost before = ops@;
                    ops.set(l, (o.0, o.1, v, o.3));
                    proof {
                        assert forall|t: int| 0 <= t < n && (t < l || t >= k) implies #[trigger] op_ints(ops@)[t] == cur[t] by {
                            assert(ops@[t] == before[t]);
                            assert(op_ints(before)[t] == cur[t]);
                        }
                        assert forall|t: int| l <= t < k implies #[trigger] op_ints(ops@)[t] == (cur[t].0, cur[t].1, cur[t].2 * cur[k as int].3, cur[t].3) by {
                            if t > l {
                                assert(ops@[t] == before[t]);
                                assert(op_ints(before)[t] == (cur[t].0, cur[t].1, cur[t].2 * cur[k as int].3, cur[t].3));
                            } else {
                                assert(op_ints(before)[t] == cur[t]);
                            }
                        }
                        lemma_set_cols(before, o0, l as int, (o.0, o.1, v, o.3));
                        assert(ops@ == before.update(l as int, (o.0, o.1, v, o.3)));
                        assert(o0[l as int].0 == p.0);
                    }
                },
                None => {
                    proof {
                        assert(cur[l as int].0 == cur[k as int].0);
                        assert(!step_fits(cur, k as int));
                        assert(!cascade_fits(orig, k as int));
                        if cascade_fits(orig, 0) {
                            lemma_fits_from(orig, k as int);
                        }
                    }
                    return false;
                },
            }
        }
        let ghost mid = op_ints(ops@);
        proof {
            assert forall|t: int| 0 <= t < l implies #[trigger] cur[t].0 != cur[k as int].0 by {
                if l > 0 {
                    assert(op_leq()(o0[t], o0[l - 1]) || t == l - 1);
                    assert(same_cols(ops@, o0));
                    assert(ops@[l - 1].0 == o0[l - 1].0);
                    assert(o0[l - 1].0 != p.0);
                    assert(op_leq()(o0[l - 1], o0[k as int]));
                    assert(o0[k as int].0 == p.0);
                }
            }
            assert forall|t: int| 0 <= t < n implies #[trigger] mid[t].3 == cur[t].3 by {
                if l <= t < k {
                } else {
                }
            }
        }
        let j0 = p.0 as usize;
        proof {
            assert(o0[k as int].0 <= y);
        }
        let i = oi[j0];
        if i != usize::MAX && i < k {
            let o = ops[i];
            proof {
                assert(o0[i as int].1 == j0);
            }
            match mul32(o.3, p.3) {
                Some(v) => {
                    let ghost before = ops@;
                    ops.set(i, (o.0, o.1, o.2, v));
                    proof {
                        assert forall|t: int| 0 <= t < n && t != i implies #[trigger] op_ints(ops@)[t] == mid[t] by {
                            assert(ops@[t] == before[t]);
                        }
                        lemma_set_cols(before, o0, i as int, (o.0, o.1, o.2, v));
                        assert(ops@ == before.update(i as int, (o.0, o.1, o.2, v)));
                    }
                },
                None => {
                    proof {
                        assert(cur[i as int].1 == cur[k as int].0);
                        assert(mid[i as int].3 == cur[i as int].3);
                        assert(o.3 == cur[i as int].3);
                        assert(p.3 == cur[k as int].3);
                        assert(!fits32(cur[i as int].3 * cur[k as int].3));
                        assert(!step_fits(cur, k as int));
                        assert(!cascade_fits(orig, k as int));
                        if cascade_fits(orig, 0) {
                            lemma_fits_from(orig, k as int);
                        }
                    }
                    return false;
                },
            }
        }
        proof {
            let did = i != usize::MAX && i < k;
            assert forall|t: int| 0 <= t < n implies #[trigger] op_ints(ops@)[t] == step(cur, k as int)[t] by {
                let st = step(cur, k as int);
                if t < k && cur[t].1 == cur[k as int].0 {
                    assert(oi@[o0[t].1 as int] == t);
                    assert(i == t);
                }
                if did && t == i {
                    assert(o0[i as int].1 == j0);
                    assert(cur[t].1 == cur[k as int].0);
                } else {
                    assert(op_ints(ops@)[t] == mid[t]);
                }
                if t < l {
                    assert(mid[t] == cur[t]);
                    assert(cur[t].0 != cur[k as int].0);
                } else if t < k {
                    assert(mid[t] == (cur[t].0, cur[t].1, cur[t].2 * cur[k as int].3, cur[t].3));
                    assert(o0[t].0 == p.0);
                } else {
                    assert(mid[t] == cur[t]);
                }
                assert(st[t].0 == cur[t].0 && st[t].1 == cur[t].1);
            }
            assert(op_ints(ops@) =~= step(cur, k as int));
            assert forall|t: int| 0 <= t < k implies (#[trigger] cur[t].0 == cur[k as int].0 ==> fits32(cur[t].2 * cur[k as int].3)) && (cur[t].1 == cur[k as int].0 ==> fits32(cur[t].3 * cur[k as int].3)) by {
                let st = step(cur, k as int);
                assert(op_ints(ops@)[t] == st[t]);
                if cur[t].1 == cur[k as int].0 {
                    assert(oi@[o0[t].1 as int] == t);
                }
                if cur[t].0 == cur[k as int].0 {
                    assert(st[t].2 == cur[t].2 * cur[k as int].3);
                }
            }
        }
        kk = k;
    }
    true
}

/// The value of a row in column `c`: the last of its values in that column,
/// 0 where it has none.
pub open spec fn gval(cols: Seq<u32>, vals: Seq<i32>, c: int, n: int) -> int
    decreases n,
{
    if n <= 0 {
        0
    } else if cols[n - 1] == c {
        vals[n - 1] as int
    } else {
        gval(cols, vals, c, n - 1)
    }
}

/// The value of a row in column `c` after the operations from `k` on, the
/// last first: operation `k` replaces the value in its first column `j0` by
/// `s1 * v[j0] - s0 * v[j1]`.
pub open spec fn after(cols: Seq<u32>, vals: Seq<i32>, f: Seq<(int, int, int, int)>, k: int, c: int) -> int
    decreases f.len() - k,
{
    if k >= f.len() || k < 0 {
        gval(cols, vals, c, cols.len() as int)
    } else if c == f[k].0 {
        f[k].3 * after(cols, vals, f, k + 1, f[k].0) - f[k].2 * after(cols, vals, f, k + 1, f[k].1)
    } else {
        after(cols, vals, f, k + 1, c)
    }
}

/// Operation `k` computes its new value within the range of `i32`.
pub open spec fn op_fits(cols: Seq<u32>, vals: Seq<i32>, f: Seq<(int, int, int, int)>, k: int) -> bool {
    let v0 = after(cols, vals, f, k + 1, f[k].0);
    let v1 = after(cols, vals, f, k + 1, f[k].1);
    fits32(f[k].3 * v0) && fits32(f[k].2 * v1) && fits32(f[k].3 * v0 - f[k].2 * v1)
}

/// Every operation computes its new value on the row within `i32`.
pub open spec fn row_fits(cols: Seq<u32>, vals: Seq<i32>, f: Seq<(int, int, int, int)>) -> bool {
    forall|k: int| 0 <= k < f.len() ==> #[trigger] op_fits(cols, vals, f, k)
}

/// Column `c` is the later column of an operation, and is dropped.
pub open spec fn removed(f: Seq<(int, int, int, int)>, c: int) -> bool {
    exists|k: int| 0 <= k < f.len() && #[trigger] f[k].1 == c
}

/// The number of operations among the first `n` whose later column is
/// below `c`.
pub open spec fn removed_below(f: Seq<(int, int, int, int)>, c: int, n: int) -> nat
    decreases n,
{
    if n <= 0 {
        0
    } else {
        removed_below(f, c, n - 1) + if f[n - 1].1 < c {
            1nat
        } else {
            0nat
        }
    }
}

/// The entries of a rewritten row in the columns below `c`: each nonzero
/// value of a kept column, in the column renumbered past the dropped ones.
pub open spec fn row_out(g: (int, Seq<u32>, Seq<i32>), f: Seq<(int, int, int, int)>, c: int) -> Seq<([u32; 2], i32)>
    decreases c,
{
    if c <= 0 {
        Seq::empty()
    } else {
        let d = c - 1;
        let v = after(g.1, g.2, f, 0, d);
        if v != 0 && !removed(f, d) {
            row_out(g, f, d).push(([g.0 as u32, (d - removed_below(f, d, f.len() as int)) as u32], v as i32))
        } else {
            row_out(g, f, d)
        }
    }
}

/// The rewritten rows among the first `n`, one after another.
pub open spec fn merged(gs: Seq<(int, Seq<u32>, Seq<i32>)>, f: Seq<(int, int, int, int)>, y: int, n: int) -> Seq<([u32; 2], i32)>
    decreases n,
{
    if n <= 0 {
        Seq::empty()
    } else {
        merged(gs, f, y, n - 1) + row_out(gs[n - 1], f, y + 1)
    }
}

/// Every row among the first `n` is rewritten within `i32`.
pub open spec fn rows_fit(gs: Seq<(int, Seq<u32>, Seq<i32>)>, f: Seq<(int, int, int, int)>, n: int) -> bool {
    forall|i: int| 0 <= i < n ==> row_fits(#[trigger] gs[i].1, gs[i].2, f)
}

/// Column `c` is marked.
pub open spec fn in_set(mark: Seq<bool>, c: int) -> bool {
    0 <= c < mark.len() && mark[c]
}

/// Every operation has both columns marked or neither.
pub open spec fn closed(f: Seq<(int, int, int, int)>, mark: Seq<bool>) -> bool {
    forall|k: int| 0 <= k < f.len() ==> (in_set(mark, #[trigger] f[k].0) <==> in_set(mark, f[k].1))
}

/// The number of unmarked columns among the first `n`.
pub open spec fn unmarked(mark: Seq<bool>, n: int) -> nat
    decreases n,
{
    if n <= 0 {
        0
    } else {
        unmarked(mark, n - 1) + if mark[n - 1] {
            0nat
        } else {
            1nat
        }
    }
}

/// Marking an unmarked column leaves one fewer unmarked.
proof fn lemma_unmarked_mark(mark: Seq<bool>, c: int, n: int)
    requires
        0 <= c < mark.len(),
        !mark[c],
        0 <= n <= mark.len(),
    ensures
        unmarked(mark.update(c, true), n) == unmarked(mark, n) - (if c < n { 1int } else { 0int }),
        unmarked(mark, n) >= (if c < n { 1int } else { 0int }),
    decreases n,
{
    if n > 0 {
        lemma_unmarked_mark(mark, c, n - 1);
    }
}

/// The start of the operations of each first column: operation `k` has a
/// first column below `j` exactly when `k` is below `st[j]`.
pub open spec fn op_starts_ok(ops: Seq<Op>, st: Seq<usize>, y: int) -> bool {
    &&& st.len() == y + 2
    &&& forall|j: int| 0 <= j <= y + 1 ==> #[trigger] st[j] <= ops.len()
    &&& forall|k: int, j: int| #![trigger ops[k], st[j]] 0 <= k < ops.len() && 0 <= j <= y + 1 ==> ((ops[k].0 < j) <==> (k < st[j]))
}

/// Where each column's operations start.
fn build_op_starts(ops: &Vec<Op>, y: usize) -> (st: Vec<usize>)
    requires
        y + 2 <= usize::MAX,
        sorted_by(ops@, op_leq()),
    ensures
        op_starts_ok(ops@, st@, y as int),
{
    let n = ops.len();
    let mut st: Vec<usize> = Vec::new();
    let mut p: usize = 0;
    let mut j: usize = 0;
    while j < y + 2
        invariant
            y + 2 <= usize::MAX,
            n == ops@.len(),
            sorted_by(ops@, op_leq()),
            j <= y + 2,
            st@.len() == j,
            p <= n,
            forall|i: int| 0 <= i < j ==> #[trigger] st@[i] <= n,
            forall|k: int, i: int| #![trigger ops@[k], st@[i]] 0 <= k < n && 0 <= i < j ==> ((ops@[k].0 < i) <==> (k < st@[i])),
            forall|k: int| 0 <= k < p ==> #[trigger] ops@[k].0 < j,
            j > 0 ==> forall|k: int| p <= k < n ==> #[trigger] ops@[k].0 >= j - 1,
        decreases y + 2 - j,
    {
        while p < n && (ops[p].0 as usize) < j
            invariant
                n == ops@.len(),
                sorted_by(ops@, op_leq()),
                p <= n,
                forall|k: int| 0 <= k < p ==> #[trigger] ops@[k].0 < j,
            decreases n - p,
        {
            p = p + 1;
        }
        proof {
            assert forall|k: int| p <= k < n implies #[trigger] ops@[k].0 >= j by {
                if k > p {
                    assert(op_leq()(ops@[p as int], ops@[k]));
                }
            }
        }
        st.push(p);
        j = j + 1;
    }
    st
}

/// The marked column's operations lead to marked columns: those with it as
/// first column to their later column, the one with it as later column to
/// its first.
pub open spec fn expanded(ops: Seq<Op>, mark: Seq<bool>, c: int) -> bool {
    &&& forall|k: int| 0 <= k < ops.len() && #[trigger] ops[k].0 == c ==> in_set(mark, ops[k].1 as int)
    &&& forall|k: int| 0 <= k < ops.len() && #[trigger] ops[k].1 == c ==> in_set(mark, ops[k].0 as int)
}

/// The facts the closure relies on.
pub open spec fn op_tables(ops: Seq<Op>, st: Seq<usize>, oi: Seq<usize>, y: int) -> bool {
    &&& op_starts_ok(ops, st, y)
    &&& oi.len() == y + 1
    &&& forall|t: int| 0 <= t < ops.len() ==> #[trigger] ops[t].0 <= y && ops[t].1 <= y
    &&& forall|t: int| 0 <= t < ops.len() ==> #[trigger] oi[ops[t].1 as int] == t
    &&& forall|j: int| 0 <= j <= y && #[trigger] oi[j] != usize::MAX ==> oi[j] < ops.len() && ops[oi[j] as int].1 == j
}

/// Mark `c` and list it, unless it is marked already.
fn visit(mark: &mut Vec<bool>, list: &mut Vec<u64>, stack: &mut Vec<u32>, c: u32)
    requires
        (c as int) < old(mark)@.len(),
        forall|d: int| 0 <= d < old(mark)@.len() ==> (#[trigger] old(mark)@[d] <==> old(list)@.contains(d as u64)),
        old(list)@.no_duplicates(),
        forall|i: int| 0 <= i < old(list)@.len() ==> #[trigger] old(list)@[i] < old(mark)@.len(),
        old(stack)@.no_duplicates(),
        forall|i: int| 0 <= i < old(stack)@.len() ==> old(list)@.contains(#[trigger] old(stack)@[i] as u64),
    ensures
        final(mark)@ == old(mark)@.update(c as int, true),
        forall|d: int| 0 <= d < final(mark)@.len() ==> (#[trigger] final(mark)@[d] <==> final(list)@.contains(d as u64)),
        final(list)@.no_duplicates(),
        forall|i: int| 0 <= i < final(list)@.len() ==> #[trigger] final(list)@[i] < final(mark)@.len(),
        final(stack)@.no_duplicates(),
        forall|i: int| 0 <= i < final(stack)@.len() ==> final(list)@.contains(#[trigger] final(stack)@[i] as u64),
        old(mark)@[c as int] ==> final(list)@ == old(list)@ && final(stack)@ == old(stack)@,
        !old(mark)@[c as int] ==> final(list)@ == old(list)@.push(c as u64) && final(stack)@ == old(stack)@.push(c),
{
    if !mark[c as usize] {
        let ghost l0 = list@;
        let ghost s0 = stack@;
        mark.set(c as usize, true);
        list.push(c as u64);
        stack.push(c);
        proof {
            assert(!l0.contains(c as u64));
            assert forall|i: int, j: int| 0 <= i < list@.len() && 0 <= j < list@.len() && i != j implies list@[i] != list@[j] by {
                if i < l0.len() && j < l0.len() {
                } else if i < l0.len() {
                    assert(list@[i] == l0[i]);
                } else if j < l0.len() {
                    assert(list@[j] == l0[j]);
                }
            }
            assert forall|d: int| 0 <= d < mark@.len() implies (#[trigger] mark@[d] <==> list@.contains(d as u64)) by {
                if d != c {
                    if l0.contains(d as u64) {
                        let i = choose|i: int| 0 <= i < l0.len() && l0[i] == d as u64;
                        assert(list@[i] == l0[i]);
                    }
                    if list@.contains(d as u64) {
                        let i = choose|i: int| 0 <= i < list@.len() && list@[i] == d as u64;
                        if i < l0.len() {
                            assert(l0[i] == list@[i]);
                        }
                    }
                } else {
                    assert(list@[list@.len() - 1] == c as u64);
                }
            }
            assert(!s0.contains(c)) by {
                if s0.contains(c) {
                    let i = choose|i: int| 0 <= i < s0.len() && s0[i] == c;
                    assert(l0.contains(s0[i] as u64));
                }
            }
            assert forall|i: int, j: int| 0 <= i < stack@.len() && 0 <= j < stack@.len() && i != j implies stack@[i] != stack@[j] by {
                if i < s0.len() && j < s0.len() {
                } else if i < s0.len() {
                    assert(stack@[i] == s0[i]);
                } else if j < s0.len() {
                    assert(stack@[j] == s0[j]);
                }
            }
            assert forall|i: int| 0 <= i < stack@.len() implies list@.contains(#[trigger] stack@[i] as u64) by {
                if i < s0.len() {
                    assert(stack@[i] == s0[i]);
                    let q = choose|q: int| 0 <= q < l0.len() && l0[q] == s0[i] as u64;
                    assert(list@[q] == l0[q]);
                } else {
                    assert(list@[list@.len() - 1] == c as u64);
                }
            }
        }
    }
}

/// The columns reached from the row's columns through the operations, each
/// once; the marks are set on exactly these.
#[verifier::rlimit(60)]
fn closure(ops: &Vec<Op>, st: &Vec<usize>, oi: &Vec<usize>, y: usize, cols: &Vec<u32>, mark: &mut Vec<bool>) -> (list: Vec<u64>)
    requires
        y + 2 <= usize::MAX,
        op_tables(ops@, st@, oi@, y as int),
        old(mark)@.len() == y + 1,
        forall|c: int| 0 <= c <= y ==> !#[trigger] old(mark)@[c],
        forall|p: int| 0 <= p < cols@.len() ==> #[trigger] cols@[p] <= y,
    ensures
        final(mark)@.len() == y + 1,
        forall|d: int| 0 <= d <= y ==> (#[trigger] final(mark)@[d] <==> list@.contains(d as u64)),
        list@.no_duplicates(),
        forall|i: int| 0 <= i < list@.len() ==> #[trigger] list@[i] <= y,
        closed(op_ints(ops@), final(mark)@),
        forall|p: int| 0 <= p < cols@.len() ==> #[trigger] final(mark)@[cols@[p] as int],
{
    let mut list: Vec<u64> = Vec::new();
    let mut stack: Vec<u32> = Vec::new();
    let mut p: usize = 0;
    while p < cols.len()
        invariant
            mark@.len() == y + 1,
            forall|p: int| 0 <= p < cols@.len() ==> #[trigger] cols@[p] <= y,
            forall|d: int| 0 <= d < mark@.len() ==> (#[trigger] mark@[d] <==> list@.contains(d as u64)),
            list@.no_duplicates(),
            forall|i: int| 0 <= i < list@.len() ==> #[trigger] list@[i] < mark@.len(),
            stack@.no_duplicates(),
            forall|i: int| 0 <= i < stack@.len() ==> list@.contains(#[trigger] stack@[i] as u64),
            forall|d: int| 0 <= d < mark@.len() && #[trigger] mark@[d] ==> stack@.contains(d as u32),
            p <= cols@.len(),
            forall|q: int| 0 <= q < p ==> #[trigger] mark@[cols@[q] as int],
        decreases cols@.len() - p,
    {
        let c = cols[p];
        let ghost m0 = mark@;
        let ghost s0 = stack@;
        visit(mark, &mut list, &mut stack, c);
        proof {
            assert forall|d: int| 0 <= d < mark@.len() && #[trigger] mark@[d] implies stack@.contains(d as u32) by {
                if d != c {
                    assert(m0[d]);
                    let i = choose|i: int| 0 <= i < s0.len() && s0[i] == d as u32;
                    if !m0[c as int] {
                        assert(stack@[i] == s0[i]);
                    }
                } else if !m0[c as int] {
                    assert(stack@[stack@.len() - 1] == c);
                }
            }
        }
        p = p + 1;
    }
    let nops = ops.len();
    let ghost n = ops@.len();
    while stack.len() > 0
        invariant
            y + 2 <= usize::MAX,
            op_tables(ops@, st@, oi@, y as int),
            n == ops@.len(),
            nops == n,
            mark@.len() == y + 1,
            forall|p: int| 0 <= p < cols@.len() ==> #[trigger] cols@[p] <= y,
            forall|p: int| 0 <= p < cols@.len() ==> #[trigger] mark@[cols@[p] as int],
            forall|d: int| 0 <= d < mark@.len() ==> (#[trigger] mark@[d] <==> list@.contains(d as u64)),
            list@.no_duplicates(),
            forall|i: int| 0 <= i < list@.len() ==> #[trigger] list@[i] < mark@.len(),
            stack@.no_duplicates(),
            forall|i: int| 0 <= i < stack@.len() ==> list@.contains(#[trigger] stack@[i] as u64),
            forall|d: int| 0 <= d < mark@.len() && #[trigger] mark@[d] && !stack@.contains(d as u32) ==> expanded(ops@, mark@, d),
        decreases unmarked(mark@, mark@.len() as int), stack@.len(),
    {
        let ghost m_start = mark@;
        let ghost s_start = stack@;
        let c = stack.pop().unwrap();
        let ghost s_popped = stack@;
        proof {
            assert(s_start == s_popped.push(c));
            assert forall|d: int| 0 <= d < mark@.len() && #[trigger] mark@[d] && !stack@.contains(d as u32) && d != c implies expanded(ops@, mark@, d) by {
                if s_start.contains(d as u32) {
                    let i = choose|i: int| 0 <= i < s_start.len() && s_start[i] == d as u32;
                    if i < s_popped.len() {
                        assert(s_popped[i] == d as u32);
                    }
                }
            }
            assert(list@.contains(c as u64));
            let q = choose|q: int| 0 <= q < list@.len() && list@[q] == c as u64;
            assert(list@[q] < mark@.len());
            assert(!stack@.contains(c)) by {
                if stack@.contains(c) {
                    let i = choose|i: int| 0 <= i < stack@.len() && stack@[i] == c;
                    assert(s_popped[i] == c);
                }
            }
        }
        let lo = st[c as usize];
        let hi = st[c as usize + 1];
        let mut k = lo;
        while k < hi
            invariant
                y + 2 <= usize::MAX,
                op_tables(ops@, st@, oi@, y as int),
                n == ops@.len(),
                (c as int) <= y,
                lo == st@[c as int],
                hi == st@[c + 1],
                lo <= k,
                mark@.len() == y + 1,
                mark@[c as int],
                forall|d: int| 0 <= d < mark@.len() ==> m_start[d] ==> #[trigger] mark@[d],
                forall|p: int| 0 <= p < cols@.len() ==> #[trigger] cols@[p] <= y,
                forall|p: int| 0 <= p < cols@.len() ==> #[trigger] mark@[cols@[p] as int],
                forall|d: int| 0 <= d < mark@.len() ==> (#[trigger] mark@[d] <==> list@.contains(d as u64)),
                list@.no_duplicates(),
                forall|i: int| 0 <= i < list@.len() ==> #[trigger] list@[i] < mark@.len(),
                stack@.no_duplicates(),
                forall|i: int| 0 <= i < stack@.len() ==> list@.contains(#[trigger] stack@[i] as u64),
                !stack@.contains(c),
                forall|d: int| 0 <= d < mark@.len() && #[trigger] mark@[d] && !stack@.contains(d as u32) && d != c ==> expanded(ops@, mark@, d),
                forall|t: int| lo <= t < k && t < n ==> in_set(mark@, #[trigger] ops@[t].1 as int),
                unmarked(mark@, mark@.len() as int) <= unmarked(m_start, m_start.len() as int),
                stack@.len() > s_popped.len() ==> unmarked(mark@, mark@.len() as int) < unmarked(m_start, m_start.len() as int),
                stack@.len() >= s_popped.len(),
            decreases hi - k,
        {
            proof {
                assert(st@[c + 1] <= n);
            }
            let j1 = ops[k].1;
            let ghost m0 = mark@;
            let ghost s0 = stack@;
            proof {
                assert(ops@[k as int].1 <= y);
                if !m0[j1 as int] {
                    lemma_unmarked_mark(m0, j1 as int, m0.len() as int);
                }
            }
            visit(mark, &mut list, &mut stack, j1);
            proof {
                lemma_expanded_grow(ops@, m0, mark@, j1 as int);
                if m0[j1 as int] {
                    assert(mark@ =~= m0);
                }
                assert forall|p: int| 0 <= p < cols@.len() implies #[trigger] mark@[cols@[p] as int] by {
                    assert(m0[cols@[p] as int]);
                }
                assert forall|d: int| 0 <= d < mark@.len() implies m_start[d] ==> #[trigger] mark@[d] by {
                    if m_start[d] {
                        assert(m0[d]);
                    }
                }
                assert forall|d: int| 0 <= d < mark@.len() && #[trigger] mark@[d] && !stack@.contains(d as u32) && d != c implies expanded(ops@, mark@, d) by {
                    if d != j1 || m0[j1 as int] {
                        assert(m0[d]);
                        if s0.contains(d as u32) {
                            let i = choose|i: int| 0 <= i < s0.len() && s0[i] == d as u32;
                            if !m0[j1 as int] {
                                assert(stack@[i] == s0[i]);
                            } else {
                                assert(stack@ == s0);
                            }
                        }
                    } else {
                        assert(stack@[stack@.len() - 1] == j1);
                    }
                }
                assert(!stack@.contains(c)) by {
                    if stack@.contains(c) {
                        let i = choose|i: int| 0 <= i < stack@.len() && stack@[i] == c;
                        if i < s0.len() {
                            assert(s0[i] == c);
                        }
                    }
                }
            }
            k = k + 1;
        }
        let i = oi[c as usize];
        if i != usize::MAX {
            let j0 = ops[i].0;
            let ghost m0 = mark@;
            let ghost s0 = stack@;
            proof {
                assert(ops@[i as int].0 <= y);
                if !m0[j0 as int] {
                    lemma_unmarked_mark(m0, j0 as int, m0.len() as int);
                }
            }
            visit(mark, &mut list, &mut stack, j0);
            proof {
                lemma_expanded_grow(ops@, m0, mark@, j0 as int);
                if m0[j0 as int] {
                    assert(mark@ =~= m0);
                }
                assert forall|p: int| 0 <= p < cols@.len() implies #[trigger] mark@[cols@[p] as int] by {
                    assert(m0[cols@[p] as int]);
                }
                assert(mark@[j0 as int]);
                assert(in_set(mark@, ops@[i as int].0 as int));
                assert forall|d: int| 0 <= d < mark@.len() && #[trigger] mark@[d] && !stack@.contains(d as u32) && d != c implies expanded(ops@, mark@, d) by {
                    if d != j0 || m0[j0 as int] {
                        assert(m0[d]);
                        if s0.contains(d as u32) {
                            let q = choose|q: int| 0 <= q < s0.len() && s0[q] == d as u32;
                            if !m0[j0 as int] {
                                assert(stack@[q] == s0[q]);
                            } else {
                                assert(stack@ == s0);
                            }
                        }
                    } else {
                        assert(stack@[stack@.len() - 1] == j0);
                    }
                }
                assert(!stack@.contains(c) || j0 == c) by {
                    if stack@.contains(c) && j0 != c {
                        let q = choose|q: int| 0 <= q < stack@.len() && stack@[q] == c;
                        if q < s0.len() {
                            assert(s0[q] == c);
                        }
                    }
                }
            }
        }
        proof {
            assert(i != usize::MAX ==> in_set(mark@, ops@[i as int].0 as int));
            assert(expanded(ops@, mark@, c as int)) by {
                assert forall|t: int| 0 <= t < ops@.len() && #[trigger] ops@[t].0 == c implies in_set(mark@, ops@[t].1 as int) by {
                    assert(!(ops@[t].0 < c) && ops@[t].0 < c + 1);
                }
                assert forall|t: int| 0 <= t < ops@.len() && #[trigger] ops@[t].1 == c implies in_set(mark@, ops@[t].0 as int) by {
                    assert(oi@[ops@[t].1 as int] == t);
                    assert(i == t);
                }
            }
            assert forall|d: int| 0 <= d < mark@.len() && #[trigger] mark@[d] && !stack@.contains(d as u32) implies expanded(ops@, mark@, d) by {
                if d == c {
                } 
            }
        }
    }
    proof {
        assert forall|t: int| 0 <= t < op_ints(ops@).len() implies (in_set(mark@, #[trigger] op_ints(ops@)[t].0) <==> in_set(mark@, op_ints(ops@)[t].1)) by {
            let o = ops@[t];
            assert(op_ints(ops@)[t] == (o.0 as int, o.1 as int, o.2 as int, o.3 as int));
            if in_set(mark@, o.0 as int) {
                assert(expanded(ops@, mark@, o.0 as int));
            }
            if in_set(mark@, o.1 as int) {
                assert(expanded(ops@, mark@, o.1 as int));
            }
        }
        assert forall|i: int| 0 <= i < list@.len() implies #[trigger] list@[i] <= y by {}
    }
    list
}

/// Marking more columns keeps a column expanded.
proof fn lemma_expanded_grow(ops: Seq<Op>, m0: Seq<bool>, m1: Seq<bool>, c: int)
    requires
        m0.len() == m1.len(),
        0 <= c < m1.len(),
        m1 == m0.update(c, true),
    ensures
        forall|d: int| #[trigger] expanded(ops, m0, d) ==> expanded(ops, m1, d),
        forall|d: int| 0 <= d < m0.len() ==> m0[d] ==> #[trigger] m1[d],
{
    assert forall|d: int| #[trigger] expanded(ops, m0, d) implies expanded(ops, m1, d) by {
        assert forall|k: int| 0 <= k < ops.len() && #[trigger] ops[k].0 == d implies in_set(m1, ops[k].1 as int) by {
            assert(in_set(m0, ops[k].1 as int));
        }
        assert forall|k: int| 0 <= k < ops.len() && #[trigger] ops[k].1 == d implies in_set(m1, ops[k].0 as int) by {
            assert(in_set(m0, ops[k].0 as int));
        }
    }
}

/// A column the row does not hold has value 0.
proof fn lemma_gval_zero(cols: Seq<u32>, vals: Seq<i32>, c: int, n: int)
    requires
        0 <= n <= cols.len(),
        forall|p: int| 0 <= p < n ==> #[trigger] cols[p] != c,
    ensures
        gval(cols, vals, c, n) == 0,
    decreases n,
{
    if n > 0 {
        lemma_gval_zero(cols, vals, c, n - 1);
    }
}

/// Every column of the row is marked.
pub open spec fn covers(cols: Seq<u32>, mark: Seq<bool>) -> bool {
    forall|p: int| 0 <= p < cols.len() ==> in_set(mark, #[trigger] cols[p] as int)
}

/// Outside a closed set of columns covering the row, the row stays 0.
proof fn lemma_outside(cols: Seq<u32>, vals: Seq<i32>, f: Seq<(int, int, int, int)>, mark: Seq<bool>, k: int, c: int)
    requires
        closed(f, mark),
        covers(cols, mark),
        !in_set(mark, c),
        0 <= k <= f.len(),
    ensures
        after(cols, vals, f, k, c) == 0,
    decreases f.len() - k,
{
    if k == f.len() {
        assert forall|p: int| 0 <= p < cols.len() implies #[trigger] cols[p] != c by {
            assert(in_set(mark, cols[p] as int));
        }
        lemma_gval_zero(cols, vals, c, cols.len() as int);
    } else {
        lemma_outside(cols, vals, f, mark, k + 1, c);
        if c == f[k].0 {
            assert(!in_set(mark, f[k].1));
            lemma_outside(cols, vals, f, mark, k + 1, f[k].1);
            assert(f[k].3 * 0 - f[k].2 * 0 == 0);
        }
    }
}

/// Operations whose first column is unmarked leave the marked columns
/// alone, and fit.
proof fn lemma_skip(cols: Seq<u32>, vals: Seq<i32>, f: Seq<(int, int, int, int)>, mark: Seq<bool>, a: int, b: int)
    requires
        closed(f, mark),
        covers(cols, mark),
        0 <= a <= b <= f.len(),
        forall|k: int| a <= k < b ==> !in_set(mark, #[trigger] f[k].0),
    ensures
        forall|c: int| in_set(mark, c) ==> #[trigger] after(cols, vals, f, a, c) == after(cols, vals, f, b, c),
        forall|k: int| a <= k < b ==> #[trigger] op_fits(cols, vals, f, k),
    decreases b - a,
{
    if a < b {
        lemma_skip(cols, vals, f, mark, a + 1, b);
        assert forall|c: int| in_set(mark, c) implies #[trigger] after(cols, vals, f, a, c) == after(cols, vals, f, b, c) by {
            assert(after(cols, vals, f, a, c) == after(cols, vals, f, a + 1, c));
        }
        assert(op_fits(cols, vals, f, a)) by {
            lemma_outside(cols, vals, f, mark, a + 1, f[a].0);
            assert(!in_set(mark, f[a].1));
            lemma_outside(cols, vals, f, mark, a + 1, f[a].1);
            assert(f[a].3 * 0 == 0 && f[a].2 * 0 == 0);
        }
    }
}

/// Columns outside the marked set add no entries to a rewritten row.
proof fn lemma_row_out_gap(g: (int, Seq<u32>, Seq<i32>), f: Seq<(int, int, int, int)>, mark: Seq<bool>, a: int, b: int)
    requires
        closed(f, mark),
        covers(g.1, mark),
        0 <= a <= b,
        forall|c: int| a <= c < b ==> !#[trigger] in_set(mark, c),
    ensures
        row_out(g, f, b) == row_out(g, f, a),
    decreases b - a,
{
    if a < b {
        lemma_row_out_gap(g, f, mark, a, b - 1);
        assert(!in_set(mark, b - 1));
        lemma_outside(g.1, g.2, f, mark, 0, b - 1);
    }
}

/// The marked columns, sorted and each once.
fn sorted_columns(list: Vec<u64>) -> (sl: Vec<u64>)
    requires
        list@.no_duplicates(),
    ensures
        forall|a: int, b: int| 0 <= a < b < sl@.len() ==> #[trigger] sl@[a] < #[trigger] sl@[b],
        forall|x: u64| #[trigger] sl@.contains(x) <==> list@.contains(x),
{
    let mut sl = list;
    let ghost l0 = sl@;
    sort_by_key(&mut sl);
    proof {
        l0.lemma_multiset_has_no_duplicates();
        assert forall|x: u64| sl@.to_multiset().contains(x) implies sl@.to_multiset().count(x) == 1 by {
            assert(l0.to_multiset().contains(x));
        }
        sl@.lemma_multiset_has_no_duplicates_conv();
        assert forall|a: int, b: int| 0 <= a < b < sl@.len() implies #[trigger] sl@[a] < #[trigger] sl@[b] by {
            assert(sl@[a].key_spec() <= sl@[b].key_spec());
            assert(sl@[a] != sl@[b]);
        }
        assert forall|x: u64| #[trigger] sl@.contains(x) <==> l0.contains(x) by {
            if sl@.contains(x) {
                assert(sl@.to_multiset().contains(x));
            }
            if l0.contains(x) {
                assert(l0.to_multiset().contains(x));
            }
        }
    }
    sl
}

/// Write the row's values into the zeroed dense row.
fn load_row(cols: &Vec<u32>, vals: &Vec<i32>, dv: &mut Vec<i32>, y: usize)
    requires
        cols@.len() == vals@.len(),
        forall|p: int| 0 <= p < cols@.len() ==> #[trigger] cols@[p] <= y,
        old(dv)@.len() == y + 1,
        forall|c: int| 0 <= c <= y ==> #[trigger] old(dv)@[c] == 0,
    ensures
        final(dv)@.len() == y + 1,
        forall|c: int| 0 <= c <= y ==> #[trigger] final(dv)@[c] == gval(cols@, vals@, c, cols@.len() as int),
{
    let mut p: usize = 0;
    while p < cols.len()
        invariant
            cols@.len() == vals@.len(),
            forall|q: int| 0 <= q < cols@.len() ==> #[trigger] cols@[q] <= y,
            dv@.len() == y + 1,
            p <= cols@.len(),
            forall|c: int| 0 <= c <= y ==> #[trigger] dv@[c] == gval(cols@, vals@, c, p as int),
        decreases cols@.len() - p,
    {
        dv.set(cols[p] as usize, vals[p]);
        p = p + 1;
    }
}

/// The product of two `i32` values as an `i64`.
fn wide_mul(a: i32, b: i32) -> (r: i64)
    ensures
        r == a * b,
{
    proof {
        assert(-0x4000_0000_0000_0000 <= (a as int) * (b as int) <= 0x4000_0000_0000_0000) by (nonlinear_arith)
            requires
                -0x8000_0000 <= a <= 0x7fff_ffff,
                -0x8000_0000 <= b <= 0x7fff_ffff,
        ;
    }
    (a as i64) * (b as i64)
}

/// The facts about the marked columns that the rewriting relies on: `mk`
/// marks exactly the sorted columns `sl`, closed under the operations and
/// covering the row.
pub open spec fn marked_ok(f: Seq<(int, int, int, int)>, mk: Seq<bool>, sl: Seq<u64>, cols: Seq<u32>, y: int) -> bool {
    &&& mk.len() == y + 1
    &&& 0 <= y < 0x1_0000_0000
    &&& closed(f, mk)
    &&& covers(cols, mk)
    &&& forall|a: int, b: int| 0 <= a < b < sl.len() ==> #[trigger] sl[a] < #[trigger] sl[b]
    &&& forall|c: int| 0 <= c <= y ==> (#[trigger] mk[c] <==> sl.contains(c as u64))
    &&& forall|i: int| 0 <= i < sl.len() ==> #[trigger] sl[i] <= y
}

/// No marked column lies strictly between two consecutive sorted columns,
/// below the first, or above the last.
proof fn lemma_no_marked_between(f: Seq<(int, int, int, int)>, mk: Seq<bool>, sl: Seq<u64>, cols: Seq<u32>, y: int, lo: int, hi: int, i: int)
    requires
        marked_ok(f, mk, sl, cols, y),
        -1 <= i < sl.len(),
        i >= 0 ==> lo > sl[i],
        i + 1 < sl.len() ==> hi <= sl[i + 1],
    ensures
        forall|c: int| lo <= c < hi ==> !#[trigger] in_set(mk, c),
{
    assert forall|c: int| lo <= c < hi implies !#[trigger] in_set(mk, c) by {
        if in_set(mk, c) {
            assert(sl.contains(c as u64));
            let q = choose|q: int| 0 <= q < sl.len() && sl[q] == c as u64;
            assert(sl[q] == c);
            if q <= i {
                if q < i {
                    assert(sl[q] < sl[i]);
                }
            } else {
                if q > i + 1 {
                    assert(sl[i + 1] < sl[q]);
                }
            }
        }
    }
}

/// The starts of the columns' operations grow with the column.
proof fn lemma_starts_monotone(ops: Seq<Op>, st: Seq<usize>, y: int, j: int, j2: int)
    requires
        op_starts_ok(ops, st, y),
        0 <= j <= j2 <= y + 1,
    ensures
        st[j] <= st[j2],
{
    if st[j] > st[j2] {
        let k = st[j2] as int;
        assert(st[j] <= ops.len());
        assert(!(ops[k].0 < j2));
        assert(ops[k].0 < j);
    }
}

/// Apply the operations to the dense row, the last first, only those whose
/// first column is marked (the others leave the row alone). `false` where a
/// new value leaves the range of `i32`.
#[verifier::rlimit(60)]
fn apply_ops(ops: &Vec<Op>, st: &Vec<usize>, oi: &Vec<usize>, y: usize, sl: &Vec<u64>, cols: &Vec<u32>, vals: &Vec<i32>, dv: &mut Vec<i32>, Ghost(mk): Ghost<Seq<bool>>) -> (ok: bool)
    requires
        y + 2 <= usize::MAX,
        op_tables(ops@, st@, oi@, y as int),
        marked_ok(op_ints(ops@), mk, sl@, cols@, y as int),
        old(dv)@.len() == y + 1,
        forall|c: int| 0 <= c <= y ==> #[trigger] old(dv)@[c] == gval(cols@, vals@, c, cols@.len() as int),
    ensures
        ok == row_fits(cols@, vals@, op_ints(ops@)),
        final(dv)@.len() == y + 1,
        ok ==> forall|c: int| 0 <= c <= y ==> #[trigger] final(dv)@[c] == (if in_set(mk, c) { after(cols@, vals@, op_ints(ops@), 0, c) } else { 0 }),
{
    let ghost f = op_ints(ops@);
    let n = ops.len();
    proof {
        assert forall|c: int| 0 <= c <= y && !in_set(mk, c) implies #[trigger] dv@[c] == 0 by {
            assert forall|p: int| 0 <= p < cols@.len() implies #[trigger] cols@[p] != c by {
                assert(in_set(mk, cols@[p] as int));
            }
            lemma_gval_zero(cols@, vals@, c, cols@.len() as int);
        }
    }
    let mut idx = sl.len();
    let mut e_cur = n;
    while idx > 0
        invariant
            y + 2 <= usize::MAX,
            op_tables(ops@, st@, oi@, y as int),
            marked_ok(f, mk, sl@, cols@, y as int),
            f == op_ints(ops@),
            n == ops@.len(),
            dv@.len() == y + 1,
            idx <= sl@.len(),
            e_cur == (if idx == sl@.len() { n } else { st@[sl@[idx as int] as int] }),
            e_cur <= n,
            forall|c: int| 0 <= c <= y && in_set(mk, c) ==> #[trigger] dv@[c] == after(cols@, vals@, f, e_cur as int, c),
            forall|c: int| 0 <= c <= y && !in_set(mk, c) ==> #[trigger] dv@[c] == 0,
            forall|k: int| e_cur <= k < n ==> #[trigger] op_fits(cols@, vals@, f, k),
        decreases idx,
    {
        let c = sl[idx - 1] as usize;
        proof {
            assert(sl@[idx - 1] <= y);
        }
        let lo = st[c];
        let hi = st[c + 1];
        proof {
            lemma_starts_monotone(ops@, st@, y as int, c as int, c + 1);
            if idx < sl@.len() {
                assert(sl@[idx - 1] < sl@[idx as int]);
                lemma_starts_monotone(ops@, st@, y as int, c + 1, sl@[idx as int] as int);
                lemma_no_marked_between(f, mk, sl@, cols@, y as int, c + 1, sl@[idx as int] as int, idx - 1);
            } else {
                lemma_no_marked_between(f, mk, sl@, cols@, y as int, c + 1, y + 1, idx - 1);
            }
            assert forall|k: int| hi <= k < e_cur implies !in_set(mk, #[trigger] f[k].0) by {
                assert(!(ops@[k].0 < c + 1));
                assert(ops@[k].0 <= y);
                if idx < sl@.len() {
                    assert(ops@[k].0 < sl@[idx as int]);
                }
            }
            lemma_skip(cols@, vals@, f, mk, hi as int, e_cur as int);
        }
        let mut k = hi;
        while k > lo
            invariant
                op_tables(ops@, st@, oi@, y as int),
                marked_ok(f, mk, sl@, cols@, y as int),
                f == op_ints(ops@),
                n == ops@.len(),
                dv@.len() == y + 1,
                c <= y,
                lo == st@[c as int],
                hi == st@[c + 1],
                hi <= n,
                lo <= k <= hi,
                in_set(mk, c as int),
                forall|c2: int| 0 <= c2 <= y && in_set(mk, c2) ==> #[trigger] dv@[c2] == after(cols@, vals@, f, k as int, c2),
                forall|c2: int| 0 <= c2 <= y && !in_set(mk, c2) ==> #[trigger] dv@[c2] == 0,
                forall|t: int| k <= t < n ==> #[trigger] op_fits(cols@, vals@, f, t),
            decreases k,
        {
            k = k - 1;
            let o = ops[k];
            let j1 = o.1 as usize;
            proof {
                assert(!(ops@[k as int].0 < c) && ops@[k as int].0 < c + 1);
                assert(f[k as int] == (o.0 as int, o.1 as int, o.2 as int, o.3 as int));
                assert(in_set(mk, f[k as int].1));
                assert(o.1 <= y);
            }
            let v0 = dv[c];
            let v1 = dv[j1];
            let p0 = wide_mul(o.3, v0);
            let p1 = wide_mul(o.2, v1);
            if p0 < i32::MIN as i64 || p0 > i32::MAX as i64 || p1 < i32::MIN as i64 || p1 > i32::MAX as i64 || p0 - p1 < i32::MIN as i64 || p0 - p1 > i32::MAX as i64 {
                proof {
                    assert(!op_fits(cols@, vals@, f, k as int));
                    assert(0 <= k < f.len());
                    assert(!row_fits(cols@, vals@, f));
                }
                return false;
            }
            let ghost d0 = dv@;
            dv.set(c, (p0 - p1) as i32);
            proof {
                assert(op_fits(cols@, vals@, f, k as int));
                assert forall|c2: int| 0 <= c2 <= y && in_set(mk, c2) implies #[trigger] dv@[c2] == after(cols@, vals@, f, k as int, c2) by {
                    if c2 != c {
                        assert(dv@[c2] == d0[c2]);
                    }
                }
                assert forall|c2: int| 0 <= c2 <= y && !in_set(mk, c2) implies #[trigger] dv@[c2] == 0 by {
                    assert(dv@[c2] == d0[c2]);
                }
            }
        }
        idx = idx - 1;
        e_cur = lo;
    }
    proof {
        if sl@.len() > 0 {
            lemma_no_marked_between(f, mk, sl@, cols@, y as int, 0, sl@[0] as int, -1);
        } else {
            lemma_no_marked_between(f, mk, sl@, cols@, y as int, 0, y + 1, -1);
        }
        assert forall|k: int| 0 <= k < e_cur implies !in_set(mk, #[trigger] f[k].0) by {
            assert(ops@[k].0 <= y);
            if sl@.len() > 0 {
                assert(ops@[k].0 < sl@[0]);
            }
        }
        lemma_skip(cols@, vals@, f, mk, 0, e_cur as int);
        assert forall|k: int| 0 <= k < f.len() implies #[trigger] op_fits(cols@, vals@, f, k) by {}
    }
    true
}

/// Append the rewritten row: each nonzero value of a kept column, in its new
/// column, in the order of the columns.
#[verifier::rlimit(40)]
fn emit_row(ops: &Vec<Op>, st: &Vec<usize>, oi: &Vec<usize>, newcol: &Vec<u32>, y: usize, row: u32, sl: &Vec<u64>, dv: &Vec<i32>, out: &mut Vec<([u32; 2], i32)>, Ghost(mk): Ghost<Seq<bool>>, Ghost(cols): Ghost<Seq<u32>>, Ghost(vals): Ghost<Seq<i32>>)
    requires
        op_tables(ops@, st@, oi@, y as int),
        marked_ok(op_ints(ops@), mk, sl@, cols, y as int),
        dv@.len() == y + 1,
        forall|c: int| 0 <= c <= y ==> #[trigger] dv@[c] == (if in_set(mk, c) { after(cols, vals, op_ints(ops@), 0, c) } else { 0 }),
        newcol@.len() == y + 1,
        forall|c: int| 0 <= c <= y ==> #[trigger] newcol@[c] == c - removed_below(op_ints(ops@), c, ops@.len() as int),
    ensures
        final(out)@ == old(out)@ + row_out((row as int, cols, vals), op_ints(ops@), y + 1),
{
    let ghost f = op_ints(ops@);
    let ghost g = (row as int, cols, vals);
    let ghost start = out@;
    let nops = ops.len();
    let mut idx: usize = 0;
    while idx < sl.len()
        invariant
            nops == ops@.len(),
            op_tables(ops@, st@, oi@, y as int),
            marked_ok(f, mk, sl@, cols, y as int),
            f == op_ints(ops@),
            g == (row as int, cols, vals),
            dv@.len() == y + 1,
            forall|c: int| 0 <= c <= y ==> #[trigger] dv@[c] == (if in_set(mk, c) { after(cols, vals, f, 0, c) } else { 0 }),
            newcol@.len() == y + 1,
            forall|c: int| 0 <= c <= y ==> #[trigger] newcol@[c] == c - removed_below(f, c, ops@.len() as int),
            idx <= sl@.len(),
            out@ == start + row_out(g, f, if idx == 0 { 0 } else { sl@[idx - 1] + 1 }),
        decreases sl@.len() - idx,
    {
        let c = sl[idx] as usize;
        proof {
            assert(sl@[idx as int] <= y);
            let from: int = if idx == 0 { 0 } else { sl@[idx - 1] + 1 };
            if idx > 0 {
                assert(sl@[idx - 1] < sl@[idx as int]);
            }
            lemma_no_marked_between(f, mk, sl@, cols, y as int, from, sl@[idx as int] as int, idx - 1);
            lemma_row_out_gap(g, f, mk, from, sl@[idx as int] as int);
            assert(sl@.contains(c as u64));
            assert(in_set(mk, c as int));
        }
        let v = dv[c];
        let r = oi[c];
        proof {
            if r != usize::MAX {
                assert(ops@[r as int].1 == c);
                assert(f[r as int].1 == c);
                assert(removed(f, c as int));
            } else {
                assert forall|k: int| 0 <= k < f.len() implies #[trigger] f[k].1 != c by {
                    assert(f[k].1 == ops@[k].1);
                    assert(oi@[ops@[k].1 as int] == k);
                    assert(k < nops);
                }
            }
        }
        if v != 0 && r == usize::MAX {
            let nc = newcol[c];
            out.push(([row, nc], v));
        }
        idx = idx + 1;
    }
    proof {
        let from: int = if idx == 0 { 0 } else { sl@[idx - 1] + 1 };
        lemma_no_marked_between(f, mk, sl@, cols, y as int, from, y + 1, idx - 1);
        lemma_row_out_gap(g, f, mk, from, y + 1);
    }
}

/// Clear the marks and the dense row on the marked columns.
fn reset(sl: &Vec<u64>, mark: &mut Vec<bool>, dv: &mut Vec<i32>, y: usize)
    requires
        old(mark)@.len() == y + 1,
        old(dv)@.len() == y + 1,
        forall|i: int| 0 <= i < sl@.len() ==> #[trigger] sl@[i] <= y,
        forall|c: int| 0 <= c <= y ==> (#[trigger] old(mark)@[c] ==> sl@.contains(c as u64)),
        forall|c: int| 0 <= c <= y ==> (#[trigger] old(dv)@[c] != 0 ==> sl@.contains(c as u64)),
    ensures
        final(mark)@.len() == y + 1,
        final(dv)@.len() == y + 1,
        forall|c: int| 0 <= c <= y ==> !#[trigger] final(mark)@[c],
        forall|c: int| 0 <= c <= y ==> #[trigger] final(dv)@[c] == 0,
{
    let mut idx: usize = 0;
    while idx < sl.len()
        invariant
            mark@.len() == y + 1,
            dv@.len() == y + 1,
            forall|i: int| 0 <= i < sl@.len() ==> #[trigger] sl@[i] <= y,
            idx <= sl@.len(),
            forall|c: int| 0 <= c <= y ==> (#[trigger] mark@[c] ==> exists|i: int| idx <= i < sl@.len() && sl@[i] == c),
            forall|c: int| 0 <= c <= y ==> (#[trigger] dv@[c] != 0 ==> exists|i: int| idx <= i < sl@.len() && sl@[i] == c),
        decreases sl@.len() - idx,
    {
        let c = sl[idx] as usize;
        let ghost m0 = mark@;
        let ghost d0 = dv@;
        mark.set(c, false);
        dv.set(c, 0);
        proof {
            assert forall|c2: int| 0 <= c2 <= y implies (#[trigger] mark@[c2] ==> exists|i: int| idx + 1 <= i < sl@.len() && sl@[i] == c2) by {
                if mark@[c2] {
                    assert(m0[c2]);
                    let i = choose|i: int| idx <= i < sl@.len() && sl@[i] == c2;
                    assert(i != idx);
                }
            }
            assert forall|c2: int| 0 <= c2 <= y implies (#[trigger] dv@[c2] != 0 ==> exists|i: int| idx + 1 <= i < sl@.len() && sl@[i] == c2) by {
                if dv@[c2] != 0 {
                    assert(d0[c2] != 0);
                    let i = choose|i: int| idx <= i < sl@.len() && sl@[i] == c2;
                    assert(i != idx);
                }
            }
        }
        idx = idx + 1;
    }
}

/// Rewrite one row by the chained operations and append it; `false` where a
/// new value leaves the range of `i32`. The marks and the dense row are
/// left clear.
fn rewrite_row(ops: &Vec<Op>, st: &Vec<usize>, oi: &Vec<usize>, newcol: &Vec<u32>, y: usize, row: u32, cols: &Vec<u32>, vals: &Vec<i32>, mark: &mut Vec<bool>, dv: &mut Vec<i32>, out: &mut Vec<([u32; 2], i32)>) -> (ok: bool)
    requires
        y + 2 <= usize::MAX,
        y < u32::MAX,
        op_tables(ops@, st@, oi@, y as int),
        old(mark)@.len() == y + 1,
        forall|c: int| 0 <= c <= y ==> !#[trigger] old(mark)@[c],
        old(dv)@.len() == y + 1,
        forall|c: int| 0 <= c <= y ==> #[trigger] old(dv)@[c] == 0,
        cols@.len() == vals@.len(),
        forall|p: int| 0 <= p < cols@.len() ==> #[trigger] cols@[p] <= y,
        newcol@.len() == y + 1,
        forall|c: int| 0 <= c <= y ==> #[trigger] newcol@[c] == c - removed_below(op_ints(ops@), c, ops@.len() as int),
    ensures
        ok == row_fits(cols@, vals@, op_ints(ops@)),
        ok ==> final(out)@ == old(out)@ + row_out((row as int, cols@, vals@), op_ints(ops@), y + 1),
        ok ==> final(mark)@.len() == y + 1 && forall|c: int| 0 <= c <= y ==> !#[trigger] final(mark)@[c],
        ok ==> final(dv)@.len() == y + 1 && forall|c: int| 0 <= c <= y ==> #[trigger] final(dv)@[c] == 0,
{
    let ghost f = op_ints(ops@);
    let list = closure(ops, st, oi, y, cols, mark);
    let ghost mk = mark@;
    let sl = sorted_columns(list);
    proof {
        assert forall|c: int| 0 <= c <= y implies (#[trigger] mk[c] <==> sl@.contains(c as u64)) by {}
        assert forall|i: int| 0 <= i < sl@.len() implies #[trigger] sl@[i] <= y by {
            assert(sl@.contains(sl@[i]));
            assert(list@.contains(sl@[i]));
            let q = choose|q: int| 0 <= q < list@.len() && list@[q] == sl@[i];
            assert(list@[q] <= y);
        }
        assert(covers(cols@, mk)) by {
            assert forall|p: int| 0 <= p < cols@.len() implies in_set(mk, #[trigger] cols@[p] as int) by {
                assert(mk[cols@[p] as int]);
            }
        }
        assert(marked_ok(f, mk, sl@, cols@, y as int));
    }
    load_row(cols, vals, dv, y);
    let ok = apply_ops(ops, st, oi, y, &sl, cols, vals, dv, Ghost(mk));
    if !ok {
        return false;
    }
    emit_row(ops, st, oi, newcol, y, row, &sl, dv, out, Ghost(mk), Ghost(cols@), Ghost(vals@));
    proof {
        assert forall|c: int| 0 <= c <= y implies (#[trigger] mark@[c] ==> sl@.contains(c as u64)) by {}
        assert forall|c: int| 0 <= c <= y implies (#[trigger] dv@[c] != 0 ==> sl@.contains(c as u64)) by {
            if dv@[c] != 0 {
                assert(in_set(mk, c));
            }
        }
    }
    reset(&sl, mark, dv, y);
    true
}

/// The number of operations among the first `n` whose later column is `c`.
pub open spec fn later_count(f: Seq<(int, int, int, int)>, c: int, n: int) -> nat
    decreases n,
{
    if n <= 0 {
        0
    } else {
        later_count(f, c, n - 1) + if f[n - 1].1 == c {
            1nat
        } else {
            0nat
        }
    }
}

/// The dropped columns below `c + 1` are those below `c` and `c` itself
/// where some operation drops it.
proof fn lemma_removed_step(f: Seq<(int, int, int, int)>, c: int, n: int)
    requires
        0 <= n <= f.len(),
        forall|p: int, q: int| 0 <= p < q < f.len() ==> #[trigger] f[p].1 != #[trigger] f[q].1,
    ensures
        removed_below(f, c + 1, n) == removed_below(f, c, n) + later_count(f, c, n),
        later_count(f, c, n) == (if exists|k: int| 0 <= k < n && #[trigger] f[k].1 == c { 1nat } else { 0nat }),
    decreases n,
{
    if n > 0 {
        lemma_removed_step(f, c, n - 1);
        if f[n - 1].1 == c {
            if exists|k: int| 0 <= k < n - 1 && #[trigger] f[k].1 == c {
                let k = choose|k: int| 0 <= k < n - 1 && #[trigger] f[k].1 == c;
                assert(f[k].1 != f[n - 1].1);
            }
        } else {
            if exists|k: int| 0 <= k < n && #[trigger] f[k].1 == c {
                let k = choose|k: int| 0 <= k < n && #[trigger] f[k].1 == c;
                assert(k != n - 1);
            }
        }
    }
}

/// No column lies below column 0.
proof fn lemma_removed_none(f: Seq<(int, int, int, int)>, n: int)
    requires
        0 <= n <= f.len(),
        forall|k: int| 0 <= k < f.len() ==> #[trigger] f[k].1 >= 0,
    ensures
        removed_below(f, 0, n) == 0,
    decreases n,
{
    if n > 0 {
        lemma_removed_none(f, n - 1);
    }
}

/// Where every dropped column lies below `c`, all of them are counted.
proof fn lemma_removed_all(f: Seq<(int, int, int, int)>, c: int, n: int)
    requires
        0 <= n <= f.len(),
        forall|k: int| 0 <= k < f.len() ==> #[trigger] f[k].1 < c,
    ensures
        removed_below(f, c, n) == n,
    decreases n,
{
    if n > 0 {
        lemma_removed_all(f, c, n - 1);
    }
}

/// The new index of each column past the dropped ones, and the number of
/// dropped columns.
fn build_newcol(ops: &Vec<Op>, oi: &Vec<usize>, y: usize) -> (r: (Vec<u32>, usize))
    requires
        y < u32::MAX,
        distinct_later(ops@),
        oi@.len() == y + 1,
        forall|t: int| 0 <= t < ops@.len() ==> #[trigger] ops@[t].1 <= y && ops@[t].1 >= 1,
        forall|t: int| 0 <= t < ops@.len() ==> #[trigger] oi@[ops@[t].1 as int] == t,
        forall|j: int| 0 <= j <= y && #[trigger] oi@[j] != usize::MAX ==> oi@[j] < ops@.len() && ops@[oi@[j] as int].1 == j,
    ensures
        r.0@.len() == y + 1,
        forall|c: int| 0 <= c <= y ==> #[trigger] r.0@[c] == c - removed_below(op_ints(ops@), c, ops@.len() as int),
        r.1 == ops@.len(),
        r.1 <= y,
{
    let ghost f = op_ints(ops@);
    let ghost n = ops@.len();
    let nops = ops.len();
    proof {
        assert forall|p: int, q: int| 0 <= p < q < f.len() implies #[trigger] f[p].1 != #[trigger] f[q].1 by {
            assert(ops@[p].1 != ops@[q].1);
        }
    }
    let mut nc: Vec<u32> = Vec::new();
    let mut shift: usize = 0;
    let mut c: usize = 0;
    proof {
        lemma_removed_none(f, n as int);
    }
    while c <= y
        invariant
            y < u32::MAX,
            f == op_ints(ops@),
            n == ops@.len(),
            nops == n,
            oi@.len() == y + 1,
            forall|p: int, q: int| 0 <= p < q < f.len() ==> #[trigger] f[p].1 != #[trigger] f[q].1,
            forall|t: int| 0 <= t < ops@.len() ==> #[trigger] ops@[t].1 <= y && ops@[t].1 >= 1,
            forall|t: int| 0 <= t < ops@.len() ==> #[trigger] oi@[ops@[t].1 as int] == t,
            forall|j: int| 0 <= j <= y && #[trigger] oi@[j] != usize::MAX ==> oi@[j] < ops@.len() && ops@[oi@[j] as int].1 == j,
            c <= y + 1,
            nc@.len() == c,
            shift == removed_below(f, c as int, n as int),
            c > 0 ==> shift < c,
            c == 0 ==> shift == 0,
            forall|d: int| 0 <= d < c ==> #[trigger] nc@[d] == d - removed_below(f, d, n as int),
        decreases y + 1 - c,
    {
        proof {
            lemma_removed_step(f, c as int, n as int);
            if oi@[c as int] != usize::MAX {
                assert(f[oi@[c as int] as int].1 == c);
            } else {
                assert forall|k: int| 0 <= k < n implies #[trigger] f[k].1 != c by {
                    assert(f[k].1 == ops@[k].1);
                    assert(oi@[ops@[k].1 as int] == k);
                    assert(k < nops);
                }
            }
            if c == 0 {
                assert(oi@[0] == usize::MAX) by {
                    if oi@[0] != usize::MAX {
                        assert(ops@[oi@[0] as int].1 == 0);
                    }
                }
            }
        }
        nc.push((c - shift) as u32);
        if oi[c] != usize::MAX {
            shift = shift + 1;
        }
        c = c + 1;
    }
    proof {
        assert forall|k: int| 0 <= k < f.len() implies #[trigger] f[k].1 < y + 1 by {
            assert(f[k].1 == ops@[k].1);
        }
        lemma_removed_all(f, y + 1, n as int);
    }
    (nc, shift)
}

/// The columns of the groups lie from 1 to `y`.
proof fn lemma_group_cols(m: Seq<([u32; 2], i32)>, e: int, ri: int, cols: Seq<u32>, vals: Seq<i32>, y: int)
    requires
        0 <= e <= m.len(),
        forall|t: int| e <= t < m.len() ==> 1 <= #[trigger] m[t].0[1] <= y,
        forall|i: int| 0 <= i < cols.len() ==> 1 <= #[trigger] cols[i] <= y,
    ensures
        forall|k: int, i: int| 0 <= k < groups_from(m, e, ri, cols, vals).len() && 0 <= i < groups_from(m, e, ri, cols, vals)[k].1.len() ==> 1 <= #[trigger] groups_from(m, e, ri, cols, vals)[k].1[i] <= y,
    decreases m.len() - e,
{
    let gs = groups_from(m, e, ri, cols, vals);
    if e < m.len() {
        if m[e].0[0] > ri {
            let c1 = seq![m[e].0[1]];
            lemma_group_cols(m, e + 1, m[e].0[0] as int, c1, seq![m[e].1], y);
            let rest = groups_from(m, e + 1, m[e].0[0] as int, c1, seq![m[e].1]);
            assert(gs == seq![(ri, cols, vals)] + rest);
            assert forall|k: int, i: int| 0 <= k < gs.len() && 0 <= i < gs[k].1.len() implies 1 <= #[trigger] gs[k].1[i] <= y by {
                if k > 0 {
                    assert(gs[k] == rest[k - 1]);
                }
            }
        } else {
            let c2 = cols.push(m[e].0[1]);
            assert forall|i: int| 0 <= i < c2.len() implies 1 <= #[trigger] c2[i] <= y by {
                if i < cols.len() {
                    assert(c2[i] == cols[i]);
                }
            }
            lemma_group_cols(m, e + 1, ri, c2, vals.push(m[e].1), y);
            assert(gs == groups_from(m, e + 1, ri, c2, vals.push(m[e].1)));
        }
    } else {
        assert(gs == seq![(ri, cols, vals)]);
        assert forall|k: int, i: int| 0 <= k < gs.len() && 0 <= i < gs[k].1.len() implies 1 <= #[trigger] gs[k].1[i] <= y by {
            assert(gs[k] == (ri, cols, vals));
        }
    }
}

/// An operation's columns lie within the matrix, the later one from 1.
pub open spec fn op_in_range(o: Op, y: int) -> bool {
    o.0 <= y && 1 <= o.1 <= y
}

/// The candidates' columns lie within the matrix.
proof fn lemma_candidates_range(gs: Seq<(int, Seq<u32>, Seq<i32>)>, n: int, y: int)
    requires
        0 <= n <= gs.len(),
        forall|k: int, i: int| 0 <= k < gs.len() && 0 <= i < gs[k].1.len() ==> 1 <= #[trigger] gs[k].1[i] <= y,
    ensures
        forall|t: int| 0 <= t < candidates(gs, n).len() ==> #[trigger] op_in_range(candidates(gs, n)[t], y),
    decreases n,
{
    if n > 0 {
        lemma_candidates_range(gs, n - 1, y);
        let prev = candidates(gs, n - 1);
        let cur = candidates(gs, n);
        if gs[n - 1].1.len() == 2 {
            assert(1 <= gs[n - 1].1[0] <= y);
            assert(1 <= gs[n - 1].1[1] <= y);
            assert forall|t: int| 0 <= t < cur.len() implies #[trigger] op_in_range(cur[t], y) by {
                if t < prev.len() {
                    assert(cur[t] == prev[t]);
                }
            }
        }
    }
}

/// The chained operations keep the tables of their columns.
proof fn lemma_tables_transfer(a: Seq<Op>, b: Seq<Op>, st: Seq<usize>, oi: Seq<usize>, y: int)
    requires
        op_tables(a, st, oi, y),
        same_cols(b, a),
    ensures
        op_tables(b, st, oi, y),
{
    assert forall|k: int, j: int| #![trigger b[k], st[j]] 0 <= k < b.len() && 0 <= j <= y + 1 implies ((b[k].0 < j) <==> (k < st[j])) by {
        assert(b[k].0 == a[k].0);
    }
    assert forall|t: int| 0 <= t < b.len() implies #[trigger] b[t].0 <= y && b[t].1 <= y by {
        assert(b[t].0 == a[t].0 && b[t].1 == a[t].1);
    }
    assert forall|t: int| 0 <= t < b.len() implies #[trigger] oi[b[t].1 as int] == t by {
        assert(b[t].0 == a[t].0);
        assert(b[t].1 == a[t].1);
    }
    assert forall|j: int| 0 <= j <= y && #[trigger] oi[j] != usize::MAX implies oi[j] < b.len() && b[oi[j] as int].1 == j by {
        assert(b[oi[j] as int].0 == a[oi[j] as int].0);
        assert(b[oi[j] as int].1 == a[oi[j] as int].1);
    }
}

/// Merge the columns of rows with two nonzero entries: each such row gives
/// an operation (its two columns and its values divided by their greatest
/// common divisor); for each later column the operation with the smallest
/// coefficients is kept (the first on a tie); the kept operations, sorted,
/// are chained (see `chain_ops`), and every row is rewritten by them (see
/// `row_out`), dropping the later columns and renumbering the others.
///
/// The entries come strictly sorted by row, then by column, with rows from
/// 1 to `dims[0]` and columns from 1 to `dims[1]`, and nonzero values other
/// than the least `i32`. Returns the new dimensions, the matrix untouched
/// where no row has two entries; `None`, with the matrix untouched, where a
/// coefficient or a value leaves the range of `i32`.
pub fn merge_2cols(m: &mut Vec<([u32; 2], i32)>, dims: [usize; 2]) -> (r: Option<[usize; 2]>)
    requires
        dims[0] < u32::MAX,
        dims[1] < u32::MAX,
        dims[1] + 2 <= usize::MAX,
        strictly_sorted(old(m)@),
        forall|e: int| 0 <= e < old(m)@.len() ==> 1 <= #[trigger] old(m)@[e].0[0] <= dims[0],
        forall|e: int| 0 <= e < old(m)@.len() ==> 1 <= #[trigger] old(m)@[e].0[1] <= dims[1],
        forall|e: int| 0 <= e < old(m)@.len() ==> #[trigger] old(m)@[e].1 != 0 && old(m)@[e].1 != i32::MIN,
    ensures
        ({
            let gs = row_list(old(m)@);
            let ops = sorted_ops(old(m)@);
            let f = cascade(op_ints(ops), 0);
            &&& r is Some <==> cascade_fits(op_ints(ops), 0) && (ops.len() == 0 || rows_fit(gs, f, gs.len() as int))
            &&& r matches Some(d) ==> (ops.len() == 0 ==> final(m)@ == old(m)@ && d == dims)
            &&& r matches Some(d) ==> (ops.len() > 0 ==> final(m)@ == merged(gs, f, dims[1] as int, gs.len() as int) && d == [dims[0], (dims[1] - ops.len()) as usize])
            &&& r is None ==> final(m)@ == old(m)@
        }),
{
    let ghost s = m@;
    let x = dims[0];
    let y = dims[1];
    let gs = split_groups(m);
    let ghost gv = group_views(gs@);
    proof {
        lemma_groups(s, 0, 1, Seq::empty(), Seq::empty(), x as int);
        lemma_group_cols(s, 0, 1, Seq::empty(), Seq::empty(), y as int);
        assert(gv == row_list(s));
        assert forall|k: int| 0 <= k < gs@.len() implies #[trigger] gs@[k].1@.len() == gs@[k].2@.len() by {
            assert(gv[k].1 == gs@[k].1@ && gv[k].2 == gs@[k].2@);
        }
        assert forall|k: int, i: int| 0 <= k < gs@.len() && 0 <= i < gs@[k].2@.len() implies #[trigger] gs@[k].2@[i] != 0 && gs@[k].2@[i] != i32::MIN by {
            assert(gv[k].2 == gs@[k].2@);
            assert(gv[k].2[i] == gs@[k].2@[i]);
        }
    }
    let cs = build_candidates(&gs);
    proof {
        lemma_candidates_range(gv, gv.len() as int, y as int);
        assert forall|t: int| 0 <= t < cs@.len() implies #[trigger] cs@[t].1 <= y by {
            assert(op_in_range(cs@[t], y as int));
        }
    }
    let ch = select_best(&cs, y);
    let ghost chs = ch@;
    proof {
        lemma_chosen_members(cs@, cs@.len() as int);
    }
    let mut ops = ch;
    sort_ops(&mut ops);
    proof {
        lemma_op_leq_total();
        chs.lemma_sort_by_ensures(op_leq());
        vstd::seq_lib::lemma_sorted_unique(ops@, chs.sort_by(op_leq()), op_leq());
        assert(ops@ == sorted_ops(s));
        lemma_sorted_distinct(chs, ops@);
        assert forall|t: int| 0 <= t < ops@.len() implies #[trigger] op_in_range(ops@[t], y as int) by {
            assert(ops@.to_multiset().contains(ops@[t]));
            assert(chs.contains(ops@[t]));
            let q = choose|q: int| 0 <= q < chs.len() && chs[q] == ops@[t];
            assert(best_member(cs@, cs@.len() as int, chs[q]));
            let u = choose|u: int| 0 <= u < cs@.len() && is_best(cs@, u) && #[trigger] cs@[u] == chs[q];
            assert(op_in_range(cs@[u], y as int));
        }
    }
    if ops.len() == 0 {
        return Some(dims);
    }
    let ghost sorted0 = ops@;
    proof {
        assert forall|t: int| 0 <= t < ops@.len() implies #[trigger] ops@[t].1 <= y by {
            assert(op_in_range(ops@[t], y as int));
        }
        assert forall|t: int| 0 <= t < ops@.len() implies #[trigger] ops@[t].0 <= y by {
            assert(op_in_range(ops@[t], y as int));
        }
    }
    let oi = build_opindex(&ops, y);
    let st = build_op_starts(&ops, y);
    proof {
        assert forall|t: int| 0 <= t < ops@.len() implies #[trigger] ops@[t].0 <= y && ops@[t].1 <= y by {
            assert(op_in_range(ops@[t], y as int));
        }
        assert(op_tables(ops@, st@, oi@, y as int));
    }
    let ok = chain_ops(&mut ops, &oi, y);
    if !ok {
        return None;
    }
    proof {
        lemma_cascade_cols(op_ints(sorted0), 0);
        assert(same_cols(ops@, sorted0)) by {
            assert forall|t: int| 0 <= t < ops@.len() implies #[trigger] ops@[t].0 == sorted0[t].0 && ops@[t].1 == sorted0[t].1 by {
                assert(op_ints(ops@)[t] == cascade(op_ints(sorted0), 0)[t]);
                assert(op_ints(sorted0)[t].0 == sorted0[t].0);
            }
        }
        lemma_tables_transfer(sorted0, ops@, st@, oi@, y as int);
        assert(distinct_later(ops@)) by {
            assert forall|p: int, q: int| 0 <= p < q < ops@.len() implies #[trigger] ops@[p].1 != #[trigger] ops@[q].1 by {
                assert(ops@[p].0 == sorted0[p].0);
                assert(ops@[q].0 == sorted0[q].0);
                assert(sorted0[p].1 != sorted0[q].1);
            }
        }
        assert forall|t: int| 0 <= t < ops@.len() implies #[trigger] ops@[t].1 <= y && ops@[t].1 >= 1 by {
            assert(ops@[t].0 == sorted0[t].0);
            assert(op_in_range(sorted0[t], y as int));
        }
    }
    let ghost f = op_ints(ops@);
    let (newcol, nremoved) = build_newcol(&ops, &oi, y);
    let mut mark: Vec<bool> = Vec::new();
    let mut dv: Vec<i32> = Vec::new();
    let mut c: usize = 0;
    while c <= y
        invariant
            y + 2 <= usize::MAX,
            c <= y + 1,
            mark@.len() == c,
            dv@.len() == c,
            forall|d: int| 0 <= d < c ==> !#[trigger] mark@[d],
            forall|d: int| 0 <= d < c ==> #[trigger] dv@[d] == 0,
        decreases y + 1 - c,
    {
        mark.push(false);
        dv.push(0);
        c = c + 1;
    }
    let mut out: Vec<([u32; 2], i32)> = Vec::new();
    let mut gi: usize = 0;
    while gi < gs.len()
        invariant
            y + 2 <= usize::MAX,
            y < u32::MAX,
            s == m@,
            s == old(m)@,
            sorted0 == sorted_ops(s),
            sorted0.len() > 0,
            gv == group_views(gs@),
            gv == row_list(s),
            f == op_ints(ops@),
            f == cascade(op_ints(sorted0), 0),
            op_tables(ops@, st@, oi@, y as int),
            newcol@.len() == y + 1,
            forall|c: int| 0 <= c <= y ==> #[trigger] newcol@[c] == c - removed_below(f, c, ops@.len() as int),
            mark@.len() == y + 1,
            forall|d: int| 0 <= d <= y ==> !#[trigger] mark@[d],
            dv@.len() == y + 1,
            forall|d: int| 0 <= d <= y ==> #[trigger] dv@[d] == 0,
            forall|k: int| 0 <= k < gs@.len() ==> #[trigger] gs@[k].1@.len() == gs@[k].2@.len(),
            forall|k: int, i: int| 0 <= k < gv.len() && 0 <= i < gv[k].1.len() ==> 1 <= #[trigger] gv[k].1[i] <= y,
            gi <= gs@.len(),
            out@ == merged(gv, f, y as int, gi as int),
            rows_fit(gv, f, gi as int),
        decreases gs@.len() - gi,
    {
        let row = gs[gi].0;
        let cols = &gs[gi].1;
        let vals = &gs[gi].2;
        proof {
            assert(gv[gi as int] == (row as int, cols@, vals@));
            assert forall|p: int| 0 <= p < cols@.len() implies #[trigger] cols@[p] <= y by {
                assert(gv[gi as int].1[p] == cols@[p]);
            }
        }
        let ghost before = out@;
        let ok = rewrite_row(&ops, &st, &oi, &newcol, y, row, cols, vals, &mut mark, &mut dv, &mut out);
        if !ok {
            proof {
                assert(gv[gi as int].1 == cols@ && gv[gi as int].2 == vals@);
                assert(!row_fits(gv[gi as int].1, gv[gi as int].2, f));
                assert(!rows_fit(gv, f, gv.len() as int));
            }
            return None;
        }
        proof {
            assert(merged(gv, f, y as int, gi + 1) == merged(gv, f, y as int, gi as int) + row_out(gv[gi as int], f, y + 1));
            assert forall|i: int| 0 <= i < gi + 1 implies row_fits(#[trigger] gv[i].1, gv[i].2, f) by {}
        }
        gi = gi + 1;
    }
    *m = out;
    Some([x, y - nremoved])
}

} // verus!
