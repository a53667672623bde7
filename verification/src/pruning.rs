//! The whole pruning of a sparse matrix in the SMS format: rows with single
//! entries to a fixpoint, then merged columns (rows with two entries) or
//! deleted duplicate rows, again until nothing changes; then rows in
//! linearly dependent triplets, and last the columns with single entries.
//! Where the entries leave the shape that a step needs, the pruning stops.
use vstd::prelude::*;
use crate::dedup::{dedup_upto, delete_duplicate_rows, group_views, row_groups, split_groups};
use crate::merge::{cascade, cascade_fits, merge_2cols, merged, op_ints, row_list, rows_fit, sorted_ops};
use crate::pipeline::{prune_fix, prune_to_fixpoint, reg_fits, reg_view};
use crate::sms::{column_gcd, divide_cols, entries_within};
use crate::triplets::{entry_lt, kept_entries, prune_ld_triplets, row_present, strictly_sorted, well_formed};

verus! {

/// The shape that pruning by single entries takes: the counters fit, every
/// entry lies in the matrix, the separator is a row, and the registry has an
/// entry for each line.
pub open spec fn prunable(m: Seq<([u32; 2], i32)>, dims: [usize; 2], sep: Option<u32>, reg: Option<(Seq<usize>, Seq<usize>)>) -> bool {
    &&& m.len() <= u32::MAX
    &&& dims[0] <= u32::MAX
    &&& dims[1] <= u32::MAX
    &&& entries_within(m, dims)
    &&& (sep matches Some(s) ==> s < dims[0])
    &&& reg_fits(reg, dims)
}

/// The shape that merging columns takes: strictly sorted entries in the
/// matrix, with nonzero values other than the least `i32`.
pub open spec fn mergeable(m: Seq<([u32; 2], i32)>, dims: [usize; 2]) -> bool {
    &&& dims[0] < u32::MAX
    &&& dims[1] < u32::MAX
    &&& dims[1] + 2 <= usize::MAX
    &&& strictly_sorted(m)
    &&& entries_within(m, dims)
    &&& forall|e: int| 0 <= e < m.len() ==> #[trigger] m[e].1 != 0 && m[e].1 != i32::MIN
}

/// The shape that dividing columns takes: columns up to `dims[1]` and no
/// value that is the least `i32`.
pub open spec fn divisible(m: Seq<([u32; 2], i32)>, dims: [usize; 2]) -> bool {
    &&& dims[1] < usize::MAX
    &&& forall|e: int| 0 <= e < m.len() ==> (#[trigger] m[e]).0[1] <= dims[1] && m[e].1 != i32::MIN
}

/// The shape that deleting duplicate rows takes: rows up to `dims[0]`,
/// nonzero values other than the least `i32`, and no processed group of
/// entries without columns.
pub open spec fn dedup_ready(m: Seq<([u32; 2], i32)>, dims: [usize; 2]) -> bool {
    &&& dims[0] < u32::MAX
    &&& forall|e: int| 0 <= e < m.len() ==> #[trigger] m[e].1 != 0 && m[e].1 != i32::MIN
    &&& forall|e: int| 0 <= e < m.len() ==> #[trigger] m[e].0[0] <= dims[0]
    &&& forall|k: int| 0 <= k < row_groups(m, dims[0] as int).len() ==> #[trigger] row_groups(m, dims[0] as int)[k].1.len() > 0
}

/// The shape that deleting rows of dependent triplets takes.
pub open spec fn triplet_ready(m: Seq<([u32; 2], i32)>, dims: [usize; 2]) -> bool {
    &&& dims[0] < u32::MAX
    &&& dims[1] < u32::MAX
    &&& dims[0] + 2 <= usize::MAX
    &&& dims[1] + 1 <= usize::MAX
    &&& well_formed(m, dims[0] as int, dims[1] as int)
}

/// Merging columns: `None` where a coefficient or value leaves the range of
/// `i32`; else the entries and dimensions after it.
pub open spec fn merge_step(m: Seq<([u32; 2], i32)>, dims: [usize; 2]) -> Option<(Seq<([u32; 2], i32)>, [usize; 2])> {
    let gs = row_list(m);
    let ops = sorted_ops(m);
    let f = cascade(op_ints(ops), 0);
    if !(cascade_fits(op_ints(ops), 0) && (ops.len() == 0 || rows_fit(gs, f, gs.len() as int))) {
        None
    } else if ops.len() == 0 {
        Some((m, dims))
    } else {
        Some((merged(gs, f, dims[1] as int, gs.len() as int), [dims[0], (dims[1] - ops.len()) as usize]))
    }
}

/// Each value divided by the greatest common divisor of its column, where
/// that is more than 1.
pub open spec fn divided(m: Seq<([u32; 2], i32)>) -> Seq<([u32; 2], i32)> {
    Seq::new(m.len(), |e: int| {
        let d = column_gcd(m, m[e].0[1] as int, m.len() as int) as int;
        (m[e].0, if d > 1 { (m[e].1 as int / d) as i32 } else { m[e].1 })
    })
}

/// Deleting duplicate rows: `None` where a combination leaves the range of
/// `i32` or vanishes; else the entries, the rows left and whether a row was
/// combined.
pub open spec fn dedup_step(m: Seq<([u32; 2], i32)>, dims: [usize; 2]) -> Option<(Seq<([u32; 2], i32)>, usize, bool)> {
    let gs = row_groups(m, dims[0] as int);
    let st = dedup_upto(gs, gs.len() as int);
    if st.4 {
        Some((st.3, (dims[0] - st.1) as usize, st.2))
    } else {
        None
    }
}

/// Entry `e` breaks the shape that pruning by single entries takes.
fn outside(t: [u32; 2], dims: [usize; 2]) -> (r: bool)
    ensures
        r == !(1 <= t[0] <= dims[0] && 1 <= t[1] <= dims[1]),
{
    t[0] < 1 || t[0] as usize > dims[0] || t[1] < 1 || t[1] as usize > dims[1]
}

/// Whether the entries, dimensions, separator and registry have the shape
/// that pruning by single entries takes.
pub fn check_prunable(m: &Vec<([u32; 2], i32)>, dims: [usize; 2], sep: Option<u32>, reg: &Option<[Vec<usize>; 2]>) -> (r: bool)
    ensures
        r == prunable(m@, dims, sep, reg_view(*reg)),
{
    if m.len() > 0xffff_ffff || dims[0] > 0xffff_ffff || dims[1] > 0xffff_ffff {
        return false;
    }
    match sep {
        Some(s) => {
            if s as usize >= dims[0] {
                return false;
            }
        },
        None => {},
    }
    match reg {
        Some(rg) => {
            if rg[0].len() != dims[0] || rg[1].len() != dims[1] {
                return false;
            }
        },
        None => {},
    }
    let mut e: usize = 0;
    while e < m.len()
        invariant
            e <= m@.len(),
            forall|a: int| 0 <= a < e ==> 1 <= (#[trigger] m@[a]).0[0] <= dims[0] && 1 <= m@[a].0[1] <= dims[1],
        decreases m@.len() - e,
    {
        if outside(m[e].0, dims) {
            return false;
        }
        e = e + 1;
    }
    true
}

/// Whether the entries have the shape that merging columns takes.
pub fn check_mergeable(m: &Vec<([u32; 2], i32)>, dims: [usize; 2]) -> (r: bool)
    ensures
        r == mergeable(m@, dims),
{
    if dims[0] >= 0xffff_ffff || dims[1] >= 0xffff_ffff || dims[1] > usize::MAX - 2 {
        return false;
    }
    let mut e: usize = 0;
    while e < m.len()
        invariant
            e <= m@.len(),
            forall|a: int, b: int| 0 <= a < b < e ==> entry_lt(#[trigger] m@[a], #[trigger] m@[b]),
            forall|a: int| 0 <= a < e ==> 1 <= (#[trigger] m@[a]).0[0] <= dims[0] && 1 <= m@[a].0[1] <= dims[1],
            forall|a: int| 0 <= a < e ==> #[trigger] m@[a].1 != 0 && m@[a].1 != i32::MIN,
        decreases m@.len() - e,
    {
        let (t, v) = m[e];
        if outside(t, dims) || v == 0 || v == i32::MIN {
            return false;
        }
        if e > 0 {
            let (p, _) = m[e - 1];
            if !(p[0] < t[0] || (p[0] == t[0] && p[1] < t[1])) {
                assert(!strictly_sorted(m@)) by {
                    assert(!entry_lt(m@[e - 1], m@[e as int]));
                }
                return false;
            }
            assert forall|a: int, b: int| 0 <= a < b < e + 1 implies entry_lt(#[trigger] m@[a], #[trigger] m@[b]) by {
                if b == e && a < e - 1 {
                    assert(entry_lt(m@[a], m@[e - 1]));
                }
            }
        }
        e = e + 1;
    }
    true
}

/// Whether the entries have the shape that dividing columns takes.
pub fn check_divisible(m: &Vec<([u32; 2], i32)>, dims: [usize; 2]) -> (r: bool)
    ensures
        r == divisible(m@, dims),
{
    if dims[1] == usize::MAX {
        return false;
    }
    let mut e: usize = 0;
    while e < m.len()
        invariant
            e <= m@.len(),
            forall|a: int| 0 <= a < e ==> (#[trigger] m@[a]).0[1] <= dims[1] && m@[a].1 != i32::MIN,
        decreases m@.len() - e,
    {
        if m[e].0[1] as usize > dims[1] || m[e].1 == i32::MIN {
            return false;
        }
        e = e + 1;
    }
    true
}

/// Whether the entries have the shape that deleting duplicate rows takes.
pub fn check_dedup_ready(m: &Vec<([u32; 2], i32)>, dims: [usize; 2]) -> (r: bool)
    ensures
        r == dedup_ready(m@, dims),
{
    if dims[0] >= 0xffff_ffff {
        return false;
    }
    let mut e: usize = 0;
    while e < m.len()
        invariant
            e <= m@.len(),
            forall|a: int| 0 <= a < e ==> #[trigger] m@[a].1 != 0 && m@[a].1 != i32::MIN,
            forall|a: int| 0 <= a < e ==> #[trigger] m@[a].0[0] <= dims[0],
        decreases m@.len() - e,
    {
        if m[e].1 == 0 || m[e].1 == i32::MIN || m[e].0[0] as usize > dims[0] {
            return false;
        }
        e = e + 1;
    }
    let gs = split_groups(m);
    let ghost g = group_views(gs@);
    let ghost rg = row_groups(m@, dims[0] as int);
    proof {
        crate::dedup::lemma_groups(m@, 0, 1, Seq::empty(), Seq::empty(), dims[0] as int);
        assert(g.len() >= 1);
    }
    let last = gs[gs.len() - 1].0;
    let n = if (last as usize) < dims[0] + 1 { gs.len() } else { gs.len() - 1 };
    proof {
        assert(g.last().0 == last);
        assert(rg.len() == n);
        assert forall|k: int| 0 <= k < n implies #[trigger] rg[k] == g[k] by {}
    }
    let mut k: usize = 0;
    while k < n
        invariant
            n <= gs@.len(),
            g == group_views(gs@),
            rg == row_groups(m@, dims[0] as int),
            rg.len() == n,
            forall|i: int| 0 <= i < n ==> #[trigger] rg[i] == g[i],
            k <= n,
            forall|i: int| 0 <= i < k ==> #[trigger] rg[i].1.len() > 0,
        decreases n - k,
    {
        proof {
            assert(g[k as int].1 == gs@[k as int].1@);
        }
        if gs[k].1.len() == 0 {
            assert(rg[k as int].1.len() == 0);
            assert(!dedup_ready(m@, dims)) by {
                assert(row_groups(m@, dims[0] as int)[k as int].1.len() == 0);
            }
            return false;
        }
        k = k + 1;
    }
    true
}

/// Whether the entries have the shape that deleting rows of dependent
/// triplets takes.
pub fn check_triplet_ready(m: &Vec<([u32; 2], i32)>, dims: [usize; 2]) -> (r: bool)
    ensures
        r == triplet_ready(m@, dims),
{
    if dims[0] >= 0xffff_ffff || dims[1] >= 0xffff_ffff || dims[0] > usize::MAX - 2 || dims[1] > usize::MAX - 1 {
        return false;
    }
    let x = dims[0];
    let y = dims[1];
    let mut present: Vec<bool> = Vec::new();
    let mut r: usize = 0;
    while r <= x
        invariant
            x < 0xffff_ffff,
            r <= x + 1,
            present@.len() == r,
            forall|i: int| 0 <= i < r ==> !#[trigger] present@[i],
        decreases x + 1 - r,
    {
        present.push(false);
        r = r + 1;
    }
    let mut e: usize = 0;
    while e < m.len()
        invariant
            x == dims[0],
            y == dims[1],
            x < 0xffff_ffff,
            present@.len() == x + 1,
            e <= m@.len(),
            forall|a: int, b: int| 0 <= a < b < e ==> entry_lt(#[trigger] m@[a], #[trigger] m@[b]),
            forall|a: int| 0 <= a < e ==> 1 <= #[trigger] m@[a].0[0] <= x,
            forall|a: int| 0 <= a < e ==> #[trigger] m@[a].0[1] <= y,
            forall|a: int| 0 <= a < e ==> #[trigger] m@[a].1 != 0 && m@[a].1 != i32::MIN,
            forall|i: int| 0 <= i <= x ==> (#[trigger] present@[i] <==> exists|a: int| 0 <= a < e && #[trigger] m@[a].0[0] == i),
        decreases m@.len() - e,
    {
        let (t, v) = m[e];
        if t[0] < 1 || t[0] as usize > x || t[1] as usize > y || v == 0 || v == i32::MIN {
            return false;
        }
        if e > 0 {
            let (p, _) = m[e - 1];
            if !(p[0] < t[0] || (p[0] == t[0] && p[1] < t[1])) {
                assert(!strictly_sorted(m@)) by {
                    assert(!entry_lt(m@[e - 1], m@[e as int]));
                }
                return false;
            }
            assert forall|a: int, b: int| 0 <= a < b < e + 1 implies entry_lt(#[trigger] m@[a], #[trigger] m@[b]) by {
                if b == e && a < e - 1 {
                    assert(entry_lt(m@[a], m@[e - 1]));
                }
            }
        }
        let ghost before = present@;
        present.set(t[0] as usize, true);
        proof {
            assert forall|i: int| 0 <= i <= x implies (#[trigger] present@[i] <==> exists|a: int| 0 <= a < e + 1 && #[trigger] m@[a].0[0] == i) by {
                if i == t[0] {
                    assert(m@[e as int].0[0] == i);
                } else {
                    assert(present@[i] == before[i]);
                    if exists|a: int| 0 <= a < e + 1 && #[trigger] m@[a].0[0] == i {
                        let a = choose|a: int| 0 <= a < e + 1 && #[trigger] m@[a].0[0] == i;
                        assert(a < e);
                    }
                }
            }
        }
        e = e + 1;
    }
    let mut i: usize = 1;
    while i <= x
        invariant
            x == dims[0],
            x < 0xffff_ffff,
            present@.len() == x + 1,
            1 <= i <= x + 1,
            forall|j: int| 0 <= j <= x ==> (#[trigger] present@[j] <==> exists|a: int| 0 <= a < m@.len() && #[trigger] m@[a].0[0] == j),
            forall|j: int| 1 <= j < i ==> #[trigger] row_present(m@, j),
        decreases x + 1 - i,
    {
        if !present[i] {
            assert(!row_present(m@, i as int));
            return false;
        }
        i = i + 1;
    }
    true
}

/// The rounds of deleting duplicate rows allowed: one more than the entries,
/// as each round that combines a row leaves fewer entries.
pub open spec fn dedup_fuel(len: usize) -> usize {
    len.saturating_add(1)
}

/// The rounds of pruning allowed: the entries and the columns, and one more.
pub open spec fn round_fuel(len: usize, cols: usize) -> usize {
    len.saturating_add(cols).saturating_add(1)
}

/// Deleting duplicate rows until no row is combined, with at most `fuel`
/// rounds: the entries, the dimensions, and whether a row was combined at
/// all. `None` where a round lacks its shape, a combination fails, or the
/// rounds run out.
pub open spec fn dedup_rounds(m: Seq<([u32; 2], i32)>, dims: [usize; 2], fuel: nat) -> Option<(Seq<([u32; 2], i32)>, [usize; 2], bool)>
    decreases fuel,
{
    if fuel == 0 || !dedup_ready(m, dims) {
        None
    } else {
        match dedup_step(m, dims) {
            None => None,
            Some((m2, rows, elim)) => {
                let d2 = [rows, dims[1]];
                if !elim {
                    Some((m2, d2, false))
                } else {
                    match dedup_rounds(m2, d2, (fuel - 1) as nat) {
                        None => None,
                        Some((m3, d3, _)) => Some((m3, d3, true)),
                    }
                }
            }
        }
    }
}

/// The rounds of pruning, at most `fuel` of them: rows with single entries
/// to a fixpoint; then, where `twocol`, merging columns, and where that
/// drops columns, dividing the columns and another round; else deleting
/// duplicate rows, and another round where a row was combined. `None` where
/// a step lacks its shape or fails, or the rounds run out.
pub open spec fn prune_rounds(
    m: Seq<([u32; 2], i32)>,
    dims: [usize; 2],
    sep: Option<u32>,
    reg: Option<(Seq<usize>, Seq<usize>)>,
    twocol: bool,
    keep: bool,
    fuel: nat,
) -> Option<(Seq<([u32; 2], i32)>, [usize; 2], Option<u32>, Option<(Seq<usize>, Seq<usize>)>)>
    decreases fuel,
{
    if fuel == 0 || !prunable(m, dims, sep, reg) || !(keep || reg is None) {
        None
    } else {
        match prune_fix(m, dims, sep, reg, 0, keep) {
            None => None,
            Some((m1, d1, s1, r1)) => {
                let st = if !twocol {
                    Some((m1, d1))
                } else if mergeable(m1, d1) {
                    merge_step(m1, d1)
                } else {
                    None
                };
                match st {
                    None => None,
                    Some((m2, d2)) => {
                        if d2 != d1 {
                            if divisible(m2, d2) {
                                prune_rounds(divided(m2), d2, s1, r1, twocol, keep, (fuel - 1) as nat)
                            } else {
                                None
                            }
                        } else {
                            match dedup_rounds(m2, d2, dedup_fuel(m2.len() as usize) as nat) {
                                None => None,
                                Some((m3, d3, rep)) => {
                                    if rep {
                                        prune_rounds(m3, d3, s1, r1, twocol, keep, (fuel - 1) as nat)
                                    } else {
                                        Some((m3, d3, s1, r1))
                                    }
                                }
                            }
                        }
                    }
                }
            }
        }
    }
}

/// The row of the last entry, 0 where there is none.
pub open spec fn last_row(m: Seq<([u32; 2], i32)>) -> usize {
    if m.len() == 0 { 0 } else { m.last().0[0] as usize }
}

/// The whole pruning: the rounds from no registry, then the rows of
/// dependent triplets, then, unless `nocols`, the columns with single
/// entries to a fixpoint. The result holds the entries, the dimensions, the
/// rank found (the columns dropped before the columns are pruned, and the
/// rows dropped by that), the separator and the registry; `None` where a
/// step lacks its shape or fails, or the rounds run out.
pub open spec fn pipeline_result(
    m: Seq<([u32; 2], i32)>,
    dims: [usize; 2],
    sep: Option<u32>,
    twocol: bool,
    nocols: bool,
    keep: bool,
) -> Option<(Seq<([u32; 2], i32)>, [usize; 2], usize, Option<u32>, Option<(Seq<usize>, Seq<usize>)>)> {
    match prune_rounds(m, dims, sep, None, twocol, keep, round_fuel(m.len() as usize, dims[1]) as nat) {
        None => None,
        Some((m1, d1, s1, r1)) => {
            if !triplet_ready(m1, d1) {
                None
            } else {
                let m2 = kept_entries(m1, m1.len() as int);
                let d2 = [last_row(m2), d1[1]];
                let rank = dims[1].saturating_sub(d1[1]);
                if nocols {
                    Some((m2, d2, rank, s1, r1))
                } else if !prunable(m2, d2, s1, r1) || !(keep || r1 is None) {
                    None
                } else {
                    match prune_fix(m2, d2, s1, r1, 1, keep) {
                        None => None,
                        Some((m3, d3, s3, r3)) => Some((m3, d3, rank.saturating_add(d2[0].saturating_sub(d3[0])), s3, r3)),
                    }
                }
            }
        }
    }
}

/// Dividing the columns gives `divided`.
fn divide_step(m: &mut Vec<([u32; 2], i32)>, dims: [usize; 2])
    requires
        divisible(old(m)@, dims),
    ensures
        final(m)@ == divided(old(m)@),
{
    let ghost m0 = m@;
    divide_cols(m, dims);
    proof {
        assert forall|e: int| 0 <= e < m0.len() implies #[trigger] m@[e] == divided(m0)[e] by {
            let d = column_gcd(m0, m0[e].0[1] as int, m0.len() as int) as int;
            if d > 1 {
                let f = m@[e].1 as int;
                vstd::arithmetic::mul::lemma_mul_is_commutative(f, d);
                vstd::arithmetic::div_mod::lemma_div_multiples_vanish(f, d);
                assert(m0[e].1 as int / d == f);
            }
        }
        assert(m@ =~= divided(m0));
    }
}

/// Deleting duplicate rows until no row is combined, as `dedup_rounds`
/// says: the dimensions and whether a row was combined.
fn dedup_until_stable(m: &mut Vec<([u32; 2], i32)>, dims: [usize; 2], fuel: usize) -> (r: Option<([usize; 2], bool)>)
    ensures
        match dedup_rounds(old(m)@, dims, fuel as nat) {
            None => r is None,
            Some((m2, d2, rep)) => r == Some((d2, rep)) && final(m)@ == m2,
        },
    decreases fuel,
{
    if fuel == 0 || !check_dedup_ready(m, dims) {
        return None;
    }
    match delete_duplicate_rows(m, dims) {
        None => None,
        Some((rows, elim)) => {
            let d2 = [rows, dims[1]];
            if !elim {
                Some((d2, false))
            } else {
                match dedup_until_stable(m, d2, fuel - 1) {
                    None => None,
                    Some((d3, _)) => Some((d3, true)),
                }
            }
        },
    }
}

/// The rounds of pruning, as `prune_rounds` says.
#[verifier::rlimit(60)]
fn prune_in_rounds(
    m: &mut Vec<([u32; 2], i32)>,
    dims: [usize; 2],
    sep: &mut Option<u32>,
    reg: &mut Option<[Vec<usize>; 2]>,
    twocol: bool,
    keep: bool,
    fuel: usize,
) -> (r: Option<[usize; 2]>)
    ensures
        match prune_rounds(old(m)@, dims, *old(sep), reg_view(*old(reg)), twocol, keep, fuel as nat) {
            None => r is None,
            Some((m2, d2, s2, r2)) => r == Some(d2) && final(m)@ == m2 && *final(sep) == s2 && reg_view(*final(reg)) == r2,
        },
    decreases fuel,
{
    if fuel == 0 || !check_prunable(m, dims, *sep, reg) || !(keep || reg.is_none()) {
        return None;
    }
    let ghost m0 = m@;
    let ghost goal = prune_rounds(m0, dims, *sep, reg_view(*reg), twocol, keep, fuel as nat);
    let ghost pf = prune_fix(m0, dims, *sep, reg_view(*reg), 0, keep);
    let d1 = match prune_to_fixpoint::<0>(m, dims, sep, reg, keep) {
        None => {
            return None;
        },
        Some(d) => d,
    };
    let ghost m1 = m@;
    let ghost s1 = *sep;
    let ghost r1 = reg_view(*reg);
    assert(pf == Some((m1, d1, s1, r1)));
    let ghost st = if !twocol {
        Some((m1, d1))
    } else if mergeable(m1, d1) {
        merge_step(m1, d1)
    } else {
        None
    };
    let d2 = if twocol {
        if !check_mergeable(m, d1) {
            assert(goal is None);
            return None;
        }
        match merge_2cols(m, d1) {
            None => {
                assert(goal is None);
                return None;
            },
            Some(d) => d,
        }
    } else {
        d1
    };
    let ghost m2 = m@;
    assert(st == Some((m2, d2)));
    if d2[0] != d1[0] || d2[1] != d1[1] {
        assert(d2 != d1);
        if !check_divisible(m, d2) {
            assert(goal is None);
            return None;
        }
        divide_step(m, d2);
        assert(goal == prune_rounds(divided(m2), d2, s1, r1, twocol, keep, (fuel - 1) as nat));
        prune_in_rounds(m, d2, sep, reg, twocol, keep, fuel - 1)
    } else {
        assert(d2 == d1);
        let f = m.len().saturating_add(1);
        assert(f == dedup_fuel(m2.len() as usize));
        let ghost dr = dedup_rounds(m2, d2, f as nat);
        match dedup_until_stable(m, d2, f) {
            None => {
                assert(goal is None);
                None
            },
            Some((d3, rep)) => {
                if rep {
                    assert(goal == prune_rounds(m@, d3, s1, r1, twocol, keep, (fuel - 1) as nat));
                    prune_in_rounds(m, d3, sep, reg, twocol, keep, fuel - 1)
                } else {
                    assert(goal == Some((m@, d3, s1, r1)));
                    Some(d3)
                }
            },
        }
    }
}

/// Prune the matrix as a whole, as `pipeline_result` says: rows with single
/// entries, merged columns where `twocol` (else duplicate rows), rows of
/// dependent triplets, and the columns with single entries unless `nocols`;
/// the registry of original line numbers is kept where `keep_registry`.
/// Returns the new dimensions, the rank found, the separator and the
/// registry; `None` where a step finds the entries out of its shape or a
/// value leaves the range of `i32`.
#[verifier::rlimit(60)]
pub fn prune_pipeline(
    lines: &mut Vec<([u32; 2], i32)>,
    dims: [usize; 2],
    row_sep: Option<u32>,
    twocol: bool,
    nocols: bool,
    keep_registry: bool,
) -> (r: Option<([usize; 2], usize, Option<u32>, Option<[Vec<usize>; 2]>)>)
    ensures
        match pipeline_result(old(lines)@, dims, row_sep, twocol, nocols, keep_registry) {
            None => r is None,
            Some((m2, d2, rank, s2, r2)) => r matches Some(res) && res.0 == d2 && res.1 == rank && res.2 == s2 && reg_view(res.3) == r2 && final(lines)@ == m2,
        },
{
    let mut sep = row_sep;
    let mut reg: Option<[Vec<usize>; 2]> = None;
    let fuel = lines.len().saturating_add(dims[1]).saturating_add(1);
    let d1 = match prune_in_rounds(lines, dims, &mut sep, &mut reg, twocol, keep_registry, fuel) {
        None => {
            return None;
        },
        Some(d) => d,
    };
    if !check_triplet_ready(lines, d1) {
        return None;
    }
    let rows = prune_ld_triplets(lines, d1);
    let d2 = [rows, d1[1]];
    let rank = dims[1].saturating_sub(d1[1]);
    if nocols {
        return Some((d2, rank, sep, reg));
    }
    if !check_prunable(lines, d2, sep, &reg) || !(keep_registry || reg.is_none()) {
        return None;
    }
    match prune_to_fixpoint::<1>(lines, d2, &mut sep, &mut reg, keep_registry) {
        None => None,
        Some(d3) => Some((d3, rank.saturating_add(d2[0].saturating_sub(d3[0])), sep, reg)),
    }
}

/// The first `n` entries in the rows up to `sep`.
pub open spec fn upper_part(s: Seq<([u32; 2], i32)>, sep: u32, n: int) -> Seq<([u32; 2], i32)>
    decreases n,
{
    if n <= 0 {
        Seq::empty()
    } else {
        let p = upper_part(s, sep, n - 1);
        if s[n - 1].0[0] <= sep { p.push(s[n - 1]) } else { p }
    }
}

/// The first `n` entries in the rows after `sep`, their rows counted from
/// the row after `sep`.
pub open spec fn lower_part(s: Seq<([u32; 2], i32)>, sep: u32, n: int) -> Seq<([u32; 2], i32)>
    decreases n,
{
    if n <= 0 {
        Seq::empty()
    } else {
        let p = lower_part(s, sep, n - 1);
        if s[n - 1].0[0] > sep { p.push(([(s[n - 1].0[0] - sep) as u32, s[n - 1].0[1]], s[n - 1].1)) } else { p }
    }
}

/// Split the entries at the separator row: those in the rows up to `sep`,
/// and those after it with their rows counted from there, in their order.
pub fn split_at_separator(lines: &Vec<([u32; 2], i32)>, sep: u32) -> (r: (Vec<([u32; 2], i32)>, Vec<([u32; 2], i32)>))
    ensures
        r.0@ == upper_part(lines@, sep, lines@.len() as int),
        r.1@ == lower_part(lines@, sep, lines@.len() as int),
{
    let mut upper: Vec<([u32; 2], i32)> = Vec::new();
    let mut lower: Vec<([u32; 2], i32)> = Vec::new();
    let mut e: usize = 0;
    while e < lines.len()
        invariant
            e <= lines@.len(),
            upper@ == upper_part(lines@, sep, e as int),
            lower@ == lower_part(lines@, sep, e as int),
        decreases lines@.len() - e,
    {
        let (t, v) = lines[e];
        if t[0] <= sep {
            upper.push((t, v));
        } else {
            lower.push(([t[0] - sep, t[1]], v));
        }
        e = e + 1;
    }
    (upper, lower)
}

} // verus!
