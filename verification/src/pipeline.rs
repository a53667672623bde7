//! Pruning a sparse matrix along rows (or columns) until nothing changes,
//! keeping the separator row and the registry of original line numbers.
use vstd::prelude::*;
use crate::sms::{entries_within, new_index, pruned_below, pruned_entries, pruned_line, prune_matrix};

verus! {

/// The dimensions after one pruning step along `by`.
pub open spec fn step_dims(m: Seq<([u32; 2], i32)>, dims: [usize; 2], by: int) -> [usize; 2] {
    [
        (dims[0] - pruned_below(m, by, 0, dims[0] as int)) as usize,
        (dims[1] - pruned_below(m, by, 1, dims[1] as int)) as usize,
    ]
}

/// The original number of line `k` along `d`: the registry's entry where there
/// is a registry, else `k` itself.
pub open spec fn reg_source(reg: Option<(Seq<usize>, Seq<usize>)>, d: int, k: int) -> usize {
    match reg {
        Some(r) => if d == 0 { r.0[k] } else { r.1[k] },
        None => k as usize,
    }
}

/// The registry of the lines along `d` after a pruning step, from the first
/// `k` old lines: `nd` zeros, and each line that stays writes its original
/// number at its new number.
pub open spec fn step_reg_line(m: Seq<([u32; 2], i32)>, by: int, d: int, reg: Option<(Seq<usize>, Seq<usize>)>, nd: nat, k: int) -> Seq<usize>
    decreases k,
{
    if k <= 0 {
        Seq::new(nd, |t: int| 0usize)
    } else {
        let prev = step_reg_line(m, by, d, reg, nd, k - 1);
        if pruned_line(m, by, d, k - 1) {
            prev
        } else {
            prev.update(new_index(m, by, d, k - 1) as int, reg_source(reg, d, k - 1))
        }
    }
}

/// The registry after a pruning step.
pub open spec fn step_reg(m: Seq<([u32; 2], i32)>, dims: [usize; 2], by: int, reg: Option<(Seq<usize>, Seq<usize>)>) -> (Seq<usize>, Seq<usize>) {
    let nd = step_dims(m, dims, by);
    (
        step_reg_line(m, by, 0, reg, nd[0] as nat, dims[0] as int),
        step_reg_line(m, by, 1, reg, nd[1] as nat, dims[1] as int),
    )
}

/// The separator after a pruning step: the new number of the row after it.
pub open spec fn step_sep(m: Seq<([u32; 2], i32)>, by: int, sep: Option<u32>) -> Option<u32> {
    match sep {
        Some(s) => Some(new_index(m, by, 0, s as int)),
        None => None,
    }
}

/// Pruning along `by` until a step changes nothing: the entries, dimensions,
/// separator and registry then (the registry renewed at each step that
/// changed something, where `keep_reg`). `None` where a step prunes the row
/// after the separator, which the next step cannot number.
pub open spec fn prune_fix(
    m: Seq<([u32; 2], i32)>,
    dims: [usize; 2],
    sep: Option<u32>,
    reg: Option<(Seq<usize>, Seq<usize>)>,
    by: int,
    keep_reg: bool,
) -> Option<(Seq<([u32; 2], i32)>, [usize; 2], Option<u32>, Option<(Seq<usize>, Seq<usize>)>)>
    decreases dims[0] + dims[1],
{
    let nd = step_dims(m, dims, by);
    let m2 = pruned_entries(m, by, m.len() as int);
    let s2 = step_sep(m, by, sep);
    if nd[0] == dims[0] && nd[1] == dims[1] {
        Some((m2, dims, s2, reg))
    } else if s2 == Some(u32::MAX) {
        None
    } else {
        proof {
            lemma_pruned_below_le(m, by, 0, dims[0] as int);
            lemma_pruned_below_le(m, by, 1, dims[1] as int);
        }
        prune_fix(m2, nd, s2, if keep_reg { Some(step_reg(m, dims, by, reg)) } else { reg }, by, keep_reg)
    }
}

/// The pruned lines below `k` are at most `k`.
pub proof fn lemma_pruned_below_le(m: Seq<([u32; 2], i32)>, by: int, d: int, k: int)
    ensures
        k >= 0 ==> pruned_below(m, by, d, k) <= k,
    decreases k,
{
    if k > 0 {
        lemma_pruned_below_le(m, by, d, k - 1);
    }
}

/// Between `a` and `b`, at most `b - a` lines are pruned.
proof fn lemma_pruned_between(m: Seq<([u32; 2], i32)>, by: int, d: int, a: int, b: int)
    requires
        0 <= a <= b,
    ensures
        pruned_below(m, by, d, a) <= pruned_below(m, by, d, b),
        pruned_below(m, by, d, b) - pruned_below(m, by, d, a) <= b - a,
    decreases b - a,
{
    if a < b {
        lemma_pruned_between(m, by, d, a, b - 1);
    }
}

/// A line that stays gets a new number below the new count of lines.
proof fn lemma_new_index_below(m: Seq<([u32; 2], i32)>, by: int, d: int, k: int, n: int)
    requires
        0 <= k < n <= u32::MAX,
        !pruned_line(m, by, d, k),
    ensures
        new_index(m, by, d, k) == k - pruned_below(m, by, d, k),
        0 <= k - pruned_below(m, by, d, k) < n - pruned_below(m, by, d, n),
{
    lemma_pruned_below_le(m, by, d, k);
    lemma_pruned_between(m, by, d, k + 1, n);
    assert(pruned_below(m, by, d, k + 1) == pruned_below(m, by, d, k));
}

/// The pruned entries keep the rows and columns below the new dimensions.
proof fn lemma_pruned_within(m: Seq<([u32; 2], i32)>, dims: [usize; 2], by: int, n: int)
    requires
        0 <= n <= m.len(),
        entries_within(m, dims),
        dims[0] <= u32::MAX,
        dims[1] <= u32::MAX,
    ensures
        pruned_entries(m, by, n).len() <= n,
        entries_within(pruned_entries(m, by, n), step_dims(m, dims, by)),
    decreases n,
{
    if n > 0 {
        lemma_pruned_within(m, dims, by, n - 1);
        let prev = pruned_entries(m, by, n - 1);
        let e = m[n - 1];
        let r = new_index(m, by, 0, e.0[0] - 1);
        let c = new_index(m, by, 1, e.0[1] - 1);
        assert(1 <= m[n - 1].0[0] <= dims[0] && 1 <= m[n - 1].0[1] <= dims[1]);
        if r != u32::MAX && c != u32::MAX {
            lemma_new_index_below(m, by, 0, e.0[0] - 1, dims[0] as int);
            lemma_new_index_below(m, by, 1, e.0[1] - 1, dims[1] as int);
            let cur = pruned_entries(m, by, n);
            let nd = step_dims(m, dims, by);
            assert forall|i: int| 0 <= i < cur.len() implies 1 <= (#[trigger] cur[i]).0[0] <= nd[0] && 1 <= cur[i].0[1] <= nd[1] by {
                if i < prev.len() {
                    assert(cur[i] == prev[i]);
                }
            }
        }
    }
}

/// The views of a registry.
pub open spec fn reg_view(reg: Option<[Vec<usize>; 2]>) -> Option<(Seq<usize>, Seq<usize>)> {
    match reg {
        Some(r) => Some((r[0]@, r[1]@)),
        None => None,
    }
}

/// A registry with an entry for each line of the matrix.
pub open spec fn reg_fits(reg: Option<(Seq<usize>, Seq<usize>)>, dims: [usize; 2]) -> bool {
    match reg {
        Some(r) => r.0.len() == dims[0] && r.1.len() == dims[1],
        None => true,
    }
}

/// The registry of the lines along `d` after a step.
fn step_registry_line<const BY: usize>(
    m: Ghost<Seq<([u32; 2], i32)>>,
    d: usize,
    size: usize,
    nsize: usize,
    indices: &Vec<u32>,
    registry: &Option<[Vec<usize>; 2]>,
) -> (r: Vec<usize>)
    requires
        BY < 2,
        d < 2,
        size <= u32::MAX,
        indices@.len() == size,
        forall|k: int| 0 <= k < size ==> #[trigger] indices@[k] == new_index(m@, BY as int, d as int, k),
        nsize == size - pruned_below(m@, BY as int, d as int, size as int),
        reg_view(*registry) matches Some(rv) ==> (if d == 0 { rv.0.len() } else { rv.1.len() }) == size,
    ensures
        r@ == step_reg_line(m@, BY as int, d as int, reg_view(*registry), nsize as nat, size as int),
        r@.len() == nsize,
{
    let mut r: Vec<usize> = Vec::new();
    let mut t: usize = 0;
    while t < nsize
        invariant
            t <= nsize,
            r@ == Seq::new(t as nat, |i: int| 0usize),
        decreases nsize - t,
    {
        r.push(0);
        assert(r@ =~= Seq::new(t as nat + 1, |i: int| 0usize));
        t = t + 1;
    }
    let mut j: usize = 0;
    while j < size
        invariant
            BY < 2,
            d < 2,
            size <= u32::MAX,
            indices@.len() == size,
            forall|k: int| 0 <= k < size ==> #[trigger] indices@[k] == new_index(m@, BY as int, d as int, k),
            nsize == size - pruned_below(m@, BY as int, d as int, size as int),
            reg_view(*registry) matches Some(rv) ==> (if d == 0 { rv.0.len() } else { rv.1.len() }) == size,
            j <= size,
            r@.len() == nsize,
            r@ == step_reg_line(m@, BY as int, d as int, reg_view(*registry), nsize as nat, j as int),
        decreases size - j,
    {
        let idx = indices[j];
        proof {
            if !pruned_line(m@, BY as int, d as int, j as int) {
                lemma_new_index_below(m@, BY as int, d as int, j as int, size as int);
            }
        }
        if idx != u32::MAX {
            let src = match registry {
                Some(rg) => rg[d][j],
                None => j,
            };
            proof {
                assert(src == reg_source(reg_view(*registry), d as int, j as int));
            }
            let ghost before = r@;
            r.set(idx as usize, src);
            proof {
                assert(r@ == before.update(idx as int, src));
            }
        }
        j = j + 1;
    }
    r
}

/// Prune along rows (`BY == 0`) or columns (`BY == 1`) until a step changes
/// nothing, renumbering the separator row and, where `keep_registry`, the
/// registry of original line numbers. `None` where a step prunes the row
/// after the separator.
pub fn prune_to_fixpoint<const BY: usize>(
    m: &mut Vec<([u32; 2], i32)>,
    dims: [usize; 2],
    row_sep: &mut Option<u32>,
    registry: &mut Option<[Vec<usize>; 2]>,
    keep_registry: bool,
) -> (r: Option<[usize; 2]>)
    requires
        BY < 2,
        old(m)@.len() <= u32::MAX,
        dims[0] <= u32::MAX,
        dims[1] <= u32::MAX,
        entries_within(old(m)@, dims),
        *old(row_sep) matches Some(s) ==> s < dims[0],
        reg_fits(reg_view(*old(registry)), dims),
        keep_registry || *old(registry) is None,
    ensures
        match prune_fix(old(m)@, dims, *old(row_sep), reg_view(*old(registry)), BY as int, keep_registry) {
            None => r is None,
            Some((m2, d2, s2, r2)) => r == Some(d2) && final(m)@ == m2 && *final(row_sep) == s2 && reg_view(*final(registry)) == r2,
        },
{
    let ghost goal = prune_fix(old(m)@, dims, *old(row_sep), reg_view(*old(registry)), BY as int, keep_registry);
    let mut dims = dims;
    let mut result: Option<[usize; 2]> = None;
    let mut done = false;
    while !done
        invariant
            BY < 2,
            !done ==> m@.len() <= u32::MAX,
            dims[0] <= u32::MAX,
            dims[1] <= u32::MAX,
            !done ==> entries_within(m@, dims),
            !done ==> (*row_sep matches Some(s) ==> s < dims[0]),
            !done ==> reg_fits(reg_view(*registry), dims),
            keep_registry || *registry is None,
            !done ==> goal == prune_fix(m@, dims, *row_sep, reg_view(*registry), BY as int, keep_registry),
            done ==> match goal {
                None => result is None,
                Some((m2, d2, s2, r2)) => result == Some(d2) && m@ == m2 && *row_sep == s2 && reg_view(*registry) == r2,
            },
        decreases (if done { 0 } else { dims[0] + dims[1] + 1 }),
    {
        let ghost m0 = m@;
        let ghost reg0 = reg_view(*registry);
        let ghost sep0 = *row_sep;
        let (ndims, indices) = prune_matrix::<BY>(m, dims, row_sep);
        proof {
            lemma_pruned_within(m0, dims, BY as int, m0.len() as int);
            lemma_pruned_below_le(m0, BY as int, 0, dims[0] as int);
            lemma_pruned_below_le(m0, BY as int, 1, dims[1] as int);
            assert(ndims == step_dims(m0, dims, BY as int));
        }
        if ndims[0] == dims[0] && ndims[1] == dims[1] {
            proof {
                assert(step_dims(m0, dims, BY as int)[0] == dims[0]);
                assert(step_dims(m0, dims, BY as int)[1] == dims[1]);
                assert(goal == Some((m@, dims, *row_sep, reg_view(*registry))));
            }
            result = Some(dims);
            done = true;
        } else {
            let mut lost = false;
            match *row_sep {
                Some(s) => {
                    if s == u32::MAX {
                        lost = true;
                    } else {
                        proof {
                            let s0 = sep0.unwrap();
                            lemma_new_index_below(m0, BY as int, 0, s0 as int, dims[0] as int);
                        }
                    }
                },
                None => {},
            }
            if lost {
                result = None;
                done = true;
            } else {
                if keep_registry {
                    let r0 = step_registry_line::<BY>(Ghost(m0), 0, dims[0], ndims[0], &indices[0], registry);
                    let r1 = step_registry_line::<BY>(Ghost(m0), 1, dims[1], ndims[1], &indices[1], registry);
                    *registry = Some([r0, r1]);
                    proof {
                        assert(reg_view(*registry) == Some((r0@, r1@)));
                        assert(reg_view(*registry) == Some(step_reg(m0, dims, BY as int, reg0)));
                        assert(reg_fits(reg_view(*registry), ndims));
                    }
                }
                dims = ndims;
            }
        }
    }
    result
}

} // verus!
