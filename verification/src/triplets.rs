//! Deleting rows of a sparse integer matrix that are linearly dependent on
//! two later-or-earlier rows: a row `i` and a partner row `ii` sharing a
//! column with it are combined, on the union of their columns, into a third
//! row `r` that contains both pivot columns.
use vstd::prelude::*;
use rustc_hash::FxHashSet;
use crate::fx::{new_row_set, row_set_insert};
use crate::sms::{abs, divides, gcd, gcd_spec};

verus! {

/// Entry `p` comes before entry `q`: by row, then by column.
pub open spec fn entry_lt(p: ([u32; 2], i32), q: ([u32; 2], i32)) -> bool {
    p.0[0] < q.0[0] || (p.0[0] == q.0[0] && p.0[1] < q.0[1])
}

/// The entries are strictly sorted by row, then by column.
pub open spec fn strictly_sorted(s: Seq<([u32; 2], i32)>) -> bool {
    forall|a: int, b: int| 0 <= a < b < s.len() ==> entry_lt(#[trigger] s[a], #[trigger] s[b])
}

/// Entry `e` lies in row `r` and column `c`.
pub open spec fn at(s: Seq<([u32; 2], i32)>, e: int, r: int, c: int) -> bool {
    0 <= e < s.len() && s[e].0[0] == r && s[e].0[1] == c
}

/// The matrix has an entry in row `r` and column `c`.
pub open spec fn filled(s: Seq<([u32; 2], i32)>, r: int, c: int) -> bool {
    exists|e: int| #[trigger] at(s, e, r, c)
}

/// The value in row `r` and column `c`, 0 where there is no entry.
pub open spec fn val(s: Seq<([u32; 2], i32)>, r: int, c: int) -> int {
    if filled(s, r, c) {
        s[choose|e: int| #[trigger] at(s, e, r, c)].1 as int
    } else {
        0
    }
}

/// The entries form a matrix that the pruning accepts: strictly sorted,
/// rows from 1 to `x` each holding an entry, columns up to `y`, and values
/// that are nonzero and not the least `i32`.
pub open spec fn well_formed(s: Seq<([u32; 2], i32)>, x: int, y: int) -> bool {
    &&& strictly_sorted(s)
    &&& forall|e: int| 0 <= e < s.len() ==> 1 <= #[trigger] s[e].0[0] <= x
    &&& forall|e: int| 0 <= e < s.len() ==> #[trigger] s[e].0[1] <= y
    &&& forall|e: int| 0 <= e < s.len() ==> #[trigger] s[e].1 != 0 && s[e].1 != i32::MIN
    &&& forall|r: int| 1 <= r <= x ==> #[trigger] row_present(s, r)
}

/// Some entry lies in row `r`.
pub open spec fn row_present(s: Seq<([u32; 2], i32)>, r: int) -> bool {
    exists|e: int| 0 <= e < s.len() && #[trigger] s[e].0[0] == r
}

/// Column `c` is the first column of row `a` that row `b` lacks.
pub open spec fn missing_first(s: Seq<([u32; 2], i32)>, a: int, b: int, c: int) -> bool {
    &&& filled(s, a, c)
    &&& !filled(s, b, c)
    &&& forall|d: int| d < c && #[trigger] filled(s, a, d) ==> filled(s, b, d)
}

/// The first column of row `a` that row `b` lacks, if any.
pub open spec fn first_missing(s: Seq<([u32; 2], i32)>, a: int, b: int) -> Option<int> {
    if exists|c: int| #[trigger] missing_first(s, a, b, c) {
        Some(choose|c: int| #[trigger] missing_first(s, a, b, c))
    } else {
        None
    }
}

/// Column `c` is the first column of row `b`.
pub open spec fn is_first_col(s: Seq<([u32; 2], i32)>, b: int, c: int) -> bool {
    filled(s, b, c) && forall|d: int| d < c ==> !#[trigger] filled(s, b, d)
}

/// The first column of row `b`.
pub open spec fn first_col(s: Seq<([u32; 2], i32)>, b: int) -> int {
    choose|c: int| #[trigger] is_first_col(s, b, c)
}

/// The ordered pair of rows and their pivot columns: the row with a column
/// the other lacks comes first (row `a0` where both do), its pivot is the
/// first such column, and the pivot of the other row is the first column it
/// has that the first lacks, or else its first column. `None` where the two
/// rows have the same columns.
pub open spec fn pivots(s: Seq<([u32; 2], i32)>, a0: int, b0: int) -> Option<(int, int, int, int)> {
    match first_missing(s, a0, b0) {
        Some(pa) => Some((a0, b0, pa, match first_missing(s, b0, a0) {
            Some(pb) => pb,
            None => first_col(s, b0),
        })),
        None => match first_missing(s, b0, a0) {
            Some(pa) => Some((b0, a0, pa, first_col(s, a0))),
            None => None,
        },
    }
}

/// `mi` times row `a` plus `mii` times row `b` is `g` times row `r` on every
/// column of `a` or `b`.
pub open spec fn combines(s: Seq<([u32; 2], i32)>, a: int, b: int, r: int, g: int, mi: int, mii: int) -> bool {
    forall|c: int|
        #![trigger filled(s, a, c)]
        #![trigger filled(s, b, c)]
        filled(s, a, c) || filled(s, b, c) ==> mi * val(s, a, c) + mii * val(s, b, c) == g * val(s, r, c)
}

/// Row `r`, scaled by the greatest common divisor of the pivot values, is an
/// integer combination of rows `a` and `b` on the columns of `a` and `b`.
pub open spec fn dependent(s: Seq<([u32; 2], i32)>, a: int, b: int, r: int, pa: int, pb: int) -> bool {
    let g = gcd_spec(abs(val(s, a, pa)), abs(val(s, b, pb))) as int;
    exists|mi: int, mii: int| #[trigger] combines(s, a, b, r, g, mi, mii)
}

/// Rows `a0` and `b0`, ordered by `pivots`, have a third row after the first
/// that holds both pivot columns and depends on them.
pub open spec fn found(s: Seq<([u32; 2], i32)>, a0: int, b0: int) -> bool {
    match pivots(s, a0, b0) {
        Some(p) => exists|r: int|
            r > p.0 && filled(s, r, p.2) && filled(s, r, p.3) && #[trigger] dependent(s, p.0, p.1, r, p.2, p.3),
        None => false,
    }
}

/// Row `r` after row `i` shares column `c` with it.
pub open spec fn partner(s: Seq<([u32; 2], i32)>, i: int, c: int, r: int) -> bool {
    filled(s, i, c) && filled(s, r, c) && r > i
}

/// Row `r` shares with row `i` a column before `c`.
pub open spec fn shares_before(s: Seq<([u32; 2], i32)>, i: int, r: int, c: int) -> bool {
    exists|d: int| d < c && filled(s, i, d) && #[trigger] filled(s, r, d)
}

/// Row `i` is deleted: going through its columns in order, and for each the
/// later rows that hold it in order, some partner row completes a dependent
/// triplet before any partner row comes up a second time.
pub open spec fn deleted(s: Seq<([u32; 2], i32)>, i: int) -> bool {
    exists|c: int, r: int|
        #[trigger] partner(s, i, c, r) && found(s, i, r) && !shares_before(s, i, r, c)
            && forall|c2: int, r2: int|
                #[trigger] partner(s, i, c2, r2) && (c2 < c || (c2 == c && r2 < r)) ==> !shares_before(s, i, r2, c2)
}

/// The number of deleted rows below row `i`.
pub open spec fn deleted_below(s: Seq<([u32; 2], i32)>, i: int) -> nat
    decreases i,
{
    if i <= 0 {
        0
    } else {
        deleted_below(s, i - 1) + if deleted(s, i - 1) {
            1nat
        } else {
            0nat
        }
    }
}

/// The first `n` entries without those of deleted rows, each row moved up
/// by the number of deleted rows below it.
pub open spec fn kept_entries(s: Seq<([u32; 2], i32)>, n: int) -> Seq<([u32; 2], i32)>
    decreases n,
{
    if n <= 0 {
        Seq::empty()
    } else {
        let e = s[n - 1];
        let i = e.0[0] as int;
        if deleted(s, i) {
            kept_entries(s, n - 1)
        } else {
            kept_entries(s, n - 1).push(([(i - deleted_below(s, i)) as u32, e.0[1]], e.1))
        }
    }
}

/// The start of each row: entries of row `i` (from 1 to `x`) are those from
/// `st[i]` to `st[i + 1]`; row 0 is empty.
#[verifier::opaque]
pub open spec fn starts_ok(s: Seq<([u32; 2], i32)>, st: Seq<usize>, x: int) -> bool {
    &&& st.len() == x + 2
    &&& st[0] == 0
    &&& st[1] == 0
    &&& st[x + 1] == s.len()
    &&& forall|e: int| 0 <= e < s.len() ==> 1 <= #[trigger] s[e].0[0] <= x
    &&& forall|i: int| 0 <= i <= x + 1 ==> #[trigger] st[i] <= s.len()
    &&& forall|i: int| 1 <= i <= x ==> #[trigger] st[i] < st[i + 1]
    &&& forall|i: int, e: int| #![trigger st[i], s[e]] 1 <= i <= x && st[i] <= e < st[i + 1] ==> s[e].0[0] == i
    &&& forall|e: int| 0 <= e < s.len() ==> st[#[trigger] s[e].0[0] as int] <= e < st[s[e].0[0] + 1]
}

/// The bounds of the row starts.
proof fn lemma_starts_bounds(s: Seq<([u32; 2], i32)>, st: Seq<usize>, x: int, i: int)
    requires
        starts_ok(s, st, x),
        1 <= i <= x,
    ensures
        st.len() == x + 2,
        st[i] < st[i + 1] <= s.len(),
{
    reveal(starts_ok);
}

/// The entries from the start of row `i` to the next lie in row `i`.
proof fn lemma_in_range(s: Seq<([u32; 2], i32)>, st: Seq<usize>, x: int, i: int, e: int)
    requires
        starts_ok(s, st, x),
        1 <= i <= x,
        st[i] <= e < st[i + 1],
    ensures
        s[e].0[0] == i,
{
    reveal(starts_ok);
}

/// Every entry of row `i` lies between the start of row `i` and the next.
proof fn lemma_locate(s: Seq<([u32; 2], i32)>, st: Seq<usize>, x: int, i: int, e: int)
    requires
        starts_ok(s, st, x),
        0 <= e < s.len(),
        s[e].0[0] == i,
    ensures
        1 <= i <= x,
        st[i] <= e < st[i + 1],
{
    reveal(starts_ok);
}

/// The rows holding each column, in increasing order.
pub open spec fn cols_ok(s: Seq<([u32; 2], i32)>, cl: Seq<Seq<u32>>, y: int) -> bool {
    &&& cl.len() == y + 1
    &&& forall|c: int, p: int, q: int| 0 <= c <= y && 0 <= p < q < cl[c].len() ==> #[trigger] cl[c][p] < #[trigger] cl[c][q]
    &&& forall|c: int, p: int| 0 <= c <= y && 0 <= p < cl[c].len() ==> filled(s, #[trigger] cl[c][p] as int, c)
    &&& forall|c: int, r: int| 0 <= c <= y && #[trigger] filled(s, r, c) ==> cl[c].contains(r as u32)
}

/// Where each row starts.
fn build_starts(m: &Vec<([u32; 2], i32)>, x: usize) -> (st: Vec<usize>)
    requires
        x < u32::MAX,
        x + 2 <= usize::MAX,
        well_formed(m@, x as int, 0x1_0000_0000),
    ensures
        starts_ok(m@, st@, x as int),
{
    let ghost s = m@;
    let mut st: Vec<usize> = Vec::new();
    let mut k: usize = 0;
    while k < x + 2
        invariant
            x + 2 <= usize::MAX,
            k <= x + 2,
            st@.len() == k,
            forall|i: int| 0 <= i < k ==> #[trigger] st@[i] == 0,
        decreases x + 2 - k,
    {
        st.push(0);
        k = k + 1;
    }
    let len = m.len();
    let mut prev: u32 = 0;
    let mut e: usize = 0;
    while e < len
        invariant
            s == m@,
            len == s.len(),
            x < u32::MAX,
            well_formed(s, x as int, 0x1_0000_0000),
            st@.len() == x + 2,
            st@[0] == 0,
            e <= len,
            prev <= x,
            e == 0 ==> prev == 0,
            e > 0 ==> prev == s[e - 1].0[0],
            forall|i: int| prev < i < x + 2 ==> #[trigger] st@[i] == 0,
            forall|i: int| 1 <= i <= prev ==> #[trigger] st@[i] < e,
            forall|i: int, f: int| #![trigger st@[i], s[f]] 1 <= i <= prev && 0 <= f < e ==> (s[f].0[0] < i <==> f < st@[i]),
        decreases len - e,
    {
        let r = m[e].0[0];
        if r > prev {
            proof {
                if r > prev + 1 {
                    let r2 = prev + 1;
                    assert(row_present(s, r2 as int));
                    let e2 = choose|e2: int| 0 <= e2 < s.len() && #[trigger] s[e2].0[0] == r2;
                    if e2 < e {
                        if e2 < e - 1 {
                            assert(entry_lt(s[e2], s[e - 1]));
                        }
                    } else if e2 > e {
                        assert(entry_lt(s[e as int], s[e2]));
                    }
                }
            }
            st.set(r as usize, e);
            prev = r;
        }
        proof {
            assert forall|i: int, f: int| #![trigger st@[i], s[f]] 1 <= i <= prev && 0 <= f < e + 1 implies (s[f].0[0] < i <==> f < st@[i]) by {
                if f < e {
                    if f < e - 1 {
                        assert(entry_lt(s[f], s[e - 1]));
                    }
                    if e > 0 {
                        assert(entry_lt(s[e - 1], s[e as int]));
                    }
                }
            }
        }
        e = e + 1;
    }
    proof {
        if len > 0 {
            assert(row_present(s, x as int));
            let e2 = choose|e2: int| 0 <= e2 < s.len() && #[trigger] s[e2].0[0] == x;
            if e2 < len - 1 {
                assert(entry_lt(s[e2], s[len - 1]));
            }
            assert(prev == x);
        } else if x > 0 {
            assert(row_present(s, 1));
            let e2 = choose|e2: int| 0 <= e2 < s.len() && #[trigger] s[e2].0[0] == 1;
        }
    }
    st.set(x + 1, len);
    proof {
        reveal(starts_ok);
        let t = st@;
        assert forall|i: int| 0 <= i <= x + 1 implies #[trigger] t[i] <= s.len() by {}
        assert forall|i: int| 1 <= i <= x implies #[trigger] t[i] < t[i + 1] by {
            assert(row_present(s, i));
            let e2 = choose|e2: int| 0 <= e2 < s.len() && #[trigger] s[e2].0[0] == i;
            assert(t[i] <= e2);
            if i < x {
                assert(e2 < t[i + 1]);
            }
        }
        assert forall|i: int, f: int| #![trigger t[i], s[f]] 1 <= i <= x && t[i] <= f < t[i + 1] implies s[f].0[0] == i by {
            if i < x {
                assert(s[f].0[0] < i + 1);
            }
        }
        assert forall|f: int| 0 <= f < s.len() implies t[#[trigger] s[f].0[0] as int] <= f < t[s[f].0[0] + 1] by {
            let i = s[f].0[0] as int;
            if i < x {
                assert(!(s[f].0[0] < i + 1) == !(f < t[i + 1]));
            }
        }
        if x > 0 && len > 0 {
            assert(!(s[0].0[0] < 1));
        }
    }
    st
}

/// The rows holding each column, in increasing order.
#[verifier::rlimit(40)]
fn build_cols(m: &Vec<([u32; 2], i32)>, y: usize) -> (cl: Vec<Vec<u32>>)
    requires
        y < u32::MAX,
        y + 1 <= usize::MAX,
        strictly_sorted(m@),
        forall|e: int| 0 <= e < m@.len() ==> #[trigger] m@[e].0[1] <= y,
    ensures
        cols_ok(m@, cl@.map_values(|v: Vec<u32>| v@), y as int),
{
    let ghost s = m@;
    let mut cl: Vec<Vec<u32>> = Vec::new();
    let mut k: usize = 0;
    while k < y + 1
        invariant
            y + 1 <= usize::MAX,
            k <= y + 1,
            cl@.len() == k,
            forall|i: int| 0 <= i < k ==> #[trigger] cl@[i]@.len() == 0,
        decreases y + 1 - k,
    {
        cl.push(Vec::new());
        k = k + 1;
    }
    let len = m.len();
    let mut e: usize = 0;
    let ghost mut wit: Seq<Seq<int>> = Seq::new((y + 1) as nat, |c: int| Seq::<int>::empty());
    while e < len
        invariant
            s == m@,
            len == s.len(),
            strictly_sorted(s),
            forall|f: int| 0 <= f < s.len() ==> #[trigger] s[f].0[1] <= y,
            cl@.len() == y + 1,
            wit.len() == y + 1,
            e <= len,
            forall|c: int, p: int, q: int| 0 <= c <= y && 0 <= p < q < cl@[c]@.len() ==> #[trigger] cl@[c]@[p] < #[trigger] cl@[c]@[q],
            forall|c: int| 0 <= c <= y ==> #[trigger] wit[c].len() == cl@[c]@.len(),
            forall|c: int, p: int| #![trigger wit[c][p]] 0 <= c <= y && 0 <= p < cl@[c]@.len() ==> 0 <= wit[c][p] < e && at(s, wit[c][p], cl@[c]@[p] as int, c),
            forall|f: int| 0 <= f < e ==> cl@[#[trigger] s[f].0[1] as int]@.contains(s[f].0[0]),
        decreases len - e,
    {
        let (t, _) = m[e];
        let c = t[1] as usize;
        let ghost before = cl@;
        let ghost wit0 = wit;
        cl[c].push(t[0]);
        proof {
            wit = wit.update(c as int, wit[c as int].push(e as int));
            assert forall|c2: int, p: int, q: int| 0 <= c2 <= y && 0 <= p < q < cl@[c2]@.len() implies #[trigger] cl@[c2]@[p] < #[trigger] cl@[c2]@[q] by {
                if c2 == c && q == cl@[c2]@.len() - 1 {
                    assert(before[c2]@[p] == cl@[c2]@[p]);
                    let f = wit0[c2][p];
                    assert(at(s, f, before[c2]@[p] as int, c2));
                    assert(entry_lt(s[f], s[e as int]));
                }
            }
            assert forall|c2: int| 0 <= c2 <= y implies #[trigger] wit[c2].len() == cl@[c2]@.len() by {
                if c2 != c {
                    assert(wit[c2] == wit0[c2]);
                }
            }
            assert forall|c2: int, p: int| #![trigger wit[c2][p]] 0 <= c2 <= y && 0 <= p < cl@[c2]@.len() implies 0 <= wit[c2][p] < e + 1 && at(s, wit[c2][p], cl@[c2]@[p] as int, c2) by {
                if c2 == c && p == cl@[c2]@.len() - 1 {
                    assert(wit[c2][p] == e);
                } else {
                    assert(cl@[c2]@[p] == before[c2]@[p]);
                    assert(wit[c2][p] == wit0[c2][p]);
                }
            }
            assert forall|f: int| 0 <= f < e + 1 implies cl@[#[trigger] s[f].0[1] as int]@.contains(s[f].0[0]) by {
                if f < e {
                    let c2 = s[f].0[1] as int;
                    let p = choose|p: int| 0 <= p < before[c2]@.len() && before[c2]@[p] == s[f].0[0];
                    assert(cl@[c2]@[p] == before[c2]@[p]);
                } else {
                    assert(cl@[c as int]@[cl@[c as int]@.len() - 1] == t[0]);
                }
            }
        }
        e = e + 1;
    }
    proof {
        let v = cl@.map_values(|v: Vec<u32>| v@);
        assert forall|c2: int, p: int| 0 <= c2 <= y && 0 <= p < v[c2].len() implies filled(s, #[trigger] v[c2][p] as int, c2) by {
            assert(v[c2] == cl@[c2]@);
            assert(at(s, wit[c2][p], cl@[c2]@[p] as int, c2));
        }
        assert forall|c2: int, r: int| 0 <= c2 <= y && #[trigger] filled(s, r, c2) implies v[c2].contains(r as u32) by {
            assert(v[c2] == cl@[c2]@);
            let f = choose|f: int| #[trigger] at(s, f, r, c2);
            assert(cl@[s[f].0[1] as int]@.contains(s[f].0[0]));
        }
        assert forall|c2: int, p: int, q: int| 0 <= c2 <= y && 0 <= p < q < v[c2].len() implies #[trigger] v[c2][p] < #[trigger] v[c2][q] by {
            assert(v[c2] == cl@[c2]@);
        }
    }
    cl
}

/// An entry at row `r` and column `c` is the only one there, and gives the
/// value.
proof fn lemma_val_at(s: Seq<([u32; 2], i32)>, e: int, r: int, c: int)
    requires
        strictly_sorted(s),
        at(s, e, r, c),
    ensures
        filled(s, r, c),
        val(s, r, c) == s[e].1,
{
    let e2 = choose|e2: int| #[trigger] at(s, e2, r, c);
    if e2 < e {
        assert(entry_lt(s[e2], s[e]));
    } else if e2 > e {
        assert(entry_lt(s[e], s[e2]));
    }
}

/// The entry of row `r` in column `c`, if any.
fn find_in_row(m: &Vec<([u32; 2], i32)>, st: &Vec<usize>, x: usize, r: usize, c: u32) -> (f: Option<usize>)
    requires
        starts_ok(m@, st@, x as int),
        1 <= r <= x,
    ensures
        f matches Some(e) ==> at(m@, e as int, r as int, c as int),
        f is None ==> !filled(m@, r as int, c as int),
{
    proof {
        lemma_starts_bounds(m@, st@, x as int, r as int);
    }
    let n = st.len();
    assert(r + 1 < n);
    let lo = st[r];
    let hi = st[r + 1];
    let mut e = lo;
    while e < hi
        invariant
            starts_ok(m@, st@, x as int),
            1 <= r <= x,
            lo == st@[r as int],
            hi == st@[r + 1],
            lo <= e <= hi,
            hi <= m@.len(),
            forall|f: int| lo <= f < e ==> m@[f].0[1] != c,
        decreases hi - e,
    {
        proof {
            lemma_in_range(m@, st@, x as int, r as int, e as int);
        }
        if m[e].0[1] == c {
            return Some(e);
        }
        e = e + 1;
    }
    proof {
        if filled(m@, r as int, c as int) {
            let f = choose|f: int| #[trigger] at(m@, f, r as int, c as int);
            lemma_locate(m@, st@, x as int, r as int, f);
        }
    }
    None
}

/// The value of row `r` in column `c`, 0 where there is no entry.
fn value_in(m: &Vec<([u32; 2], i32)>, st: &Vec<usize>, x: usize, r: usize, c: u32) -> (v: i32)
    requires
        starts_ok(m@, st@, x as int),
        strictly_sorted(m@),
        1 <= r <= x,
    ensures
        v == val(m@, r as int, c as int),
{
    match find_in_row(m, st, x, r, c) {
        Some(e) => {
            proof {
                lemma_val_at(m@, e as int, r as int, c as int);
            }
            m[e].1
        },
        None => 0,
    }
}

/// The first column of row `a` that row `b` lacks, if any.
fn first_missing_col(m: &Vec<([u32; 2], i32)>, st: &Vec<usize>, x: usize, a: usize, b: usize) -> (f: Option<u32>)
    requires
        starts_ok(m@, st@, x as int),
        strictly_sorted(m@),
        1 <= a <= x,
        1 <= b <= x,
    ensures
        f matches Some(c) ==> first_missing(m@, a as int, b as int) == Some(c as int),
        f is None ==> first_missing(m@, a as int, b as int) is None,
{
    let ghost s = m@;
    proof {
        lemma_starts_bounds(s, st@, x as int, a as int);
    }
    let n = st.len();
    assert(a + 1 < n);
    let lo = st[a];
    let hi = st[a + 1];
    let mut e = lo;
    while e < hi
        invariant
            s == m@,
            starts_ok(s, st@, x as int),
            strictly_sorted(s),
            1 <= a <= x,
            1 <= b <= x,
            lo == st@[a as int],
            hi == st@[a + 1],
            lo <= e <= hi,
            hi <= s.len(),
            forall|f: int| lo <= f < e ==> filled(s, b as int, #[trigger] s[f].0[1] as int),
        decreases hi - e,
    {
        let k = m[e].0[1];
        proof {
            lemma_in_range(s, st@, x as int, a as int, e as int);
        }
        match find_in_row(m, st, x, b, k) {
            None => {
                proof {
                    assert(at(s, e as int, a as int, k as int));
                    assert forall|d: int| d < k && #[trigger] filled(s, a as int, d) implies filled(s, b as int, d) by {
                        let f = choose|f: int| #[trigger] at(s, f, a as int, d);
                        lemma_locate(s, st@, x as int, a as int, f);
                        if f >= e {
                            if f > e {
                                assert(entry_lt(s[e as int], s[f]));
                            }
                        }
                    }
                    assert(missing_first(s, a as int, b as int, k as int));
                    lemma_missing_first_unique(s, a as int, b as int, k as int);
                }
                return Some(k);
            },
            Some(_) => {},
        }
        e = e + 1;
    }
    proof {
        assert forall|c: int| !#[trigger] missing_first(s, a as int, b as int, c) by {
            if missing_first(s, a as int, b as int, c) {
                let f = choose|f: int| #[trigger] at(s, f, a as int, c);
                lemma_locate(s, st@, x as int, a as int, f);
                assert(filled(s, b as int, s[f].0[1] as int));
            }
        }
    }
    None
}

/// The first column of a row that another lacks is unique.
proof fn lemma_missing_first_unique(s: Seq<([u32; 2], i32)>, a: int, b: int, c: int)
    requires
        missing_first(s, a, b, c),
    ensures
        first_missing(s, a, b) == Some(c),
{
    let c2 = choose|c2: int| #[trigger] missing_first(s, a, b, c2);
    if c2 < c {
        assert(filled(s, a, c2));
    } else if c2 > c {
        assert(filled(s, a, c));
    }
}

/// The first column of row `b`.
fn first_col_of(m: &Vec<([u32; 2], i32)>, st: &Vec<usize>, x: usize, b: usize) -> (c: u32)
    requires
        starts_ok(m@, st@, x as int),
        strictly_sorted(m@),
        1 <= b <= x,
    ensures
        first_col(m@, b as int) == c,
{
    let ghost s = m@;
    proof {
        lemma_starts_bounds(s, st@, x as int, b as int);
    }
    let e = st[b];
    proof {
        lemma_in_range(s, st@, x as int, b as int, e as int);
    }
    let c = m[e].0[1];
    proof {
        assert(at(s, e as int, b as int, c as int));
        assert forall|d: int| d < c implies !#[trigger] filled(s, b as int, d) by {
            if filled(s, b as int, d) {
                let f = choose|f: int| #[trigger] at(s, f, b as int, d);
                lemma_locate(s, st@, x as int, b as int, f);
                if f > e {
                    assert(entry_lt(s[e as int], s[f]));
                }
            }
        }
        assert(is_first_col(s, b as int, c as int));
        let c2 = choose|c2: int| #[trigger] is_first_col(s, b as int, c2);
        if c2 < c {
            assert(filled(s, b as int, c2));
        } else if c2 > c {
            assert(filled(s, b as int, c as int));
        }
    }
    c
}

/// The bound of a product of two bounded integers.
proof fn lemma_mul_bound(a: int, b: int, ba: int, bb: int)
    requires
        0 <= ba,
        0 <= bb,
        -ba <= a <= ba,
        -bb <= b <= bb,
    ensures
        -(ba * bb) <= a * b <= ba * bb,
{
    assert(-(ba * bb) <= a * b <= ba * bb) by (nonlinear_arith)
        requires
            0 <= ba,
            0 <= bb,
            -ba <= a <= ba,
            -bb <= b <= bb,
    ;
}

/// The exact quotient `p / q`, where `q` divides `p`.
fn exact_quotient(p: i128, q: i128) -> (t: Option<i128>)
    requires
        q != 0,
        -0x4000_0000_0000_0000_0000_0000_0000_0000 <= p <= 0x4000_0000_0000_0000_0000_0000_0000_0000,
        -0x4000_0000_0000_0000_0000_0000_0000_0000 <= q <= 0x4000_0000_0000_0000_0000_0000_0000_0000,
    ensures
        t is Some <==> divides(q as int, p as int),
        t matches Some(v) ==> (q as int) * (v as int) == p as int && abs(v as int) <= abs(p as int),
{
    let pa: i128 = if p < 0 { -p } else { p };
    let qa: i128 = if q < 0 { -q } else { q };
    let rem = pa % qa;
    if rem != 0 {
        proof {
            if divides(q as int, p as int) {
                let k = choose|k: int| #[trigger] ((q as int) * k) == p as int;
                let ka: int = if (k < 0) == (q < 0) { if k < 0 { -k } else { k } } else { 0 };
                assert(qa * abs(k) == pa) by (nonlinear_arith)
                    requires
                        (q as int) * k == p as int,
                        qa == abs(q as int),
                        pa == abs(p as int),
                ;
                vstd::arithmetic::div_mod::lemma_fundamental_div_mod_converse(pa as int, qa as int, abs(k) as int, 0);
            }
        }
        return None;
    }
    let t = pa / qa;
    proof {
        vstd::arithmetic::div_mod::lemma_fundamental_div_mod(pa as int, qa as int);
        assert(qa * t == pa) by (nonlinear_arith)
            requires qa * (pa / qa) + pa % qa == pa, pa % qa == 0, t == pa / qa;
        assert(0 <= t <= pa) by (nonlinear_arith)
            requires qa * t == pa, qa >= 1, pa >= 0;
    }
    let v: i128 = if (p < 0) != (q < 0) { -t } else { t };
    proof {
        assert((q as int) * (v as int) == p as int) by (nonlinear_arith)
            requires
                qa * t == pa,
                qa == abs(q as int),
                pa == abs(p as int),
                (p < 0) != (q < 0) ==> v == -t,
                (p < 0) == (q < 0) ==> v == t,
        ;
        assert((q as int) * (v as int) == p as int);
    }
    Some(v)
}

/// The integer combination of rows `a` and `b` is forced by the pivots:
/// where `pa` lies in `a` but not in `b` and `pb` lies in `b`, a combination
/// giving `g` times row `r` has `mi = g r[pa] / a[pa]` and
/// `mii = (g r[pb] - mi a[pb]) / b[pb]`.
proof fn lemma_forced(s: Seq<([u32; 2], i32)>, a: int, b: int, r: int, pa: int, pb: int, g: int, mi: int, mii: int)
    requires
        filled(s, a, pa),
        !filled(s, b, pa),
        filled(s, b, pb),
        combines(s, a, b, r, g, mi, mii),
    ensures
        mi * val(s, a, pa) == g * val(s, r, pa),
        mi * val(s, a, pb) + mii * val(s, b, pb) == g * val(s, r, pb),
{
    assert(val(s, b, pa) == 0);
    assert(mii * 0 == 0);
}

/// Whether row `r`, scaled by the greatest common divisor of the pivot
/// values, is an integer combination of rows `a` and `b` on their columns.
#[verifier::rlimit(40)]
fn check_dependent(m: &Vec<([u32; 2], i32)>, st: &Vec<usize>, x: usize, a: usize, b: usize, r: usize, pa: u32, pb: u32) -> (d: bool)
    requires
        starts_ok(m@, st@, x as int),
        well_formed(m@, x as int, 0x1_0000_0000),
        1 <= a <= x,
        1 <= b <= x,
        1 <= r <= x,
        filled(m@, a as int, pa as int),
        !filled(m@, b as int, pa as int),
        filled(m@, b as int, pb as int),
    ensures
        d == dependent(m@, a as int, b as int, r as int, pa as int, pb as int),
{
    let ghost s = m@;
    let va = value_in(m, st, x, a, pa);
    let vb = value_in(m, st, x, b, pb);
    let vr_a = value_in(m, st, x, r, pa);
    let vr_b = value_in(m, st, x, r, pb);
    let wa = value_in(m, st, x, a, pb);
    proof {
        let e = choose|e: int| #[trigger] at(s, e, a as int, pa as int);
        lemma_val_at(s, e, a as int, pa as int);
        let e2 = choose|e: int| #[trigger] at(s, e, b as int, pb as int);
        lemma_val_at(s, e2, b as int, pb as int);
        lemma_values_fit(s, x as int, r as int, pa as int);
        lemma_values_fit(s, x as int, r as int, pb as int);
        lemma_values_fit(s, x as int, a as int, pb as int);
    }
    let g = gcd(va, vb);
    let ghost gg = gcd_spec(abs(va as int), abs(vb as int)) as int;
    proof {
        lemma_mul_bound(g as int, vr_a as int, 0x7fff_ffff, 0x7fff_ffff);
        lemma_mul_bound(g as int, vr_b as int, 0x7fff_ffff, 0x7fff_ffff);
    }
    let gra = (g as i128) * (vr_a as i128);
    let grb = (g as i128) * (vr_b as i128);
    let mi = match exact_quotient(gra, va as i128) {
        Some(q) => q,
        None => {
            proof {
                if dependent(s, a as int, b as int, r as int, pa as int, pb as int) {
                    let (mi2, mii2) = choose|mi2: int, mii2: int| #[trigger] combines(s, a as int, b as int, r as int, gg, mi2, mii2);
                    lemma_forced(s, a as int, b as int, r as int, pa as int, pb as int, gg, mi2, mii2);
                    assert((va as int) * mi2 == gra);
                }
            }
            return false;
        },
    };
    proof {
        lemma_mul_bound(mi as int, wa as int, 0x3fff_ffff_0000_0001, 0x7fff_ffff);
    }
    let rii = grb - mi * (wa as i128);
    let mii = match exact_quotient(rii, vb as i128) {
        Some(q) => q,
        None => {
            proof {
                if dependent(s, a as int, b as int, r as int, pa as int, pb as int) {
                    let (mi2, mii2) = choose|mi2: int, mii2: int| #[trigger] combines(s, a as int, b as int, r as int, gg, mi2, mii2);
                    lemma_forced(s, a as int, b as int, r as int, pa as int, pb as int, gg, mi2, mii2);
                    assert((va as int) * mi2 == (va as int) * (mi as int));
                    assert(mi2 == mi) by (nonlinear_arith)
                        requires (va as int) * mi2 == (va as int) * (mi as int), va != 0;
                    assert((vb as int) * mii2 == rii);
                }
            }
            return false;
        },
    };
    proof {
        lemma_mul_bound(mi as int, wa as int, 0x3fff_ffff_0000_0001, 0x7fff_ffff);
    }
    let ok = check_row(m, st, x, a, a, b, r, g, mi, mii) && check_row(m, st, x, b, a, b, r, g, mi, mii);
    proof {
        if ok {
            assert forall|c: int|
                #![trigger filled(s, a as int, c)]
                #![trigger filled(s, b as int, c)]
                filled(s, a as int, c) || filled(s, b as int, c) implies (mi as int) * val(s, a as int, c) + (mii as int) * val(s, b as int, c) == gg * val(s, r as int, c) by {
                assert(holds_at(s, a as int, b as int, r as int, g as int, mi as int, mii as int, c));
            }
            assert(combines(s, a as int, b as int, r as int, gg, mi as int, mii as int));
        } else if dependent(s, a as int, b as int, r as int, pa as int, pb as int) {
            let (mi2, mii2) = choose|mi2: int, mii2: int| #[trigger] combines(s, a as int, b as int, r as int, gg, mi2, mii2);
            lemma_forced(s, a as int, b as int, r as int, pa as int, pb as int, gg, mi2, mii2);
            assert((va as int) * mi2 == (va as int) * (mi as int));
            assert(mi2 == mi) by (nonlinear_arith)
                requires (va as int) * mi2 == (va as int) * (mi as int), va != 0;
            assert((vb as int) * mii2 == (vb as int) * (mii as int));
            assert(mii2 == mii) by (nonlinear_arith)
                requires (vb as int) * mii2 == (vb as int) * (mii as int), vb != 0;
            assert forall|c: int| #[trigger] filled(s, a as int, c) implies holds_at(s, a as int, b as int, r as int, g as int, mi as int, mii as int, c) by {}
            assert forall|c: int| #[trigger] filled(s, b as int, c) implies holds_at(s, a as int, b as int, r as int, g as int, mi as int, mii as int, c) by {}
        }
    }
    ok
}

/// A value of the matrix is 0 or a nonzero value other than the least `i32`.
proof fn lemma_values_fit(s: Seq<([u32; 2], i32)>, x: int, r: int, c: int)
    requires
        well_formed(s, x, 0x1_0000_0000),
    ensures
        -0x7fff_ffff <= val(s, r, c) <= 0x7fff_ffff,
{
    if filled(s, r, c) {
        let e = choose|e: int| #[trigger] at(s, e, r, c);
        lemma_val_at(s, e, r, c);
    }
}

/// The combination holds at column `c`.
pub open spec fn holds_at(s: Seq<([u32; 2], i32)>, a: int, b: int, r: int, g: int, mi: int, mii: int, c: int) -> bool {
    mi * val(s, a, c) + mii * val(s, b, c) == g * val(s, r, c)
}

/// Whether the combination holds on every column of row `row` (one of `a`
/// and `b`).
fn check_row(m: &Vec<([u32; 2], i32)>, st: &Vec<usize>, x: usize, row: usize, a: usize, b: usize, r: usize, g: i32, mi: i128, mii: i128) -> (ok: bool)
    requires
        starts_ok(m@, st@, x as int),
        well_formed(m@, x as int, 0x1_0000_0000),
        1 <= row <= x,
        1 <= a <= x,
        1 <= b <= x,
        1 <= r <= x,
        g >= 0,
        -0x4000_0000_0000_0000 <= mi <= 0x4000_0000_0000_0000,
        -0x4000_0000_0000_0000_0000_0000 <= mii <= 0x4000_0000_0000_0000_0000_0000,
    ensures
        ok == forall|c: int| #[trigger] filled(m@, row as int, c) ==> holds_at(m@, a as int, b as int, r as int, g as int, mi as int, mii as int, c),
{
    let ghost s = m@;
    proof {
        lemma_starts_bounds(s, st@, x as int, row as int);
    }
    let n = st.len();
    assert(row + 1 < n);
    let lo = st[row];
    let hi = st[row + 1];
    let mut e = lo;
    while e < hi
        invariant
            s == m@,
            starts_ok(s, st@, x as int),
            well_formed(s, x as int, 0x1_0000_0000),
            1 <= row <= x,
            1 <= a <= x,
            1 <= b <= x,
            1 <= r <= x,
            g >= 0,
            -0x4000_0000_0000_0000 <= mi <= 0x4000_0000_0000_0000,
            -0x4000_0000_0000_0000_0000_0000 <= mii <= 0x4000_0000_0000_0000_0000_0000,
            lo == st@[row as int],
            hi == st@[row + 1],
            lo <= e <= hi,
            hi <= s.len(),
            forall|f: int| lo <= f < e ==> holds_at(s, a as int, b as int, r as int, g as int, mi as int, mii as int, #[trigger] s[f].0[1] as int),
        decreases hi - e,
    {
        let c = m[e].0[1];
        let va = value_in(m, st, x, a, c);
        let vb = value_in(m, st, x, b, c);
        let vr = value_in(m, st, x, r, c);
        proof {
            lemma_values_fit(s, x as int, a as int, c as int);
            lemma_values_fit(s, x as int, b as int, c as int);
            lemma_values_fit(s, x as int, r as int, c as int);
            lemma_mul_bound(mi as int, va as int, 0x4000_0000_0000_0000, 0x7fff_ffff);
            lemma_mul_bound(mii as int, vb as int, 0x4000_0000_0000_0000_0000_0000, 0x7fff_ffff);
            lemma_mul_bound(g as int, vr as int, 0x7fff_ffff, 0x7fff_ffff);
        }
        let lhs = mi * (va as i128) + mii * (vb as i128);
        let rhs = (g as i128) * (vr as i128);
        if lhs != rhs {
            proof {
                lemma_in_range(s, st@, x as int, row as int, e as int);
                assert(at(s, e as int, row as int, c as int));
                assert(filled(s, row as int, c as int));
                assert(!holds_at(s, a as int, b as int, r as int, g as int, mi as int, mii as int, c as int));
            }
            return false;
        }
        e = e + 1;
    }
    proof {
        assert forall|c: int| #[trigger] filled(s, row as int, c) implies holds_at(s, a as int, b as int, r as int, g as int, mi as int, mii as int, c) by {
            let f = choose|f: int| #[trigger] at(s, f, row as int, c);
            lemma_locate(s, st@, x as int, row as int, f);
        }
    }
    true
}

/// The views of the column lists.
pub open spec fn col_views(cl: Seq<Vec<u32>>) -> Seq<Seq<u32>> {
    cl.map_values(|v: Vec<u32>| v@)
}

/// The first position of a column list holding a row after `a`.
fn first_after(l: &Vec<u32>, a: usize) -> (k: usize)
    requires
        forall|p: int, q: int| 0 <= p < q < l@.len() ==> #[trigger] l@[p] < #[trigger] l@[q],
    ensures
        k <= l@.len(),
        forall|p: int| 0 <= p < k ==> #[trigger] l@[p] <= a,
        forall|p: int| k <= p < l@.len() ==> #[trigger] l@[p] > a,
{
    let mut k: usize = 0;
    while k < l.len() && (l[k] as usize) <= a
        invariant
            k <= l@.len(),
            forall|p: int, q: int| 0 <= p < q < l@.len() ==> #[trigger] l@[p] < #[trigger] l@[q],
            forall|p: int| 0 <= p < k ==> #[trigger] l@[p] <= a,
        decreases l@.len() - k,
    {
        k = k + 1;
    }
    proof {
        assert forall|p: int| k <= p < l@.len() implies #[trigger] l@[p] > a by {
            if p > k {
                assert(l@[k as int] < l@[p]);
            }
        }
    }
    k
}

/// Whether rows `a0` and `b0`, ordered by their pivots, have a third row
/// after the first that holds both pivot columns and depends on them.
#[verifier::rlimit(40)]
fn found_exec(m: &Vec<([u32; 2], i32)>, st: &Vec<usize>, cl: &Vec<Vec<u32>>, x: usize, y: usize, a0: usize, b0: usize) -> (f: bool)
    requires
        starts_ok(m@, st@, x as int),
        cols_ok(m@, col_views(cl@), y as int),
        well_formed(m@, x as int, y as int),
        1 <= a0 <= x,
        1 <= b0 <= x,
    ensures
        f == found(m@, a0 as int, b0 as int),
{
    let ghost s = m@;
    let ghost cv = col_views(cl@);
    let fm_ab = first_missing_col(m, st, x, a0, b0);
    let fm_ba = first_missing_col(m, st, x, b0, a0);
    let (a, b, pa, pb) = match fm_ab {
        Some(p) => {
            let q = match fm_ba {
                Some(q) => q,
                None => first_col_of(m, st, x, b0),
            };
            (a0, b0, p, q)
        },
        None => match fm_ba {
            Some(p) => {
                let q = first_col_of(m, st, x, a0);
                (b0, a0, p, q)
            },
            None => {
                return false;
            },
        },
    };
    proof {
        assert(pivots(s, a0 as int, b0 as int) == Some((a as int, b as int, pa as int, pb as int)));
        let c = choose|c: int| #[trigger] missing_first(s, a as int, b as int, c);
        assert(missing_first(s, a as int, b as int, pa as int));
        assert(is_first_col(s, b as int, first_col(s, b as int))) by {
            let e = st@[b as int];
            lemma_starts_bounds(s, st@, x as int, b as int);
            lemma_in_range(s, st@, x as int, b as int, e as int);
            assert(at(s, e as int, b as int, s[e as int].0[1] as int));
            lemma_first_col_exists(s, b as int);
        }
        if fm_ab is Some && fm_ba is Some {
            assert(missing_first(s, b as int, a as int, pb as int));
        }
        let e2 = choose|e: int| #[trigger] at(s, e, a as int, pa as int);
        lemma_entry_bounds(s, x as int, y as int, e2);
        assert(filled(s, b as int, pb as int));
        let e3 = choose|e: int| #[trigger] at(s, e, b as int, pb as int);
        lemma_entry_bounds(s, x as int, y as int, e3);
        assert(cv[pa as int] == cl@[pa as int]@);
        assert(cv[pb as int] == cl@[pb as int]@);
    }
    let l0 = &cl[pa as usize];
    let l1 = &cl[pb as usize];
    let mut k = first_after(l0, a);
    let mut l = first_after(l1, a);
    while k < l0.len() && l < l1.len()
        invariant
            s == m@,
            cv == col_views(cl@),
            starts_ok(s, st@, x as int),
            cols_ok(s, cv, y as int),
            well_formed(s, x as int, y as int),
            1 <= a <= x,
            1 <= b <= x,
            pa <= y,
            pb <= y,
            l0@ == cv[pa as int],
            l1@ == cv[pb as int],
            pivots(s, a0 as int, b0 as int) == Some((a as int, b as int, pa as int, pb as int)),
            filled(s, a as int, pa as int),
            !filled(s, b as int, pa as int),
            filled(s, b as int, pb as int),
            k <= l0@.len(),
            l <= l1@.len(),
            forall|p: int| 0 <= p < k ==> #[trigger] l0@[p] > a && filled(s, l0@[p] as int, pb as int) ==> !dependent(s, a as int, b as int, l0@[p] as int, pa as int, pb as int),
            forall|p: int| 0 <= p < l ==> #[trigger] l1@[p] > a && filled(s, l1@[p] as int, pa as int) ==> !dependent(s, a as int, b as int, l1@[p] as int, pa as int, pb as int),
            k < l0@.len() ==> l0@[k as int] > a,
            l < l1@.len() ==> l1@[l as int] > a,
        decreases l0@.len() - k + l1@.len() - l,
    {
        let r0 = l0[k];
        let r1 = l1[l];
        if r0 == r1 {
            proof {
                assert(filled(s, r0 as int, pa as int));
                assert(filled(s, r0 as int, pb as int));
                let e = choose|e: int| #[trigger] at(s, e, r0 as int, pa as int);
                lemma_entry_bounds(s, x as int, y as int, e);
            }
            if check_dependent(m, st, x, a, b, r0 as usize, pa, pb) {
                proof {
                    let pv = pivots(s, a0 as int, b0 as int)->Some_0;
                    assert(pv == (a as int, b as int, pa as int, pb as int));
                    assert(r0 > pv.0 && filled(s, r0 as int, pv.2) && filled(s, r0 as int, pv.3) && dependent(s, pv.0, pv.1, r0 as int, pv.2, pv.3));
                    assert(found(s, a0 as int, b0 as int));
                }
                return true;
            }
            proof {
                lemma_col_list_position(s, cv, y as int, pb as int, r0 as int, l as int);
                lemma_col_list_position(s, cv, y as int, pa as int, r1 as int, k as int);
            }
            k = k + 1;
            l = l + 1;
        } else if r0 < r1 {
            proof {
                if filled(s, r0 as int, pb as int) {
                    lemma_col_list_below(s, cv, y as int, pb as int, r0 as int, l as int);
                }
            }
            k = k + 1;
        } else {
            proof {
                if filled(s, r1 as int, pa as int) {
                    lemma_col_list_below(s, cv, y as int, pa as int, r1 as int, k as int);
                }
            }
            l = l + 1;
        }
        proof {
            if k < l0@.len() && k > 0 {
                assert(l0@[k - 1] < l0@[k as int]);
            }
            if l < l1@.len() && l > 0 {
                assert(l1@[l - 1] < l1@[l as int]);
            }
        }
    }
    proof {
        assert forall|r: int| r > a && filled(s, r, pa as int) && filled(s, r, pb as int) implies !#[trigger] dependent(s, a as int, b as int, r, pa as int, pb as int) by {
            let e = choose|e: int| #[trigger] at(s, e, r, pa as int);
            lemma_entry_bounds(s, x as int, y as int, e);
            if k == l0@.len() {
                lemma_col_list_below(s, cv, y as int, pa as int, r, k as int);
            } else {
                lemma_col_list_below(s, cv, y as int, pb as int, r, l as int);
            }
        }
    }
    false
}

/// Every row has a first column.
proof fn lemma_first_col_exists(s: Seq<([u32; 2], i32)>, b: int)
    requires
        exists|e: int| #[trigger] at(s, e, b, s[e].0[1] as int),
    ensures
        is_first_col(s, b, first_col(s, b)),
{
    let e = choose|e: int| #[trigger] at(s, e, b, s[e].0[1] as int);
    lemma_least_col(s, b, s[e].0[1] as int);
}

/// Below a column of row `b` there is a least column of row `b`.
proof fn lemma_least_col(s: Seq<([u32; 2], i32)>, b: int, c: int)
    requires
        filled(s, b, c),
        c >= 0,
    ensures
        exists|d: int| #[trigger] is_first_col(s, b, d),
    decreases c,
{
    if forall|d: int| d < c ==> !#[trigger] filled(s, b, d) {
        assert(is_first_col(s, b, c));
    } else {
        let d = choose|d: int| d < c && #[trigger] filled(s, b, d);
        let e = choose|e: int| #[trigger] at(s, e, b, d);
        lemma_least_col(s, b, d);
    }
}

/// An entry lies within the bounds of the matrix.
proof fn lemma_entry_bounds(s: Seq<([u32; 2], i32)>, x: int, y: int, e: int)
    requires
        well_formed(s, x, y),
        0 <= e < s.len(),
    ensures
        1 <= s[e].0[0] <= x,
        s[e].0[1] <= y,
{
}

/// A row of column `c` below the first `k` positions of its list, where those
/// positions hold rows above it, is not there: it lies at position `k` or
/// beyond.
proof fn lemma_col_list_position(s: Seq<([u32; 2], i32)>, cv: Seq<Seq<u32>>, y: int, c: int, r: int, k: int)
    requires
        cols_ok(s, cv, y),
        0 <= c <= y,
        0 <= k < cv[c].len(),
        cv[c][k] == r,
    ensures
        forall|p: int| 0 <= p < k + 1 ==> #[trigger] cv[c][p] <= r,
{
    assert forall|p: int| 0 <= p < k + 1 implies #[trigger] cv[c][p] <= r by {
        if p < k {
            assert(cv[c][p] < cv[c][k]);
        }
    }
}

/// A row holding column `c` that is below the row at position `k` of the
/// column's list lies before position `k`.
proof fn lemma_col_list_below(s: Seq<([u32; 2], i32)>, cv: Seq<Seq<u32>>, y: int, c: int, r: int, k: int)
    requires
        cols_ok(s, cv, y),
        0 <= c <= y,
        0 <= k <= cv[c].len(),
        filled(s, r, c),
        k < cv[c].len() ==> r < cv[c][k],
    ensures
        exists|p: int| 0 <= p < k && #[trigger] cv[c][p] == r,
{
    assert(cv[c].contains(r as u32));
    let p = choose|p: int| 0 <= p < cv[c].len() && cv[c][p] == r as u32;
    if p >= k && k < cv[c].len() {
        if p > k {
            assert(cv[c][k] < cv[c][p]);
        }
    }
    assert(cv[c][p] == r);
}

/// Column and row `(c1, r1)` come before `(c2, r2)`: by column, then by row.
pub open spec fn lex_before(c1: int, r1: int, c2: int, r2: int) -> bool {
    c1 < c2 || (c1 == c2 && r1 < r2)
}

/// Row `r` is a partner of row `i` in some column, before position
/// `(cc, cr)`.
pub open spec fn seen(s: Seq<([u32; 2], i32)>, i: int, cc: int, cr: int, r: int) -> bool {
    exists|c1: int| #[trigger] partner(s, i, c1, r) && lex_before(c1, r, cc, cr)
}

/// Every partner before position `(cc, cr)` comes up for the first time and
/// completes no dependent triplet.
pub open spec fn passed(s: Seq<([u32; 2], i32)>, i: int, cc: int, cr: int) -> bool {
    forall|c1: int, r1: int|
        #[trigger] partner(s, i, c1, r1) && lex_before(c1, r1, cc, cr) ==> !shares_before(s, i, r1, c1) && !found(s, i, r1)
}

/// A partner that comes up a second time ends the search: the row is kept.
proof fn lemma_repeat_kept(s: Seq<([u32; 2], i32)>, i: int, c: int, r: int)
    requires
        partner(s, i, c, r),
        shares_before(s, i, r, c),
        passed(s, i, c, r),
    ensures
        !deleted(s, i),
{
    if deleted(s, i) {
        let (c2, r2) = choose|c2: int, r2: int|
            #[trigger] partner(s, i, c2, r2) && found(s, i, r2) && !shares_before(s, i, r2, c2)
                && forall|c3: int, r3: int|
                    #[trigger] partner(s, i, c3, r3) && (c3 < c2 || (c3 == c2 && r3 < r2)) ==> !shares_before(s, i, r3, c3);
        if lex_before(c2, r2, c, r) {
            assert(partner(s, i, c2, r2));
        } else if c2 == c && r2 == r {
        } else {
            assert(partner(s, i, c, r));
        }
    }
}

/// A partner that comes up for the first time and completes a dependent
/// triplet deletes the row.
proof fn lemma_found_deleted(s: Seq<([u32; 2], i32)>, i: int, c: int, r: int)
    requires
        partner(s, i, c, r),
        !shares_before(s, i, r, c),
        found(s, i, r),
        passed(s, i, c, r),
    ensures
        deleted(s, i),
{
    assert forall|c3: int, r3: int| #[trigger] partner(s, i, c3, r3) && (c3 < c || (c3 == c && r3 < r)) implies !shares_before(s, i, r3, c3) by {
        assert(lex_before(c3, r3, c, r));
    }
}

/// Where every partner has passed, the row is kept.
proof fn lemma_all_passed(s: Seq<([u32; 2], i32)>, i: int)
    requires
        passed(s, i, 0x1_0000_0000, 0),
    ensures
        !deleted(s, i),
{
    if deleted(s, i) {
        let (c2, r2) = choose|c2: int, r2: int|
            #[trigger] partner(s, i, c2, r2) && found(s, i, r2) && !shares_before(s, i, r2, c2)
                && forall|c3: int, r3: int|
                    #[trigger] partner(s, i, c3, r3) && (c3 < c2 || (c3 == c2 && r3 < r2)) ==> !shares_before(s, i, r3, c3);
        let e = choose|e: int| #[trigger] at(s, e, i, c2);
        assert(lex_before(c2, r2, 0x1_0000_0000, 0));
    }
}

/// A partner shares an earlier column exactly when it has been seen in an
/// earlier column.
proof fn lemma_seen_shares(s: Seq<([u32; 2], i32)>, i: int, c: int, r: int)
    requires
        partner(s, i, c, r),
    ensures
        seen(s, i, c, r, r) == shares_before(s, i, r, c),
{
    if seen(s, i, c, r, r) {
        let c1 = choose|c1: int| #[trigger] partner(s, i, c1, r) && lex_before(c1, r, c, r);
        assert(filled(s, r, c1));
    }
    if shares_before(s, i, r, c) {
        let d = choose|d: int| d < c && filled(s, i, d) && #[trigger] filled(s, r, d);
        assert(partner(s, i, d, r));
    }
}

/// No column of row `i` lies strictly between the columns of two
/// consecutive entries of the row, none lies after its last entry, and none
/// before its first.
proof fn lemma_row_gap(s: Seq<([u32; 2], i32)>, st: Seq<usize>, x: int, i: int, e: int, c: int)
    requires
        starts_ok(s, st, x),
        strictly_sorted(s),
        1 <= i <= x,
        st[i] <= e < st[i + 1],
        filled(s, i, c),
    ensures
        c <= s[e].0[1] || (e + 1 < st[i + 1] && c >= s[e + 1].0[1]) || (e + 1 == st[i + 1] && false),
        e == st[i] ==> c >= s[e].0[1],
{
    let f = choose|f: int| #[trigger] at(s, f, i, c);
    lemma_starts_bounds(s, st, x, i);
    lemma_locate(s, st, x, i, f);
    lemma_in_range(s, st, x, i, e);
    if f < e {
        assert(entry_lt(s[f], s[e]));
    } else if f > e {
        assert(entry_lt(s[e], s[f]));
        if f > e + 1 {
            lemma_in_range(s, st, x, i, e + 1);
            assert(entry_lt(s[e + 1], s[f]));
        }
    }
}

/// Whether row `i` is deleted: going through its columns in order, and for
/// each the later rows that hold it, some partner row completes a dependent
/// triplet before any partner row comes up a second time.
#[verifier::rlimit(60)]
fn deleted_exec(m: &Vec<([u32; 2], i32)>, st: &Vec<usize>, cl: &Vec<Vec<u32>>, x: usize, y: usize, i: usize) -> (d: bool)
    requires
        starts_ok(m@, st@, x as int),
        cols_ok(m@, col_views(cl@), y as int),
        well_formed(m@, x as int, y as int),
        i <= x,
    ensures
        d == deleted(m@, i as int),
{
    let ghost s = m@;
    let ghost cv = col_views(cl@);
    if i == 0 {
        proof {
            assert(passed(s, 0, 0x1_0000_0000, 0)) by {
                assert forall|c1: int, r1: int| #[trigger] partner(s, 0, c1, r1) && lex_before(c1, r1, 0x1_0000_0000, 0) implies !shares_before(s, 0, r1, c1) && !found(s, 0, r1) by {
                    let f = choose|f: int| #[trigger] at(s, f, 0, c1);
                }
            }
            lemma_all_passed(s, 0);
        }
        return false;
    }
    proof {
        lemma_starts_bounds(s, st@, x as int, i as int);
    }
    let n = st.len();
    assert(i + 1 < n);
    let lo = st[i];
    let hi = st[i + 1];
    let mut checked = new_row_set();
    let mut e = lo;
    proof {
        assert(passed(s, i as int, s[lo as int].0[1] as int, 0)) by {
            assert forall|c1: int, r1: int| #[trigger] partner(s, i as int, c1, r1) && lex_before(c1, r1, s[lo as int].0[1] as int, 0) implies !shares_before(s, i as int, r1, c1) && !found(s, i as int, r1) by {
                lemma_row_gap(s, st@, x as int, i as int, lo as int, c1);
                let f = choose|f: int| #[trigger] at(s, f, r1, c1);
            }
        }
        assert forall|r: u32| #[trigger] checked@.contains(r) == seen(s, i as int, s[lo as int].0[1] as int, 0, r as int) by {
            if seen(s, i as int, s[lo as int].0[1] as int, 0, r as int) {
                let c1 = choose|c1: int| #[trigger] partner(s, i as int, c1, r as int) && lex_before(c1, r as int, s[lo as int].0[1] as int, 0);
                lemma_row_gap(s, st@, x as int, i as int, lo as int, c1);
            }
        }
    }
    while e < hi
        invariant
            s == m@,
            cv == col_views(cl@),
            starts_ok(s, st@, x as int),
            cols_ok(s, cv, y as int),
            well_formed(s, x as int, y as int),
            1 <= i <= x,
            lo == st@[i as int],
            hi == st@[i + 1],
            lo <= e <= hi,
            hi <= s.len(),
            passed(s, i as int, if e < hi { s[e as int].0[1] as int } else { 0x1_0000_0000 }, 0),
            forall|r: u32| #[trigger] checked@.contains(r) == seen(s, i as int, if e < hi { s[e as int].0[1] as int } else { 0x1_0000_0000 }, 0, r as int),
        decreases hi - e,
    {
        let c = m[e].0[1];
        proof {
            lemma_in_range(s, st@, x as int, i as int, e as int);
            lemma_entry_bounds(s, x as int, y as int, e as int);
            assert(at(s, e as int, i as int, c as int));
            assert(cv[c as int] == cl@[c as int]@);
        }
        let lst = &cl[c as usize];
        let mut q: usize = 0;
        while q < lst.len()
            invariant
                s == m@,
                cv == col_views(cl@),
                starts_ok(s, st@, x as int),
                cols_ok(s, cv, y as int),
                well_formed(s, x as int, y as int),
                1 <= i <= x,
                c <= y,
                filled(s, i as int, c as int),
                lst@ == cv[c as int],
                q <= lst@.len(),
                passed(s, i as int, c as int, if q < lst@.len() { lst@[q as int] as int } else { 0x1_0000_0000 }),
                forall|r: u32| #[trigger] checked@.contains(r) == seen(s, i as int, c as int, if q < lst@.len() { lst@[q as int] as int } else { 0x1_0000_0000 }, r as int),
            decreases lst@.len() - q,
        {
            let r = lst[q];
            let ghost cur = r as int;
            let ghost nxt = if q + 1 < lst@.len() { lst@[q + 1] as int } else { 0x1_0000_0000 };
            proof {
                assert(filled(s, r as int, c as int));
                if q + 1 < lst@.len() {
                    assert(lst@[q as int] < lst@[q + 1]);
                }
            }
            if (r as usize) > i {
                proof {
                    assert(partner(s, i as int, c as int, r as int));
                    lemma_seen_shares(s, i as int, c as int, r as int);
                }
                let fresh = row_set_insert(&mut checked, r);
                if !fresh {
                    proof {
                        lemma_repeat_kept(s, i as int, c as int, r as int);
                    }
                    return false;
                }
                let f = found_exec(m, st, cl, x, y, i, r as usize);
                if f {
                    proof {
                        lemma_found_deleted(s, i as int, c as int, r as int);
                    }
                    return true;
                }
                proof {
                    assert forall|c1: int, r1: int| #[trigger] partner(s, i as int, c1, r1) && lex_before(c1, r1, c as int, nxt) implies !shares_before(s, i as int, r1, c1) && !found(s, i as int, r1) by {
                        if !lex_before(c1, r1, c as int, cur) && r1 != cur {
                            lemma_between(s, cv, y as int, c as int, q as int, r1);
                        }
                    }
                    assert forall|r2: u32| #[trigger] checked@.contains(r2) == seen(s, i as int, c as int, nxt, r2 as int) by {
                        if seen(s, i as int, c as int, nxt, r2 as int) && !seen(s, i as int, c as int, cur, r2 as int) {
                            let c1 = choose|c1: int| #[trigger] partner(s, i as int, c1, r2 as int) && lex_before(c1, r2 as int, c as int, nxt);
                            if r2 != r {
                                lemma_between(s, cv, y as int, c as int, q as int, r2 as int);
                            }
                        }
                        if r2 == r {
                            assert(partner(s, i as int, c as int, r as int) && lex_before(c as int, r as int, c as int, nxt));
                        }
                        if seen(s, i as int, c as int, cur, r2 as int) {
                            let c1 = choose|c1: int| #[trigger] partner(s, i as int, c1, r2 as int) && lex_before(c1, r2 as int, c as int, cur);
                            assert(lex_before(c1, r2 as int, c as int, nxt));
                        }
                    }
                }
            } else {
                proof {
                    assert forall|c1: int, r1: int| #[trigger] partner(s, i as int, c1, r1) && lex_before(c1, r1, c as int, nxt) implies !shares_before(s, i as int, r1, c1) && !found(s, i as int, r1) by {
                        if !lex_before(c1, r1, c as int, cur) && r1 != cur {
                            lemma_between(s, cv, y as int, c as int, q as int, r1);
                        }
                    }
                    assert forall|r2: u32| #[trigger] checked@.contains(r2) == seen(s, i as int, c as int, nxt, r2 as int) by {
                        if seen(s, i as int, c as int, nxt, r2 as int) && !seen(s, i as int, c as int, cur, r2 as int) {
                            let c1 = choose|c1: int| #[trigger] partner(s, i as int, c1, r2 as int) && lex_before(c1, r2 as int, c as int, nxt);
                            if r2 != r {
                                lemma_between(s, cv, y as int, c as int, q as int, r2 as int);
                            }
                        }
                        if seen(s, i as int, c as int, cur, r2 as int) {
                            let c1 = choose|c1: int| #[trigger] partner(s, i as int, c1, r2 as int) && lex_before(c1, r2 as int, c as int, cur);
                            assert(lex_before(c1, r2 as int, c as int, nxt));
                        }
                    }
                }
            }
            q = q + 1;
        }
        let ghost nc = if e + 1 < hi { s[e + 1].0[1] as int } else { 0x1_0000_0000 };
        proof {
            assert forall|c1: int, r1: int| #[trigger] partner(s, i as int, c1, r1) && lex_before(c1, r1, nc, 0) implies !shares_before(s, i as int, r1, c1) && !found(s, i as int, r1) by {
                lemma_row_gap(s, st@, x as int, i as int, e as int, c1);
                let f = choose|f: int| #[trigger] at(s, f, r1, c1);
                assert(lex_before(c1, r1, c as int, 0x1_0000_0000));
            }
            assert forall|r2: u32| #[trigger] checked@.contains(r2) == seen(s, i as int, nc, 0, r2 as int) by {
                if seen(s, i as int, nc, 0, r2 as int) {
                    let c1 = choose|c1: int| #[trigger] partner(s, i as int, c1, r2 as int) && lex_before(c1, r2 as int, nc, 0);
                    lemma_row_gap(s, st@, x as int, i as int, e as int, c1);
                    assert(lex_before(c1, r2 as int, c as int, 0x1_0000_0000));
                }
                if seen(s, i as int, c as int, 0x1_0000_0000, r2 as int) {
                    let c1 = choose|c1: int| #[trigger] partner(s, i as int, c1, r2 as int) && lex_before(c1, r2 as int, c as int, 0x1_0000_0000);
                    lemma_row_gap(s, st@, x as int, i as int, e as int, c1);
                    if e + 1 < hi {
                        lemma_in_range(s, st@, x as int, i as int, e as int + 1);
                        assert(entry_lt(s[e as int], s[e + 1]));
                    }
                    assert(lex_before(c1, r2 as int, nc, 0));
                }
            }
        }
        e = e + 1;
    }
    proof {
        lemma_all_passed(s, i as int);
    }
    false
}

/// A row holding column `c` lies in the column's list: a row strictly
/// between the rows at positions `q` and `q + 1` (or after the last) does not
/// hold it.
proof fn lemma_between(s: Seq<([u32; 2], i32)>, cv: Seq<Seq<u32>>, y: int, c: int, q: int, r: int)
    requires
        cols_ok(s, cv, y),
        0 <= c <= y,
        0 <= q < cv[c].len(),
        cv[c][q] < r,
        q + 1 < cv[c].len() ==> r < cv[c][q + 1],
    ensures
        !filled(s, r, c),
{
    if filled(s, r, c) {
        assert(cv[c].contains(r as u32));
        let p = choose|p: int| 0 <= p < cv[c].len() && cv[c][p] == r as u32;
        if p <= q {
            if p < q {
                assert(cv[c][p] < cv[c][q]);
            }
        } else {
            if p > q + 1 {
                assert(cv[c][q + 1] < cv[c][p]);
            }
        }
    }
}

/// Delete every row that forms a linearly dependent triplet with a partner
/// row (a later row sharing one of its columns) and a third row, as
/// `deleted` describes, and move the rows after each deleted one up.
///
/// The entries come strictly sorted by row, then by column, with rows from 1
/// to `dims[0]`, each holding an entry, and columns up to `dims[1]`. Returns
/// the new row of the last entry kept (0 where none is).
pub fn prune_ld_triplets(m: &mut Vec<([u32; 2], i32)>, dims: [usize; 2]) -> (rows: usize)
    requires
        dims[0] < u32::MAX,
        dims[1] < u32::MAX,
        dims[0] + 2 <= usize::MAX,
        dims[1] + 1 <= usize::MAX,
        well_formed(old(m)@, dims[0] as int, dims[1] as int),
    ensures
        final(m)@ == kept_entries(old(m)@, old(m)@.len() as int),
        rows == (if final(m)@.len() == 0 { 0 } else { final(m)@.last().0[0] as int }),
{
    let ghost s = m@;
    let x = dims[0];
    let y = dims[1];
    proof {
        assert(well_formed(s, x as int, 0x1_0000_0000));
    }
    let st = build_starts(m, x);
    let cl = build_cols(m, y);
    let mut del: Vec<bool> = Vec::new();
    let mut newrow: Vec<u32> = Vec::new();
    let mut shift: u32 = 0;
    let mut i: usize = 0;
    while i <= x
        invariant
            s == m@,
            starts_ok(s, st@, x as int),
            cols_ok(s, col_views(cl@), y as int),
            well_formed(s, x as int, y as int),
            x < u32::MAX,
            i <= x + 1,
            del@.len() == i,
            newrow@.len() == i,
            shift == deleted_below(s, i as int),
            shift <= i,
            forall|k: int| 0 <= k < i ==> #[trigger] del@[k] == deleted(s, k),
            forall|k: int| 0 <= k < i ==> #[trigger] newrow@[k] == k - deleted_below(s, k),
        decreases x + 1 - i,
    {
        let d = deleted_exec(m, &st, &cl, x, y, i);
        del.push(d);
        newrow.push((i as u32) - shift);
        if d {
            shift = shift + 1;
        }
        i = i + 1;
    }
    let len = m.len();
    let mut out: Vec<([u32; 2], i32)> = Vec::new();
    let mut rows: u32 = 0;
    let mut e: usize = 0;
    while e < len
        invariant
            s == m@,
            len == s.len(),
            well_formed(s, x as int, y as int),
            del@.len() == x + 1,
            newrow@.len() == x + 1,
            forall|k: int| 0 <= k <= x ==> #[trigger] del@[k] == deleted(s, k),
            forall|k: int| 0 <= k <= x ==> #[trigger] newrow@[k] == k - deleted_below(s, k),
            e <= len,
            out@ == kept_entries(s, e as int),
            rows == (if out@.len() == 0 { 0 } else { out@.last().0[0] as int }),
        decreases len - e,
    {
        let (t, v) = m[e];
        let r = t[0] as usize;
        proof {
            lemma_entry_bounds(s, x as int, y as int, e as int);
        }
        if !del[r] {
            rows = newrow[r];
            out.push(([rows, t[1]], v));
        }
        e = e + 1;
    }
    *m = out;
    rows as usize
}

} // verus!
