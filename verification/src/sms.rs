//! Sparse integer matrices as lists of entries `([row, column], value)`, with
//! rows and columns numbered from 1, and the pruning steps applied to them.
use vstd::prelude::*;

verus! {

/// The number of entries among the first `n` whose coordinate `d` is `k + 1`.
pub open spec fn line_count(m: Seq<([u32; 2], i32)>, d: int, k: int, n: int) -> nat
    decreases n,
{
    if n <= 0 {
        0
    } else {
        line_count(m, d, k, n - 1) + (if m[n - 1].0[d] == k + 1 {
            1nat
        } else {
            0nat
        })
    }
}

/// Some entry lies alone in its line along `by` and in line `k` along the
/// other coordinate.
pub open spec fn single_hit(m: Seq<([u32; 2], i32)>, by: int, k: int) -> bool {
    exists|e: int|
        0 <= e < m.len() && line_count(m, by, m[e].0[by] - 1, m.len() as int) == 1 && #[trigger] m[e].0[1 - by] == k + 1
}

/// Line `k` along coordinate `d` goes when pruning along `by`: a line along
/// `by` with at most one entry, or a line along the other coordinate that
/// meets such a line with exactly one entry.
pub open spec fn pruned_line(m: Seq<([u32; 2], i32)>, by: int, d: int, k: int) -> bool {
    if d == by {
        line_count(m, by, k, m.len() as int) <= 1
    } else {
        single_hit(m, by, k)
    }
}

/// The number of pruned lines along `d` below `k`.
pub open spec fn pruned_below(m: Seq<([u32; 2], i32)>, by: int, d: int, k: int) -> nat
    decreases k,
{
    if k <= 0 {
        0
    } else {
        pruned_below(m, by, d, k - 1) + (if pruned_line(m, by, d, k - 1) {
            1nat
        } else {
            0nat
        })
    }
}

/// The new number (from 0) of line `k` along `d`, or `u32::MAX` where it goes.
pub open spec fn new_index(m: Seq<([u32; 2], i32)>, by: int, d: int, k: int) -> u32 {
    if pruned_line(m, by, d, k) {
        u32::MAX
    } else {
        (k - pruned_below(m, by, d, k)) as u32
    }
}

/// The entries among the first `n` whose row and column stay, renumbered.
pub open spec fn pruned_entries(m: Seq<([u32; 2], i32)>, by: int, n: int) -> Seq<([u32; 2], i32)>
    decreases n,
{
    if n <= 0 {
        Seq::empty()
    } else {
        let prev = pruned_entries(m, by, n - 1);
        let e = m[n - 1];
        let r = new_index(m, by, 0, e.0[0] - 1);
        let c = new_index(m, by, 1, e.0[1] - 1);
        if r != u32::MAX && c != u32::MAX {
            prev.push(([(r + 1) as u32, (c + 1) as u32], e.1))
        } else {
            prev
        }
    }
}

/// Every entry lies in the matrix of the given dimensions.
pub open spec fn entries_within(m: Seq<([u32; 2], i32)>, dims: [usize; 2]) -> bool {
    forall|e: int| 0 <= e < m.len() ==> 1 <= (#[trigger] m[e]).0[0] <= dims[0] && 1 <= m[e].0[1] <= dims[1]
}

/// The number of entries in each line along `d`.
fn count_lines(m: &Vec<([u32; 2], i32)>, d: usize, size: usize) -> (counts: Vec<u32>)
    requires
        d < 2,
        m@.len() <= u32::MAX,
        forall|e: int| 0 <= e < m@.len() ==> 1 <= (#[trigger] m@[e]).0[d as int] <= size,
    ensures
        counts@.len() == size,
        forall|k: int| 0 <= k < size ==> #[trigger] counts@[k] == line_count(m@, d as int, k, m@.len() as int),
{
    let mut counts: Vec<u32> = Vec::new();
    let mut k: usize = 0;
    while k < size
        invariant
            k <= size,
            counts@.len() == k,
            forall|a: int| 0 <= a < k ==> #[trigger] counts@[a] == 0,
        decreases size - k,
    {
        counts.push(0);
        k = k + 1;
    }
    let mut e: usize = 0;
    while e < m.len()
        invariant
            d < 2,
            m@.len() <= u32::MAX,
            forall|x: int| 0 <= x < m@.len() ==> 1 <= (#[trigger] m@[x]).0[d as int] <= size,
            e <= m@.len(),
            counts@.len() == size,
            forall|a: int| 0 <= a < size ==> #[trigger] counts@[a] == line_count(m@, d as int, a, e as int),
            forall|a: int| 0 <= a < size ==> #[trigger] line_count(m@, d as int, a, e as int) <= e,
        decreases m@.len() - e,
    {
        let t = m[e].0;
        let line = (t[d] - 1) as usize;
        proof {
            assert(m@[e as int].0[d as int] == t[d as int]);
        }
        let c = counts[line];
        proof {
            assert(line_count(m@, d as int, line as int, e as int) <= e);
        }
        counts.set(line, c + 1);
        proof {
            assert forall|a: int| 0 <= a < size implies #[trigger] counts@[a] == line_count(m@, d as int, a, e + 1) by {
                assert(line_count(m@, d as int, a, e + 1) == line_count(m@, d as int, a, e as int) + (if m@[e as int].0[d as int] == a + 1 { 1nat } else { 0nat }));
            }
            assert forall|a: int| 0 <= a < size implies #[trigger] line_count(m@, d as int, a, e + 1) <= e + 1 by {
                assert(line_count(m@, d as int, a, e + 1) == line_count(m@, d as int, a, e as int) + (if m@[e as int].0[d as int] == a + 1 { 1nat } else { 0nat }));
            }
        }
        e = e + 1;
    }
    counts
}

/// Marks with 1 the lines along the other coordinate that hold an entry
/// alone in its line along `by`.
fn mark_lines(m: &Vec<([u32; 2], i32)>, by: usize, counts: &Vec<u32>, size: usize) -> (marks: Vec<u32>)
    requires
        by < 2,
        forall|e: int| 0 <= e < m@.len() ==> 1 <= (#[trigger] m@[e]).0[by as int] <= counts@.len(),
        forall|e: int| 0 <= e < m@.len() ==> 1 <= (#[trigger] m@[e]).0[1 - by] <= size,
        forall|k: int| 0 <= k < counts@.len() ==> #[trigger] counts@[k] == line_count(m@, by as int, k, m@.len() as int),
    ensures
        marks@.len() == size,
        forall|k: int| 0 <= k < size ==> (#[trigger] marks@[k] == 1 <==> single_hit(m@, by as int, k)),
        forall|k: int| 0 <= k < size ==> #[trigger] marks@[k] <= 1,
{
    let other = 1 - by;
    let mut marks: Vec<u32> = Vec::new();
    let mut k: usize = 0;
    while k < size
        invariant
            k <= size,
            marks@.len() == k,
            forall|a: int| 0 <= a < k ==> #[trigger] marks@[a] == 0,
        decreases size - k,
    {
        marks.push(0);
        k = k + 1;
    }
    let mut e: usize = 0;
    while e < m.len()
        invariant
            by < 2,
            other == 1 - by,
            forall|x: int| 0 <= x < m@.len() ==> 1 <= (#[trigger] m@[x]).0[by as int] <= counts@.len(),
            forall|x: int| 0 <= x < m@.len() ==> 1 <= (#[trigger] m@[x]).0[1 - by] <= size,
            forall|a: int| 0 <= a < counts@.len() ==> #[trigger] counts@[a] == line_count(m@, by as int, a, m@.len() as int),
            e <= m@.len(),
            marks@.len() == size,
            forall|a: int| 0 <= a < size ==> #[trigger] marks@[a] <= 1,
            forall|a: int| 0 <= a < size ==> (#[trigger] marks@[a] == 1 <==> exists|x: int|
                0 <= x < e && line_count(m@, by as int, m@[x].0[by as int] - 1, m@.len() as int) == 1 && #[trigger] m@[x].0[1 - by] == a + 1),
        decreases m@.len() - e,
    {
        let t = m[e].0;
        proof {
            assert(m@[e as int].0 == t);
        }
        if counts[(t[by] - 1) as usize] == 1 {
            marks.set((t[other] - 1) as usize, 1);
        }
        proof {
            assert forall|a: int| 0 <= a < size implies (#[trigger] marks@[a] == 1 <==> exists|x: int|
                0 <= x < e + 1 && line_count(m@, by as int, m@[x].0[by as int] - 1, m@.len() as int) == 1 && #[trigger] m@[x].0[1 - by] == a + 1) by {
                if exists|x: int| 0 <= x < e + 1 && line_count(m@, by as int, m@[x].0[by as int] - 1, m@.len() as int) == 1 && #[trigger] m@[x].0[1 - by] == a + 1 {
                    let x = choose|x: int| 0 <= x < e + 1 && line_count(m@, by as int, m@[x].0[by as int] - 1, m@.len() as int) == 1 && #[trigger] m@[x].0[1 - by] == a + 1;
                    if x < e {
                        assert(exists|y: int| 0 <= y < e && line_count(m@, by as int, m@[y].0[by as int] - 1, m@.len() as int) == 1 && #[trigger] m@[y].0[1 - by] == a + 1);
                    }
                }
            }
        }
        e = e + 1;
    }
    marks
}

/// Renumbers the lines in place: a line goes where its entry is 1, or 0 when
/// `drop_empty`, and gets `u32::MAX`; the others are numbered from 0 in
/// order. The result is the number of lines that go.
fn renumber(v: &mut Vec<u32>, drop_empty: bool) -> (removed: usize)
    requires
        old(v)@.len() <= u32::MAX,
    ensures
        final(v)@.len() == old(v)@.len(),
        removed == dropped_below(old(v)@, drop_empty, old(v)@.len() as int),
        forall|k: int| 0 <= k < old(v)@.len() ==> #[trigger] final(v)@[k] == (if drops(old(v)@[k], drop_empty) {
            u32::MAX
        } else {
            (k - dropped_below(old(v)@, drop_empty, k)) as u32
        }),
{
    let ghost v0 = v@;
    let mut shift: usize = 0;
    let mut i: usize = 0;
    while i < v.len()
        invariant
            v@.len() == v0.len(),
            v0.len() <= u32::MAX,
            i <= v0.len(),
            shift == dropped_below(v0, drop_empty, i as int),
            shift <= i,
            forall|k: int| i <= k < v0.len() ==> #[trigger] v@[k] == v0[k],
            forall|k: int| 0 <= k < i ==> #[trigger] v@[k] == (if drops(v0[k], drop_empty) {
                u32::MAX
            } else {
                (k - dropped_below(v0, drop_empty, k)) as u32
            }),
        decreases v0.len() - i,
    {
        let x = v[i];
        if x == 1 || (drop_empty && x == 0) {
            shift = shift + 1;
            v.set(i, u32::MAX);
        } else {
            v.set(i, (i - shift) as u32);
        }
        i = i + 1;
    }
    shift
}

/// A line with this entry goes.
pub open spec fn drops(x: u32, drop_empty: bool) -> bool {
    x == 1 || (drop_empty && x == 0)
}

/// The number of lines below `k` that go.
pub open spec fn dropped_below(v: Seq<u32>, drop_empty: bool, k: int) -> nat
    decreases k,
{
    if k <= 0 {
        0
    } else {
        dropped_below(v, drop_empty, k - 1) + (if drops(v[k - 1], drop_empty) {
            1nat
        } else {
            0nat
        })
    }
}

/// The number of entries among the first `k` that are 1.
pub open spec fn ones_below(v: Seq<u32>, k: int) -> nat
    decreases k,
{
    if k <= 0 {
        0
    } else {
        ones_below(v, k - 1) + (if v[k - 1] == 1 {
            1nat
        } else {
            0nat
        })
    }
}

/// The lines that go, counted through their entries, are the pruned lines.
proof fn lemma_dropped_pruned(v: Seq<u32>, drop_empty: bool, m: Seq<([u32; 2], i32)>, by: int, d: int, k: int)
    requires
        0 <= k <= v.len(),
        forall|a: int| 0 <= a < v.len() ==> (drops(#[trigger] v[a], drop_empty) <==> pruned_line(m, by, d, a)),
    ensures
        dropped_below(v, drop_empty, k) == pruned_below(m, by, d, k),
    decreases k,
{
    if k > 0 {
        lemma_dropped_pruned(v, drop_empty, m, by, d, k - 1);
    }
}

/// Prune the matrix by deleting all rows (`BY_COLUMNS == 0`) or columns
/// (`BY_COLUMNS == 1`) containing a single nonzero entry, together with the
/// column or row where the entry is; along `BY_COLUMNS`, empty lines go too.
/// Returns the new dimensions and, for each row and column, its new number
/// from 0 or `u32::MAX` where it goes; a row separator is moved to the new
/// number of its row.
pub fn prune_matrix<const BY_COLUMNS: usize>(
    m: &mut Vec<([u32; 2], i32)>,
    dims: [usize; 2],
    row_sep: &mut Option<u32>,
) -> (res: ([usize; 2], [Vec<u32>; 2]))
    requires
        BY_COLUMNS < 2,
        old(m)@.len() <= u32::MAX,
        dims[0] <= u32::MAX,
        dims[1] <= u32::MAX,
        entries_within(old(m)@, dims),
        *old(row_sep) matches Some(s) ==> s < dims[0],
    ensures
        final(m)@ == pruned_entries(old(m)@, BY_COLUMNS as int, old(m)@.len() as int),
        res.0[BY_COLUMNS as int] == dims[BY_COLUMNS as int] - pruned_below(old(m)@, BY_COLUMNS as int, BY_COLUMNS as int, dims[BY_COLUMNS as int] as int),
        res.0[1 - BY_COLUMNS] == dims[1 - BY_COLUMNS] - pruned_below(old(m)@, BY_COLUMNS as int, 1 - BY_COLUMNS, dims[1 - BY_COLUMNS] as int),
        res.1[0]@.len() == dims[0],
        res.1[1]@.len() == dims[1],
        forall|d: int, k: int| 0 <= d < 2 && 0 <= k < dims[d] ==> #[trigger] res.1[d]@[k] == new_index(old(m)@, BY_COLUMNS as int, d, k),
        *final(row_sep) == (match *old(row_sep) {
            Some(s) => Some(new_index(old(m)@, BY_COLUMNS as int, 0, s as int)),
            None => None,
        }),
{
    let ghost m0 = m@;
    let ghost by = BY_COLUMNS as int;
    let other = 1 - BY_COLUMNS;
    let counts = count_lines(m, BY_COLUMNS, dims[BY_COLUMNS]);
    let marks = mark_lines(m, BY_COLUMNS, &counts, dims[other]);
    let (mut rows, mut cols) = if BY_COLUMNS == 0 {
        (counts, marks)
    } else {
        (marks, counts)
    };
    proof {
        assert forall|k: int| 0 <= k < dims[0] implies (drops(#[trigger] rows@[k], BY_COLUMNS == 0) <==> pruned_line(m0, by, 0, k)) by {
        }
        assert forall|k: int| 0 <= k < dims[1] implies (drops(#[trigger] cols@[k], BY_COLUMNS == 1) <==> pruned_line(m0, by, 1, k)) by {
        }
    }
    let ghost rows0 = rows@;
    let ghost cols0 = cols@;
    let removed_rows = renumber(&mut rows, BY_COLUMNS == 0);
    let removed_cols = renumber(&mut cols, BY_COLUMNS == 1);
    proof {
        lemma_dropped_pruned(rows0, BY_COLUMNS == 0, m0, by, 0, dims[0] as int);
        lemma_dropped_pruned(cols0, BY_COLUMNS == 1, m0, by, 1, dims[1] as int);
        assert forall|k: int| 0 <= k < dims[0] implies #[trigger] rows@[k] == new_index(m0, by, 0, k) by {
            lemma_dropped_pruned(rows0, BY_COLUMNS == 0, m0, by, 0, k);
        }
        assert forall|k: int| 0 <= k < dims[1] implies #[trigger] cols@[k] == new_index(m0, by, 1, k) by {
            lemma_dropped_pruned(cols0, BY_COLUMNS == 1, m0, by, 1, k);
        }
        lemma_pruned_below_bound(m0, by, 0, dims[0] as int);
        lemma_pruned_below_bound(m0, by, 1, dims[1] as int);
    }
    let mut out: Vec<([u32; 2], i32)> = Vec::new();
    let mut e: usize = 0;
    while e < m.len()
        invariant
            m@ == m0,
            entries_within(m0, dims),
            rows@.len() == dims[0],
            cols@.len() == dims[1],
            forall|k: int| 0 <= k < dims[0] ==> #[trigger] rows@[k] == new_index(m0, by, 0, k),
            forall|k: int| 0 <= k < dims[1] ==> #[trigger] cols@[k] == new_index(m0, by, 1, k),
            forall|k: int| 0 <= k < dims[0] ==> new_index(m0, by, 0, k) == u32::MAX || new_index(m0, by, 0, k) < k + 1,
            forall|k: int| 0 <= k < dims[1] ==> new_index(m0, by, 1, k) == u32::MAX || new_index(m0, by, 1, k) < k + 1,
            dims[0] <= u32::MAX,
            dims[1] <= u32::MAX,
            e <= m0.len(),
            out@ == pruned_entries(m0, by, e as int),
        decreases m0.len() - e,
    {
        let (t, v) = m[e];
        proof {
            assert(m0[e as int] == (t, v));
        }
        let r = rows[(t[0] - 1) as usize];
        let c = cols[(t[1] - 1) as usize];
        if r != u32::MAX && c != u32::MAX {
            out.push(([r + 1, c + 1], v));
        }
        e = e + 1;
    }
    *m = out;
    let ret: [usize; 2] = [dims[0] - removed_rows, dims[1] - removed_cols];
    match *row_sep {
        Some(s) => {
            *row_sep = Some(rows[s as usize]);
        },
        None => {},
    }
    (ret, [rows, cols])
}

/// The pruned lines below `k` number at most `k`, and a staying line keeps a
/// number below its own.
proof fn lemma_pruned_below_bound(m: Seq<([u32; 2], i32)>, by: int, d: int, k: int)
    requires
        0 <= k <= u32::MAX,
    ensures
        pruned_below(m, by, d, k) <= k,
        forall|j: int| 0 <= j < k ==> #[trigger] new_index(m, by, d, j) == u32::MAX || new_index(m, by, d, j) < j + 1,
    decreases k,
{
    if k > 0 {
        lemma_pruned_below_bound(m, by, d, k - 1);
        let j = k - 1;
        assert(pruned_below(m, by, d, j) <= j);
    }
}


/// The greatest common divisor of two natural numbers, by Euclid's rule.
pub open spec fn gcd_spec(a: nat, b: nat) -> nat
    decreases b,
{
    if b == 0 {
        a
    } else {
        gcd_spec(b, a % b)
    }
}

/// `d` divides `a`.
pub open spec fn divides(d: int, a: int) -> bool {
    exists|q: int| #[trigger] (d * q) == a
}

/// The absolute value.
pub open spec fn abs(a: int) -> nat {
    if a < 0 {
        (-a) as nat
    } else {
        a as nat
    }
}

/// Euclid's rule gives a common divisor of both numbers that every common
/// divisor divides.
pub proof fn lemma_gcd_divides(a: nat, b: nat)
    ensures
        divides(gcd_spec(a, b) as int, a as int),
        divides(gcd_spec(a, b) as int, b as int),
        forall|d: int| divides(d, a as int) && divides(d, b as int) ==> #[trigger] divides(d, gcd_spec(a, b) as int),
    decreases b,
{
    if b == 0 {
        assert((a as int) * 1 == a);
        assert((a as int) * 0 == 0);
        assert(divides(gcd_spec(a, b) as int, b as int)) by {
            assert((gcd_spec(a, b) as int) * 0 == 0);
        }
    } else {
        lemma_gcd_divides(b, a % b);
        let g = gcd_spec(a, b) as int;
        let q = (a / b) as int;
        let r = (a % b) as int;
        assert(a == b * q + r) by (nonlinear_arith)
            requires
                b > 0,
                q == a / b,
                r == a % b,
        ;
        let x = choose|x: int| #[trigger] (g * x) == b as int;
        let y = choose|y: int| #[trigger] (g * y) == r;
        assert(g * (x * q + y) == a) by (nonlinear_arith)
            requires
                g * x == b as int,
                g * y == r,
                a == b * q + r,
        ;
        assert forall|d: int| divides(d, a as int) && divides(d, b as int) implies #[trigger] divides(d, g) by {
            let u = choose|u: int| #[trigger] (d * u) == a as int;
            let v = choose|v: int| #[trigger] (d * v) == b as int;
            assert(d * (u - v * q) == r) by (nonlinear_arith)
                requires
                    d * u == a as int,
                    d * v == b as int,
                    a == b * q + r,
            ;
            assert(divides(d, r));
        }
    }
}

proof fn lemma_gcd_swap(a: nat, b: nat)
    requires
        a <= b,
    ensures
        gcd_spec(b, a) == gcd_spec(a, b),
{
    if a == 0 {
        assert(gcd_spec(0, b) == gcd_spec(b, 0));
    } else if a == b {
    } else {
        assert(b % a < a);
        assert(a % b == a) by {
            vstd::arithmetic::div_mod::lemma_small_mod(a, b);
        }
        assert(gcd_spec(a, b) == gcd_spec(b, a % b));
    }
}

/// The greatest common divisor of the absolute values.
pub fn gcd(a: i32, b: i32) -> (g: i32)
    requires
        a != i32::MIN,
        b != i32::MIN,
    ensures
        g as int == gcd_spec(abs(a as int), abs(b as int)),
        g >= 0,
{
    let ghost target = gcd_spec(abs(a as int), abs(b as int));
    let (x, y) = (if a < 0 { -a } else { a }, if b < 0 { -b } else { b });
    let mut t = if x < y { (x, y) } else { (y, x) };
    proof {
        if x < y {
            lemma_gcd_swap(x as nat, y as nat);
        }
    }
    loop
        invariant
            0 <= t.0,
            0 <= t.1,
            gcd_spec(t.1 as nat, t.0 as nat) == target,
            target == gcd_spec(abs(a as int), abs(b as int)),
        decreases t.0,
    {
        if t.0 == 0 {
            proof {
                assert(gcd_spec(t.1 as nat, 0) == t.1);
            }
            return t.1;
        }
        t = (t.1 % t.0, t.0);
    }
}


/// The greatest common divisor of the values among the first `n` entries in
/// column `j`.
pub open spec fn column_gcd(m: Seq<([u32; 2], i32)>, j: int, n: int) -> nat
    decreases n,
{
    if n <= 0 {
        0
    } else {
        let prev = column_gcd(m, j, n - 1);
        if m[n - 1].0[1] == j {
            gcd_spec(prev, abs(m[n - 1].1 as int))
        } else {
            prev
        }
    }
}

/// The column divisor divides each value in its column.
proof fn lemma_column_gcd_divides(m: Seq<([u32; 2], i32)>, j: int, n: int)
    requires
        0 <= n <= m.len(),
    ensures
        forall|e: int| 0 <= e < n && #[trigger] m[e].0[1] == j ==> divides(column_gcd(m, j, n) as int, m[e].1 as int),
    decreases n,
{
    if n > 0 {
        lemma_column_gcd_divides(m, j, n - 1);
        let prev = column_gcd(m, j, n - 1);
        if m[n - 1].0[1] == j {
            let x = abs(m[n - 1].1 as int);
            lemma_gcd_divides(prev, x);
            let g = gcd_spec(prev, x) as int;
            assert forall|e: int| 0 <= e < n && #[trigger] m[e].0[1] == j implies divides(g, m[e].1 as int) by {
                if e < n - 1 {
                    lemma_divides_trans(g, prev as int, m[e].1 as int);
                } else {
                    lemma_divides_abs(g, m[e].1 as int);
                }
            }
        }
    }
}

pub proof fn lemma_divides_trans(a: int, b: int, c: int)
    requires
        divides(a, b),
        divides(b, c),
    ensures
        divides(a, c),
{
    let x = choose|x: int| #[trigger] (a * x) == b;
    let y = choose|y: int| #[trigger] (b * y) == c;
    assert(a * (x * y) == c) by (nonlinear_arith)
        requires
            a * x == b,
            b * y == c,
    ;
}

pub proof fn lemma_divides_abs(a: int, c: int)
    requires
        divides(a, abs(c) as int),
    ensures
        divides(a, c),
{
    let x = choose|x: int| #[trigger] (a * x) == abs(c) as int;
    if c < 0 {
        assert(a * (-x) == c) by (nonlinear_arith)
            requires
                a * x == -c,
        ;
    }
}

/// Divide each column by the greatest common divisor of its values, where
/// that is more than 1.
pub fn divide_cols(m: &mut Vec<([u32; 2], i32)>, dims: [usize; 2])
    requires
        dims[1] < usize::MAX,
        forall|e: int| 0 <= e < old(m)@.len() ==> (#[trigger] old(m)@[e]).0[1] <= dims[1] && old(m)@[e].1 != i32::MIN,
    ensures
        final(m)@.len() == old(m)@.len(),
        forall|e: int| 0 <= e < old(m)@.len() ==> {
            let d = column_gcd(old(m)@, old(m)@[e].0[1] as int, old(m)@.len() as int) as int;
            &&& (#[trigger] final(m)@[e]).0 == old(m)@[e].0
            &&& d > 1 ==> final(m)@[e].1 * d == old(m)@[e].1
            &&& d <= 1 ==> final(m)@[e].1 == old(m)@[e].1
        },
{
    let ghost m0 = m@;
    let y = dims[1];
    let mut divisors: Vec<i32> = Vec::new();
    let mut k: usize = 0;
    while k <= y
        invariant
            y == dims[1],
            y < usize::MAX,
            k <= y + 1,
            divisors@.len() == k,
            forall|a: int| 0 <= a < k ==> #[trigger] divisors@[a] == 0,
        decreases y + 1 - k,
    {
        divisors.push(0);
        k = k + 1;
    }
    let mut e: usize = 0;
    while e < m.len()
        invariant
            m@ == m0,
            forall|x: int| 0 <= x < m0.len() ==> (#[trigger] m0[x]).0[1] <= y && m0[x].1 != i32::MIN,
            divisors@.len() == y + 1,
            e <= m0.len(),
            forall|j: int| 0 <= j <= y ==> #[trigger] divisors@[j] as int == column_gcd(m0, j, e as int),
            forall|j: int| 0 <= j <= y ==> #[trigger] divisors@[j] >= 0,
        decreases m0.len() - e,
    {
        let (t, v) = m[e];
        proof {
            assert(m0[e as int] == (t, v));
        }
        let j = t[1] as usize;
        let d = divisors[j];
        let g = gcd(d, v);
        divisors.set(j, g);
        proof {
            assert(abs(d as int) == d);
            assert forall|jj: int| 0 <= jj <= y implies #[trigger] divisors@[jj] as int == column_gcd(m0, jj, e + 1) by {
            }
        }
        e = e + 1;
    }
    let mut e: usize = 0;
    while e < m.len()
        invariant
            m@.len() == m0.len(),
            forall|x: int| 0 <= x < m0.len() ==> (#[trigger] m0[x]).0[1] <= y && m0[x].1 != i32::MIN,
            divisors@.len() == y + 1,
            forall|j: int| 0 <= j <= y ==> #[trigger] divisors@[j] as int == column_gcd(m0, j, m0.len() as int),
            e <= m0.len(),
            forall|x: int| e <= x < m0.len() ==> #[trigger] m@[x] == m0[x],
            forall|x: int| 0 <= x < e ==> {
                let d = column_gcd(m0, m0[x].0[1] as int, m0.len() as int) as int;
                &&& (#[trigger] m@[x]).0 == m0[x].0
                &&& d > 1 ==> m@[x].1 * d == m0[x].1
                &&& d <= 1 ==> m@[x].1 == m0[x].1
            },
        decreases m0.len() - e,
    {
        let (t, v) = m[e];
        let d = divisors[t[1] as usize];
        if d > 1 {
            proof {
                lemma_column_gcd_divides(m0, t[1] as int, m0.len() as int);
                assert(divides(d as int, v as int));
                let q = choose|q: int| #[trigger] ((d as int) * q) == v as int;
                if v >= 0 {
                    lemma_exact_division(v as int, d as int, q);
                }
            }
            let w = if v < 0 { -((-v) / d) } else { v / d };
            proof {
                let q = choose|q: int| #[trigger] ((d as int) * q) == v as int;
                if v < 0 {
                    assert((d as int) * (-q) == -(v as int)) by (nonlinear_arith)
                        requires (d as int) * q == v as int;
                    lemma_exact_division(-(v as int), d as int, -q);
                    assert(w == -((-(v as int)) / (d as int)));
                    let z = (-(v as int)) / (d as int);
                    assert(z * d == -(v as int));
                    assert((-z) * d == v) by (nonlinear_arith)
                        requires z * d == -(v as int);
                } else {
                    lemma_exact_division(v as int, d as int, q);
                    assert(w == (v as int) / (d as int));
                }
                assert(w * d == v);
            }
            m.set(e, (t, w));
            proof {
                assert(m@[e as int].1 * d == v);
                assert(column_gcd(m0, m0[e as int].0[1] as int, m0.len() as int) == d);
            }
        }
        e = e + 1;
    }
}

/// Exact division of a value by a positive divisor.
pub proof fn lemma_exact_division(v: int, d: int, q: int)
    requires
        d > 1,
        d * q == v,
    ensures
        v / d == q,
        (v / d) * d == v,
{
    vstd::arithmetic::div_mod::lemma_div_multiples_vanish(q, d);
    assert(d * q == q * d) by (nonlinear_arith);
}


/// The number of entries in column `k + 1`.
pub open spec fn column_size(m: Seq<([u32; 2], i32)>, k: int) -> nat {
    line_count(m, 1, k, m.len() as int)
}

/// The number of columns among the first `k` with exactly `v` entries.
pub open spec fn columns_of_size(m: Seq<([u32; 2], i32)>, v: nat, k: int) -> nat
    decreases k,
{
    if k <= 0 {
        0
    } else {
        columns_of_size(m, v, k - 1) + (if column_size(m, k - 1) == v {
            1nat
        } else {
            0nat
        })
    }
}

/// The number of columns among the first `k` with more than `t` entries.
pub open spec fn columns_over(m: Seq<([u32; 2], i32)>, t: nat, k: int) -> nat
    decreases k,
{
    if k <= 0 {
        0
    } else {
        columns_over(m, t, k - 1) + (if column_size(m, k - 1) > t {
            1nat
        } else {
            0nat
        })
    }
}

/// Columns with more entries than this count as large.
pub const LARGE_COLUMN: usize = 1000;

/// Statistics of the column sizes: the number of columns of the least size,
/// that size, the number of columns with more than `LARGE_COLUMN` entries,
/// and the greatest size (sizes 0 where there are no columns).
pub fn count_statistics(m: &Vec<([u32; 2], i32)>, dims: [usize; 2]) -> (r: (usize, usize, usize, usize))
    requires
        m@.len() <= u32::MAX,
        forall|e: int| 0 <= e < m@.len() ==> 1 <= (#[trigger] m@[e]).0[1] <= dims[1],
    ensures
        dims[1] == 0 ==> r.1 == 0 && r.3 == 0,
        dims[1] > 0 ==> (exists|k: int| 0 <= k < dims[1] && column_size(m@, k) == r.1)
            && (forall|k: int| 0 <= k < dims[1] ==> r.1 <= #[trigger] column_size(m@, k)),
        dims[1] > 0 ==> (exists|k: int| 0 <= k < dims[1] && column_size(m@, k) == r.3)
            && (forall|k: int| 0 <= k < dims[1] ==> #[trigger] column_size(m@, k) <= r.3),
        r.0 == columns_of_size(m@, r.1 as nat, dims[1] as int),
        r.2 == columns_over(m@, LARGE_COLUMN as nat, dims[1] as int),
{
    let y = dims[1];
    let counts = count_lines(m, 1, y);
    let mut min: usize = 0;
    let mut max: usize = 0;
    let mut k: usize = 0;
    while k < y
        invariant
            counts@.len() == y,
            forall|a: int| 0 <= a < y ==> #[trigger] counts@[a] == column_size(m@, a),
            k <= y,
            k > 0 ==> (exists|a: int| 0 <= a < k && column_size(m@, a) == min)
                && (forall|a: int| 0 <= a < k ==> min <= #[trigger] column_size(m@, a)),
            k > 0 ==> (exists|a: int| 0 <= a < k && column_size(m@, a) == max)
                && (forall|a: int| 0 <= a < k ==> #[trigger] column_size(m@, a) <= max),
            k == 0 ==> min == 0 && max == 0,
        decreases y - k,
    {
        let c = counts[k] as usize;
        if k == 0 || c < min {
            min = c;
        }
        if k == 0 || c > max {
            max = c;
        }
        proof {
            assert(column_size(m@, k as int) == c);
        }
        k = k + 1;
    }
    let mut same: usize = 0;
    let mut large: usize = 0;
    let mut k: usize = 0;
    while k < y
        invariant
            counts@.len() == y,
            forall|a: int| 0 <= a < y ==> #[trigger] counts@[a] == column_size(m@, a),
            k <= y,
            same == columns_of_size(m@, min as nat, k as int),
            large == columns_over(m@, LARGE_COLUMN as nat, k as int),
            same <= k,
            large <= k,
        decreases y - k,
    {
        let c = counts[k] as usize;
        if c == min {
            same = same + 1;
        }
        if c > LARGE_COLUMN {
            large = large + 1;
        }
        k = k + 1;
    }
    (same, min, large, max)
}

} // verus!
