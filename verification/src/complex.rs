//! The full complex: the unmarking and the contracting differentials of a
//! list of forested graphs together, each column a subforest, with the rows
//! of both numbered in one table.
use vstd::prelude::*;
use crate::forested_graph::{
    ForestedGraph, UnmarkDifferential, ContractDifferential, unmark_result, contract_result, contract_ready,
    lemma_contract_indices, g6_text, column_views, contracted_views,
};
use crate::table::{GraphTable, contract_entries_upto, item_views, items_total, offset, lemma_entries_bound};
use crate::forested_graph::{selected, matrix_entries_upto, lemma_forested_wf, lemma_smaller_within};
use crate::girth::{girth_in_range, girth_outcome, girth_ready, contracted_by_mask};
use crate::graph::Graph;
use crate::bits::bit;

verus! {

/// The number of subforests of the first `k` forested graphs.
pub open spec fn subforest_total(fgs: Seq<ForestedGraph>, k: int) -> int
    decreases k,
{
    if k <= 0 {
        0
    } else {
        subforest_total(fgs, k - 1) + fgs[k - 1].spec_subforests().len()
    }
}

/// The contracted graphs of the first `k` contracting differentials, in order.
pub open spec fn contracted_items(dcs: Seq<ContractDifferential>, k: int) -> Seq<(Seq<char>, Seq<u64>)>
    decreases k,
{
    if k <= 0 {
        Seq::empty()
    } else {
        contracted_items(dcs, k - 1) + dcs[k - 1].spec_contracted()
    }
}

/// Each forested graph's text with the smaller forests of its unmarking
/// differential.
pub open spec fn unmark_items(fgs: Seq<ForestedGraph>, dus: Seq<UnmarkDifferential>) -> Seq<(Seq<char>, Seq<u64>)> {
    Seq::new(fgs.len(), |k: int| (g6_text(fgs[k].spec_graph()), dus[k].spec_smaller_forests()))
}

/// The rows of the full complex as listed: the unmarking rows of each graph,
/// then the contracted graphs of all the contracting differentials.
pub open spec fn full_items(fgs: Seq<ForestedGraph>, dus: Seq<UnmarkDifferential>, dcs: Seq<ContractDifferential>) -> Seq<(Seq<char>, Seq<u64>)> {
    unmark_items(fgs, dus) + contracted_items(dcs, dcs.len() as int)
}

/// An unmarking column as terms on the graph at position 0.
pub open spec fn on_first_graph(col: Seq<(u64, i8)>) -> Seq<((usize, u64), i8)> {
    col.map_values(|e: (u64, i8)| ((0usize, e.0), e.1))
}

/// The unmarking columns of a graph as terms on the graph at position 0.
pub open spec fn lifted_columns(cols: Seq<Seq<(u64, i8)>>) -> Seq<Seq<((usize, u64), i8)>> {
    cols.map_values(|c: Seq<(u64, i8)>| on_first_graph(c))
}

/// The entries of the unmarking differentials of the first `k` graphs, the
/// columns of graph `k` after those of the graphs before it.
pub open spec fn unmark_part(t: GraphTable, fgs: Seq<ForestedGraph>, dus: Seq<UnmarkDifferential>, k: int) -> Seq<(usize, usize, i8)>
    decreases k,
{
    if k <= 0 {
        Seq::empty()
    } else {
        unmark_part(t, fgs, dus, k - 1) + contract_entries_upto(
            t.spec_graphs(),
            t.spec_forests(),
            seq![(g6_text(fgs[k - 1].spec_graph()), dus[k - 1].spec_smaller_forests())],
            lifted_columns(dus[k - 1].spec_columns()),
            subforest_total(fgs, k - 1),
            dus[k - 1].spec_columns().len() as int,
        )
    }
}

/// The entries of the contracting differentials of the first `k` graphs, in
/// the same columns as the unmarking ones.
pub open spec fn contract_part(t: GraphTable, fgs: Seq<ForestedGraph>, dcs: Seq<ContractDifferential>, k: int) -> Seq<(usize, usize, i8)>
    decreases k,
{
    if k <= 0 {
        Seq::empty()
    } else {
        contract_part(t, fgs, dcs, k - 1) + contract_entries_upto(
            t.spec_graphs(),
            t.spec_forests(),
            dcs[k - 1].spec_contracted(),
            dcs[k - 1].spec_columns(),
            subforest_total(fgs, k - 1),
            dcs[k - 1].spec_columns().len() as int,
        )
    }
}

/// Each entry with its row and column exchanged.
pub open spec fn transposed(es: Seq<(usize, usize, i8)>) -> Seq<(usize, usize, i8)> {
    es.map_values(|e: (usize, usize, i8)| (e.1, e.0, e.2))
}

/// `dus` and `dcs` are the unmarking and contracting differentials of the
/// forested graphs.
pub open spec fn full_parts(fgs: Seq<ForestedGraph>, dus: Seq<UnmarkDifferential>, dcs: Seq<ContractDifferential>) -> bool {
    &&& dus.len() == fgs.len()
    &&& dcs.len() == fgs.len()
    &&& forall|k: int| 0 <= k < fgs.len() ==> unmark_result(fgs[k], #[trigger] dus[k])
    &&& forall|k: int| 0 <= k < fgs.len() ==> #[trigger] contract_of(fgs[k], dcs[k])
}

/// `dc` is the contracting differential of `fg`.
pub open spec fn contract_of(fg: ForestedGraph, dc: ContractDifferential) -> bool {
    exists|idx: Seq<(int, Seq<u8>)>, gs: Seq<crate::graph::Graph>, gperms: Seq<Seq<Seq<u8>>>|
        contract_result(fg, dc, idx, gs, gperms)
}

/// The full complex of these differentials: `None` where the rows listed
/// outnumber `usize`; else the numbers of rows (the table's size) and of
/// columns (the subforests), and the entries, the unmarking ones first, each
/// with its row and column exchanged under `transpose`, as are the two
/// numbers.
pub open spec fn full_outcome(
    fgs: Seq<ForestedGraph>,
    dus: Seq<UnmarkDifferential>,
    dcs: Seq<ContractDifferential>,
    transpose: bool,
    r: Option<([usize; 2], Vec<(usize, usize, i8)>)>,
) -> bool {
    let items = full_items(fgs, dus, dcs);
    let cols = subforest_total(fgs, fgs.len() as int);
    if items_total(items, items.len() as int) > usize::MAX {
        r is None
    } else {
        &&& r is Some
        &&& exists|t: GraphTable| #[trigger] t.built_from(items) && t.wf() && {
            let size = offset(t.spec_forests(), t.spec_forests().len() as int);
            let es = unmark_part(t, fgs, dus, fgs.len() as int) + contract_part(t, fgs, dcs, fgs.len() as int);
            let (dims, out) = r.unwrap();
            &&& dims[0] == (if transpose { cols } else { size })
            &&& dims[1] == (if transpose { size } else { cols })
            &&& out@ == (if transpose { transposed(es) } else { es })
        }
    }
}

/// A copy of a list of masks.
fn copy_masks(v: &[u64]) -> (c: Vec<u64>)
    ensures
        c@ == v@,
{
    let mut c: Vec<u64> = Vec::new();
    let mut k: usize = 0;
    while k < v.len()
        invariant
            k <= v@.len(),
            c@ == v@.take(k as int),
        decreases v@.len() - k,
    {
        c.push(v[k]);
        assert(c@ =~= v@.take(k as int + 1));
        k = k + 1;
    }
    assert(v@.take(v@.len() as int) =~= v@);
    c
}

/// The unmarking columns as terms on the graph at position 0.
fn lift_columns(cols: &[Vec<(u64, i8)>]) -> (r: Vec<Vec<((usize, u64), i8)>>)
    ensures
        column_views(r@) == lifted_columns(column_views(cols@)),
{
    let mut r: Vec<Vec<((usize, u64), i8)>> = Vec::new();
    let mut k: usize = 0;
    while k < cols.len()
        invariant
            k <= cols@.len(),
            column_views(r@) == lifted_columns(column_views(cols@)).take(k as int),
        decreases cols@.len() - k,
    {
        let col = &cols[k];
        let mut c: Vec<((usize, u64), i8)> = Vec::new();
        let mut t: usize = 0;
        while t < col.len()
            invariant
                t <= col@.len(),
                c@ == on_first_graph(col@).take(t as int),
            decreases col@.len() - t,
        {
            let (m, s) = col[t];
            c.push(((0usize, m), s));
            assert(c@ =~= on_first_graph(col@).take(t as int + 1));
            t = t + 1;
        }
        assert(on_first_graph(col@).take(col@.len() as int) =~= on_first_graph(col@));
        let ghost before = column_views(r@);
        r.push(c);
        proof {
            assert(column_views(cols@)[k as int] == col@);
            assert(column_views(r@) =~= before.push(c@));
            assert(column_views(r@) =~= lifted_columns(column_views(cols@)).take(k as int + 1));
        }
        k = k + 1;
    }
    assert(lifted_columns(column_views(cols@)).take(cols@.len() as int) =~= lifted_columns(column_views(cols@)));
    r
}

proof fn lemma_subforest_total_mono(fgs: Seq<ForestedGraph>, a: int, b: int)
    requires
        0 <= a <= b <= fgs.len(),
    ensures
        subforest_total(fgs, a) <= subforest_total(fgs, b),
    decreases b,
{
    if a < b {
        lemma_subforest_total_mono(fgs, a, b - 1);
    }
}

proof fn lemma_items_total_concat(a: Seq<(Seq<char>, Seq<u64>)>, b: Seq<(Seq<char>, Seq<u64>)>, k: int)
    requires
        0 <= k <= b.len(),
    ensures
        items_total(a + b, a.len() + k) == items_total(a, a.len() as int) + items_total(b, k),
    decreases k,
{
    if k > 0 {
        lemma_items_total_concat(a, b, k - 1);
        assert((a + b)[a.len() + k - 1] == b[k - 1]);
    } else {
        lemma_items_total_prefix(a, b, a.len() as int);
    }
}

proof fn lemma_items_total_prefix(a: Seq<(Seq<char>, Seq<u64>)>, b: Seq<(Seq<char>, Seq<u64>)>, k: int)
    requires
        0 <= k <= a.len(),
    ensures
        items_total(a + b, k) == items_total(a, k),
    decreases k,
{
    if k > 0 {
        lemma_items_total_prefix(a, b, k - 1);
        assert((a + b)[k - 1] == a[k - 1]);
    }
}

proof fn lemma_items_total_mono(a: Seq<(Seq<char>, Seq<u64>)>, j: int, k: int)
    requires
        0 <= j <= k <= a.len(),
    ensures
        items_total(a, j) <= items_total(a, k),
    decreases k,
{
    if j < k {
        lemma_items_total_mono(a, j, k - 1);
    }
}

/// The entries of the full complex of the forested graphs: the rows are the
/// smaller forests of each graph's unmarking differential and the forests of
/// the graphs that its contracting differential gives, numbered by one table;
/// the columns are the subforests of the graphs, in order. Each column holds
/// the entries of both differentials, the unmarking ones first; terms without
/// a row are left out. Under `transpose` rows and columns change places.
pub fn full_complex_entries(fgs: &[ForestedGraph], transpose: bool) -> (r: Option<([usize; 2], Vec<(usize, usize, i8)>)>)
    requires
        forall|k: int| 0 <= k < fgs@.len() ==> (#[trigger] fgs@[k]).wf() && contract_ready(fgs@[k])
            && fgs@[k].spec_graph().num_vertices <= 62,
        subforest_total(fgs@, fgs@.len() as int) <= usize::MAX,
    ensures
        exists|dus: Seq<UnmarkDifferential>, dcs: Seq<ContractDifferential>|
            #[trigger] full_parts(fgs@, dus, dcs) && full_outcome(fgs@, dus, dcs, transpose, r),
{
    let n = fgs.len();
    let mut dus: Vec<UnmarkDifferential> = Vec::new();
    let mut dcs: Vec<ContractDifferential> = Vec::new();
    let mut texts: Vec<String> = Vec::new();
    let mut items: Vec<(String, Vec<u64>)> = Vec::new();
    let mut total: usize = 0;
    let mut overflow = false;
    let mut k: usize = 0;
    while k < n
        invariant
            n == fgs@.len(),
            forall|a: int| 0 <= a < fgs@.len() ==> (#[trigger] fgs@[a]).wf() && contract_ready(fgs@[a])
                && fgs@[a].spec_graph().num_vertices <= 62,
            k <= n,
            dus@.len() == k,
            dcs@.len() == k,
            texts@.len() == k,
            forall|a: int| 0 <= a < k ==> unmark_result(fgs@[a], #[trigger] dus@[a]),
            forall|a: int| 0 <= a < k ==> #[trigger] contract_of(fgs@[a], dcs@[a]),
            forall|a: int| 0 <= a < k ==> (#[trigger] texts@[a])@ == g6_text(fgs@[a].spec_graph()),
            item_views(items@) == unmark_items(fgs@.take(k as int), dus@),
            !overflow ==> total == items_total(item_views(items@), items@.len() as int),
            overflow ==> items_total(item_views(items@), items@.len() as int) > usize::MAX,
        decreases n - k,
    {
        let fg = &fgs[k];
        let du = fg.d_unmark();
        let dc = fg.d_contract();
        let g6 = fg.g6();
        let sm = copy_masks(du.smaller_forests());
        let ghost its0 = item_views(items@);
        let ghost dus0 = dus@;
        let ghost dcs0 = dcs@;
        proof {
            assert(contract_of(fgs@[k as int], dc));
        }
        if !overflow {
            match total.checked_add(sm.len()) {
                Some(t) => {
                    total = t;
                },
                None => {
                    overflow = true;
                },
            }
        }
        texts.push(g6.clone());
        items.push((g6, sm));
        dus.push(du);
        dcs.push(dc);
        proof {
            let ui = unmark_items(fgs@.take(k as int + 1), dus@);
            assert(item_views(items@) =~= its0.push((g6@, sm@)));
            assert forall|a: int| 0 <= a < k + 1 implies #[trigger] item_views(items@)[a] == ui[a] by {
                if a < k {
                    assert(item_views(items@)[a] == its0[a]);
                    assert(its0[a] == unmark_items(fgs@.take(k as int), dus0)[a]);
                    assert(dus0[a] == dus@[a]);
                }
            }
            assert(item_views(items@) =~= ui);
            assert forall|a: int| 0 <= a < k + 1 implies #[trigger] contract_of(fgs@[a], dcs@[a]) by {
                if a < k {
                    assert(dcs0[a] == dcs@[a]);
                }
            }
            assert forall|a: int| 0 <= a < k + 1 implies unmark_result(fgs@[a], #[trigger] dus@[a]) by {
                if a < k {
                    assert(dus0[a] == dus@[a]);
                }
            }
            lemma_items_total_prefix(its0, seq![(g6@, sm@)], its0.len() as int);
            assert(its0 + seq![(g6@, sm@)] =~= item_views(items@));
            if overflow {
                lemma_items_total_mono(item_views(items@), its0.len() as int, item_views(items@).len() as int);
            }
        }
        k = k + 1;
    }
    let ghost uitems = item_views(items@);
    proof {
        assert(fgs@.take(n as int) =~= fgs@);
    }
    let mut k2: usize = 0;
    while k2 < n
        invariant
            n == fgs@.len(),
            dcs@.len() == n,
            k2 <= n,
            item_views(items@) == uitems + contracted_items(dcs@, k2 as int),
            !overflow ==> total == items_total(item_views(items@), items@.len() as int),
            overflow ==> items_total(item_views(items@), items@.len() as int) > usize::MAX,
        decreases n - k2,
    {
        let cg = dcs[k2].contracted_graphs();
        let ghost base = item_views(items@);
        let mut t: usize = 0;
        while t < cg.len()
            invariant
                t <= cg@.len(),
                item_views(items@) == base + contracted_views(cg@).take(t as int),
                !overflow ==> total == items_total(item_views(items@), items@.len() as int),
                overflow ==> items_total(item_views(items@), items@.len() as int) > usize::MAX,
            decreases cg@.len() - t,
        {
            let name = cg[t].0.clone();
            let fs = copy_masks(cg[t].1.as_slice());
            let ghost its0 = item_views(items@);
            if !overflow {
                match total.checked_add(fs.len()) {
                    Some(x) => {
                        total = x;
                    },
                    None => {
                        overflow = true;
                    },
                }
            }
            items.push((name, fs));
            proof {
                assert(contracted_views(cg@)[t as int] == (cg@[t as int].0@, cg@[t as int].1@));
                assert(item_views(items@) =~= its0.push((name@, fs@)));
                assert(item_views(items@) =~= base + contracted_views(cg@).take(t as int + 1));
                lemma_items_total_prefix(its0, seq![(name@, fs@)], its0.len() as int);
                assert(its0 + seq![(name@, fs@)] =~= item_views(items@));
                if overflow {
                    lemma_items_total_mono(item_views(items@), its0.len() as int, item_views(items@).len() as int);
                }
            }
            t = t + 1;
        }
        proof {
            assert(contracted_views(cg@).take(cg@.len() as int) =~= dcs@[k2 as int].spec_contracted());
            assert(item_views(items@) =~= uitems + contracted_items(dcs@, k2 as int + 1));
        }
        k2 = k2 + 1;
    }
    let ghost its = item_views(items@);
    proof {
        assert(its =~= full_items(fgs@, dus@, dcs@));
    }
    if overflow {
        proof {
            assert(full_parts(fgs@, dus@, dcs@));
        }
        return None;
    }
    let table = GraphTable::new(&items);
    // the unmarking entries
    let mut out: Vec<(usize, usize, i8)> = Vec::new();
    let mut col: usize = 0;
    let mut k3: usize = 0;
    while k3 < n
        invariant
            n == fgs@.len(),
            dus@.len() == n,
            texts@.len() == n,
            table.wf(),
            k3 <= n,
            subforest_total(fgs@, n as int) <= usize::MAX,
            forall|a: int| 0 <= a < n ==> unmark_result(fgs@[a], #[trigger] dus@[a]),
            forall|a: int| 0 <= a < n ==> (#[trigger] texts@[a])@ == g6_text(fgs@[a].spec_graph()),
            col == subforest_total(fgs@, k3 as int),
            out@ == unmark_part(table, fgs@, dus@, k3 as int),
        decreases n - k3,
    {
        let du = &dus[k3];
        let names = vec![(texts[k3].clone(), copy_masks(du.smaller_forests()))];
        let cols = lift_columns(du.columns());
        proof {
            lemma_subforest_total_mono(fgs@, k3 as int + 1, n as int);
            assert(column_views(cols@).len() == cols@.len());
            assert(du.spec_columns().len() == fgs@[k3 as int].spec_subforests().len());
            assert forall|c: int, t: int| 0 <= c < cols@.len() && 0 <= t < cols@[c]@.len() implies
                (#[trigger] cols@[c]@[t]).0.0 < names@.len() by {
                assert(column_views(cols@)[c] == cols@[c]@);
                assert(lifted_columns(du.spec_columns())[c] == on_first_graph(du.spec_columns()[c]));
            }
        }
        let mut es = table.entries_of(names.as_slice(), cols.as_slice(), col);
        proof {
            assert(contracted_views(names@) =~= seq![(g6_text(fgs@[k3 as int].spec_graph()), dus@[k3 as int].spec_smaller_forests())]);
        }
        out.append(&mut es);
        col = col + fgs[k3].subforests().len();
        k3 = k3 + 1;
    }
    // the contracting entries, in the same columns
    let ghost du_out = out@;
    let mut col2: usize = 0;
    let mut k4: usize = 0;
    while k4 < n
        invariant
            n == fgs@.len(),
            dcs@.len() == n,
            table.wf(),
            k4 <= n,
            subforest_total(fgs@, n as int) <= usize::MAX,
            forall|a: int| 0 <= a < fgs@.len() ==> (#[trigger] fgs@[a]).wf() && contract_ready(fgs@[a])
                && fgs@[a].spec_graph().num_vertices <= 62,
            forall|a: int| 0 <= a < n ==> #[trigger] contract_of(fgs@[a], dcs@[a]),
            col2 == subforest_total(fgs@, k4 as int),
            out@ == du_out + contract_part(table, fgs@, dcs@, k4 as int),
        decreases n - k4,
    {
        let dc = &dcs[k4];
        proof {
            lemma_subforest_total_mono(fgs@, k4 as int + 1, n as int);
            assert(contract_of(fgs@[k4 as int], dcs@[k4 as int]));
            let (idx, gs, gperms) = choose|idx: Seq<(int, Seq<u8>)>, gs: Seq<crate::graph::Graph>, gperms: Seq<Seq<Seq<u8>>>|
                contract_result(fgs@[k4 as int], dcs@[k4 as int], idx, gs, gperms);
            lemma_contract_indices(fgs@[k4 as int], dcs@[k4 as int], idx, gs, gperms);
            assert(dc.spec_columns().len() == fgs@[k4 as int].spec_subforests().len());
        }
        let mut es = table.contract_entries(dc, col2);
        out.append(&mut es);
        col2 = col2 + fgs[k4].subforests().len();
        k4 = k4 + 1;
    }
    let size = table.size();
    let ghost es_all = out@;
    let result = if transpose {
        let mut tr: Vec<(usize, usize, i8)> = Vec::new();
        let mut e: usize = 0;
        while e < out.len()
            invariant
                e <= out@.len(),
                tr@ == transposed(out@).take(e as int),
            decreases out@.len() - e,
        {
            let (a, b, v) = out[e];
            tr.push((b, a, v));
            assert(tr@ =~= transposed(out@).take(e as int + 1));
            e = e + 1;
        }
        assert(transposed(out@).take(out@.len() as int) =~= transposed(out@));
        ([col, size], tr)
    } else {
        ([size, col], out)
    };
    proof {
        assert(full_parts(fgs@, dus@, dcs@));
        assert(table.built_from(full_items(fgs@, dus@, dcs@)));
    }
    Some(result)
}


/// The flag `b` is what `girth_in_range` decides for `g` and the forest `f`:
/// set where the range is `1..=255`, else exactly when the girth that `girth`
/// gives for `g` with `f` contracted lies in the range.
pub open spec fn girth_kept(g: Graph, f: u64, girthmin: u8, girthmax: u8, b: bool) -> bool {
    &&& (girthmin == 1 && girthmax == 255) ==> b
    &&& !(girthmin == 1 && girthmax == 255) ==> exists|h: Graph, p: u8|
        #[trigger] contracted_by_mask(g, f, h) && #[trigger] girth_outcome(h, p) && (b <==> girthmin <= p <= girthmax)
}

/// Each flag of `keep` is the girth test on the mask at its position.
pub open spec fn kept_by_girth(g: Graph, masks: Seq<u64>, keep: Seq<bool>, girthmin: u8, girthmax: u8) -> bool {
    &&& keep.len() == masks.len()
    &&& forall|i: int| 0 <= i < masks.len() ==> #[trigger] girth_kept(g, masks[i], girthmin, girthmax, keep[i])
}

/// `sel` is `fg` with the subforests that pass the girth test.
pub open spec fn girth_selected(fg: ForestedGraph, sel: ForestedGraph, girthmin: u8, girthmax: u8) -> bool {
    &&& sel.spec_graph()@ == fg.spec_graph()@
    &&& sel.spec_graph().adj@ == fg.spec_graph().adj@
    &&& sel.spec_graph().num_vertices == fg.spec_graph().num_vertices
    &&& sel.spec_perms() == fg.spec_perms()
    &&& sel.spec_edges() == fg.spec_edges()
    &&& exists|keep: Seq<bool>| #[trigger] kept_by_girth(fg.spec_graph(), fg.spec_subforests(), keep, girthmin, girthmax)
        && sel.spec_subforests() == selected(fg.spec_subforests(), keep, keep.len() as int)
}

/// `du` is the unmarking differential of `fg` with the smaller forests that
/// pass the girth test; its columns are kept whole.
pub open spec fn unmark_selected(fg: ForestedGraph, du: UnmarkDifferential, girthmin: u8, girthmax: u8) -> bool {
    exists|d0: UnmarkDifferential, keep: Seq<bool>|
        #![trigger unmark_result(fg, d0), kept_by_girth(fg.spec_graph(), d0.spec_smaller_forests(), keep, girthmin, girthmax)]
        unmark_result(fg, d0) && kept_by_girth(fg.spec_graph(), d0.spec_smaller_forests(), keep, girthmin, girthmax)
        && du.spec_columns() == d0.spec_columns()
        && du.spec_smaller_forests() == selected(d0.spec_smaller_forests(), keep, keep.len() as int)
}

/// The number of smaller forests of the first `k` unmarking differentials.
pub open spec fn smaller_total(dus: Seq<UnmarkDifferential>, k: int) -> int
    decreases k,
{
    if k <= 0 {
        0
    } else {
        smaller_total(dus, k - 1) + dus[k - 1].spec_smaller_forests().len()
    }
}

/// The entries with their row and column as `usize`.
pub open spec fn widened(es: Seq<(u32, u32, i8)>) -> Seq<(usize, usize, i8)> {
    es.map_values(|e: (u32, u32, i8)| (e.0 as usize, e.1 as usize, e.2))
}

/// The entries of the first `k` unmarking differentials: the columns of
/// graph `k` after those of the graphs before it, and its rows after theirs.
pub open spec fn unmark_rows_part(sel: Seq<ForestedGraph>, dus: Seq<UnmarkDifferential>, k: int) -> Seq<(usize, usize, i8)>
    decreases k,
{
    if k <= 0 {
        Seq::empty()
    } else {
        unmark_rows_part(sel, dus, k - 1) + widened(matrix_entries_upto(
            dus[k - 1].spec_columns(),
            dus[k - 1].spec_smaller_forests(),
            subforest_total(sel, k - 1) as u32,
            smaller_total(dus, k - 1) as u32,
            dus[k - 1].spec_columns().len() as int,
        ))
    }
}

/// Each entry moved down by `d` rows.
pub open spec fn shifted_rows(es: Seq<(usize, usize, i8)>, d: int) -> Seq<(usize, usize, i8)> {
    es.map_values(|e: (usize, usize, i8)| ((e.0 + d) as usize, e.1, e.2))
}

/// `sel`, `dus` and `dcs` are the girth-selected forested graphs and their
/// differentials, the unmarking ones where `du`, the contracting ones where
/// `dc`.
pub open spec fn complex_parts(
    fgs: Seq<ForestedGraph>,
    sel: Seq<ForestedGraph>,
    dus: Seq<UnmarkDifferential>,
    dcs: Seq<ContractDifferential>,
    du: bool,
    dc: bool,
    girthmin: u8,
    girthmax: u8,
) -> bool {
    &&& sel.len() == fgs.len()
    &&& forall|k: int| 0 <= k < fgs.len() ==> #[trigger] girth_selected(fgs[k], sel[k], girthmin, girthmax)
    &&& du ==> dus.len() == fgs.len()
    &&& du ==> forall|k: int| 0 <= k < fgs.len() ==> #[trigger] unmark_selected(sel[k], dus[k], girthmin, girthmax)
    &&& dc ==> dcs.len() == fgs.len()
    &&& dc ==> forall|k: int| 0 <= k < fgs.len() ==> #[trigger] contract_of(sel[k], dcs[k])
}

/// The `d_u + d_c` matrix of these parts: the unmarking entries (where `du`)
/// at running row and column offsets, then the contracting entries (where
/// `dc`) in the rows of one table, below all the unmarking rows; the numbers
/// of rows and of columns. `None` where a count outgrows its type: the
/// unmarking rows or the columns a `u32`, the listed contracted rows or the
/// total rows a `usize`.
pub open spec fn complex_outcome(
    sel: Seq<ForestedGraph>,
    dus: Seq<UnmarkDifferential>,
    dcs: Seq<ContractDifferential>,
    du: bool,
    dc: bool,
    r: Option<([usize; 2], Vec<(usize, usize, i8)>)>,
) -> bool {
    let n = sel.len() as int;
    let cols = subforest_total(sel, n);
    let urows = if du { smaller_total(dus, n) } else { 0 };
    let items = contracted_items(dcs, n);
    let ues = if du { unmark_rows_part(sel, dus, n) } else { Seq::empty() };
    if (du && (urows > u32::MAX || cols > u32::MAX)) || (dc && items_total(items, items.len() as int) > usize::MAX) {
        r is None
    } else if !dc {
        &&& r is Some
        &&& r.unwrap().0[0] == urows
        &&& r.unwrap().0[1] == (if du { cols } else { 0 })
        &&& r.unwrap().1@ == ues
    } else {
        exists|t: GraphTable| #[trigger] t.built_from(items) && t.wf() && {
            let size = offset(t.spec_forests(), t.spec_forests().len() as int);
            if urows + size > usize::MAX {
                r is None
            } else {
                &&& r is Some
                &&& r.unwrap().0[0] == urows + size
                &&& r.unwrap().0[1] == cols
                &&& r.unwrap().1@ == ues + shifted_rows(contract_part(t, sel, dcs, n), urows)
            }
        }
    }
}

/// The girth test on each mask.
fn girth_flags(g: &Graph, masks: &[u64], girthmin: u8, girthmax: u8) -> (keep: Vec<bool>)
    requires
        g.wf(),
        forall|i: int, j: int| 0 <= i < masks@.len() && #[trigger] bit(masks@[i], j) ==> 0 <= j < g.num_vertices,
        !(girthmin == 1 && girthmax == 255) ==> forall|f: u64| #[trigger] girth_ready(*g, f),
    ensures
        kept_by_girth(*g, masks@, keep@, girthmin, girthmax),
{
    let mut keep: Vec<bool> = Vec::new();
    let mut k: usize = 0;
    while k < masks.len()
        invariant
            g.wf(),
            forall|i: int, j: int| 0 <= i < masks@.len() && #[trigger] bit(masks@[i], j) ==> 0 <= j < g.num_vertices,
            !(girthmin == 1 && girthmax == 255) ==> forall|f: u64| #[trigger] girth_ready(*g, f),
            k <= masks@.len(),
            keep@.len() == k,
            forall|i: int| 0 <= i < k ==> #[trigger] girth_kept(*g, masks@[i], girthmin, girthmax, keep@[i]),
        decreases masks@.len() - k,
    {
        let b = if girthmin == 1 && girthmax == 255 {
            true
        } else {
            proof {
                assert(girth_ready(*g, masks@[k as int]));
                assert forall|j: int| #[trigger] bit(masks@[k as int], j) implies 0 <= j < g.num_vertices by {
                }
            }
            girth_in_range(g, masks[k], girthmin, girthmax)
        };
        let ghost before = keep@;
        keep.push(b);
        proof {
            assert forall|i: int| 0 <= i < k + 1 implies #[trigger] girth_kept(*g, masks@[i], girthmin, girthmax, keep@[i]) by {
                if i < k {
                    assert(keep@[i] == before[i]);
                }
            }
        }
        k = k + 1;
    }
    keep
}

proof fn lemma_selected_in(s: Seq<u64>, keep: Seq<bool>, k: int)
    requires
        0 <= k <= s.len(),
        k <= keep.len(),
    ensures
        selected(s, keep, k).len() <= k,
        forall|a: int| #![trigger selected(s, keep, k)[a]] 0 <= a < selected(s, keep, k).len() ==> exists|i: int| 0 <= i < k && #[trigger] s[i] == selected(s, keep, k)[a],
    decreases k,
{
    if k > 0 {
        lemma_selected_in(s, keep, k - 1);
        let p = selected(s, keep, k - 1);
        let r = selected(s, keep, k);
        if keep[k - 1] {
            assert(r == p.push(s[k - 1]));
        } else {
            assert(r == p);
        }
        assert forall|a: int| #![trigger r[a]] 0 <= a < r.len() implies exists|i: int| 0 <= i < k && #[trigger] s[i] == r[a] by {
            if a < p.len() {
                assert(r[a] == p[a]);
                let i = choose|i: int| 0 <= i < k - 1 && #[trigger] s[i] == p[a];
                assert(s[i] == r[a]);
            } else {
                assert(s[k - 1] == r[a]);
            }
        }
    }
}

/// The `d_u + d_c` matrix of the forested graphs: each graph keeps the
/// subforests that pass the girth test; where `du`, the unmarking
/// differential (its smaller forests also passing the girth test) gives the
/// first rows, graph after graph; where `dc`, the contracting differential
/// gives the rows after those, numbered by one table of its contracted
/// graphs. The columns are the kept subforests, in order.
pub fn complex_entries(fgs: &[ForestedGraph], du: bool, dc: bool, girthmin: u8, girthmax: u8) -> (r: Option<([usize; 2], Vec<(usize, usize, i8)>)>)
    requires
        forall|k: int| 0 <= k < fgs@.len() ==> (#[trigger] fgs@[k]).wf() && (dc ==> contract_ready(fgs@[k]))
            && (!(girthmin == 1 && girthmax == 255) ==> forall|f: u64| #[trigger] girth_ready(fgs@[k].spec_graph(), f)),
        subforest_total(fgs@, fgs@.len() as int) <= usize::MAX,
    ensures
        exists|sel: Seq<ForestedGraph>, dus: Seq<UnmarkDifferential>, dcs: Seq<ContractDifferential>|
            #[trigger] complex_parts(fgs@, sel, dus, dcs, du, dc, girthmin, girthmax) && complex_outcome(sel, dus, dcs, du, dc, r),
{
    let n = fgs.len();
    let trivial = girthmin == 1 && girthmax == 255;
    // the subforests that pass the girth test
    let mut sel: Vec<ForestedGraph> = Vec::new();
    let mut k: usize = 0;
    while k < n
        invariant
            n == fgs@.len(),
            trivial == (girthmin == 1 && girthmax == 255),
            forall|a: int| 0 <= a < fgs@.len() ==> (#[trigger] fgs@[a]).wf() && (dc ==> contract_ready(fgs@[a]))
                && (!trivial ==> forall|f: u64| #[trigger] girth_ready(fgs@[a].spec_graph(), f)),
            subforest_total(fgs@, n as int) <= usize::MAX,
            k <= n,
            sel@.len() == k,
            forall|a: int| 0 <= a < k ==> #[trigger] girth_selected(fgs@[a], sel@[a], girthmin, girthmax),
            forall|a: int| 0 <= a < k ==> (#[trigger] sel@[a]).wf() && (dc ==> contract_ready(sel@[a]))
                && (!trivial ==> forall|f: u64| #[trigger] girth_ready(sel@[a].spec_graph(), f)),
            subforest_total(sel@, k as int) <= subforest_total(fgs@, k as int),
        decreases n - k,
    {
        let fg = &fgs[k];
        proof {
            lemma_forested_wf(*fg);
        }
        let keep = girth_flags(fg.graph(), fg.subforests(), girthmin, girthmax);
        let s = fg.select(&keep);
        proof {
            let g0 = fg.spec_graph();
            let g1 = s.spec_graph();
            assert(kept_by_girth(g0, fg.spec_subforests(), keep@, girthmin, girthmax));
            assert(girth_selected(*fg, s, girthmin, girthmax));
            lemma_selected_in(fg.spec_subforests(), keep@, keep@.len() as int);
            if !trivial {
                assert forall|f: u64| #[trigger] girth_ready(g1, f) by {
                    assert(girth_ready(g0, f));
                    assert forall|h: Graph| #[trigger] contracted_by_mask(g1, f, h) implies crate::girth::girth_early(h) || crate::multi::simplify_fits(h.adj@, true) by {
                        assert(contracted_by_mask(g0, f, h));
                    }
                }
            }
            if dc {
                assert(contract_ready(*fg));
                assert forall|a: int, j: int| 0 <= a < s.spec_subforests().len() && #[trigger] bit(s.spec_subforests()[a], j)
                    implies bit(s.spec_edges(), j) by {
                    let i = choose|i: int| 0 <= i < fg.spec_subforests().len() && #[trigger] fg.spec_subforests()[i] == s.spec_subforests()[a];
                    assert(bit(fg.spec_subforests()[i], j));
                }
                assert forall|i: int, h: Graph, m: Seq<u8>| bit(s.spec_edges(), i) && #[trigger] crate::contract::is_nbhd_contraction(g1, i, h, m)
                    implies h.keys_fit() && h.num_vertices <= 62 by {
                    assert(crate::contract::is_nbhd_contraction(g0, i, h, m));
                }
                assert(contract_ready(s));
            }
            let ghost sel0 = sel@;
        }
        let ghost sel0 = sel@;
        sel.push(s);
        proof {
            assert(subforest_total(sel@, k as int) == subforest_total(sel0, k as int)) by {
                lemma_subforest_total_push(sel0, s, k as int);
            }
            assert forall|a: int| 0 <= a < k + 1 implies #[trigger] girth_selected(fgs@[a], sel@[a], girthmin, girthmax) by {
                if a < k {
                    assert(sel@[a] == sel0[a]);
                }
            }
            assert forall|a: int| 0 <= a < k + 1 implies (#[trigger] sel@[a]).wf() && (dc ==> contract_ready(sel@[a]))
                && (!trivial ==> forall|f: u64| #[trigger] girth_ready(sel@[a].spec_graph(), f)) by {
                if a < k {
                    assert(sel@[a] == sel0[a]);
                }
            }
        }
        k = k + 1;
    }
    let ghost n_int = n as int;
    let ghost cols_total = subforest_total(sel@, n as int);
    // the unmarking differentials
    let mut dus: Vec<UnmarkDifferential> = Vec::new();
    let mut urows: usize = 0;
    let mut over = false;
    let mut cols: usize = 0;
    let mut k1: usize = 0;
    while k1 < n
        invariant
            n == fgs@.len(),
            sel@.len() == n,
            trivial == (girthmin == 1 && girthmax == 255),
            forall|a: int| 0 <= a < n ==> (#[trigger] sel@[a]).wf() && (dc ==> contract_ready(sel@[a]))
                && (!trivial ==> forall|f: u64| #[trigger] girth_ready(sel@[a].spec_graph(), f)),
            forall|a: int| 0 <= a < n ==> #[trigger] girth_selected(fgs@[a], sel@[a], girthmin, girthmax),
            subforest_total(sel@, n as int) <= usize::MAX,
            k1 <= n,
            du ==> dus@.len() == k1,
            !du ==> dus@.len() == 0,
            du ==> forall|a: int| 0 <= a < k1 ==> #[trigger] unmark_selected(sel@[a], dus@[a], girthmin, girthmax),
            du ==> forall|a: int| 0 <= a < k1 ==> (#[trigger] dus@[a]).wf() && dus@[a].spec_columns().len() == sel@[a].spec_subforests().len(),
            du && !over ==> urows == smaller_total(dus@, k1 as int),
            !du ==> urows == 0,
            du && over ==> smaller_total(dus@, k1 as int) > usize::MAX,
            cols == subforest_total(sel@, k1 as int),
        decreases n - k1,
    {
        proof {
            lemma_subforest_total_mono(sel@, k1 as int + 1, n as int);
        }
        let s = &sel[k1];
        if du {
            let d0 = s.d_unmark();
            proof {
                lemma_forested_wf(*s);
                lemma_smaller_within(*s, d0);
            }
            let keep = girth_flags(s.graph(), d0.smaller_forests(), girthmin, girthmax);
            let ghost d0v = d0;
            let d = d0.select(&keep);
            proof {
                assert(unmark_selected(*s, d, girthmin, girthmax)) by {
                    assert(unmark_result(*s, d0v));
                    assert(kept_by_girth(s.spec_graph(), d0v.spec_smaller_forests(), keep@, girthmin, girthmax));
                }
            }
            let len = d.smaller_forests().len();
            if !over {
                match urows.checked_add(len) {
                    Some(t) => {
                        urows = t;
                    },
                    None => {
                        over = true;
                    },
                }
            }
            let ghost dus0 = dus@;
            dus.push(d);
            proof {
                lemma_smaller_total_push(dus0, d, k1 as int);
                assert forall|a: int| 0 <= a < k1 + 1 implies #[trigger] unmark_selected(sel@[a], dus@[a], girthmin, girthmax) by {
                    if a < k1 {
                        assert(dus@[a] == dus0[a]);
                    }
                }
                assert forall|a: int| 0 <= a < k1 + 1 implies (#[trigger] dus@[a]).wf() && dus@[a].spec_columns().len() == sel@[a].spec_subforests().len() by {
                    if a < k1 {
                        assert(dus@[a] == dus0[a]);
                    }
                }
            }
        }
        cols = cols + s.subforests().len();
        k1 = k1 + 1;
    }
    // the contracting differentials
    let mut dcs: Vec<ContractDifferential> = Vec::new();
    if dc {
        let mut k2: usize = 0;
        while k2 < n
            invariant
                n == fgs@.len(),
                sel@.len() == n,
                dc,
                forall|a: int| 0 <= a < n ==> (#[trigger] sel@[a]).wf() && contract_ready(sel@[a]),
                k2 <= n,
                dcs@.len() == k2,
                forall|a: int| 0 <= a < k2 ==> #[trigger] contract_of(sel@[a], dcs@[a]),
            decreases n - k2,
        {
            let s = &sel[k2];
            let dcv = s.d_contract();
            let ghost dcs0 = dcs@;
            dcs.push(dcv);
            proof {
                assert(contract_of(sel@[k2 as int], dcv));
                assert forall|a: int| 0 <= a < k2 + 1 implies #[trigger] contract_of(sel@[a], dcs@[a]) by {
                    if a < k2 {
                        assert(dcs@[a] == dcs0[a]);
                    }
                }
            }
            k2 = k2 + 1;
        }
    }
    proof {
        assert(complex_parts(fgs@, sel@, dus@, dcs@, du, dc, girthmin, girthmax));
    }
    if du && (over || urows > 0xffff_ffffusize || cols > 0xffff_ffffusize) {
        return None;
    }
    // the unmarking entries
    let mut out: Vec<(usize, usize, i8)> = Vec::new();
    if du {
        let mut rs: u32 = 0;
        let mut cs: u32 = 0;
        let mut k3: usize = 0;
        while k3 < n
            invariant
                du,
                n == fgs@.len(),
                sel@.len() == n,
                dus@.len() == n,
                forall|a: int| 0 <= a < n ==> (#[trigger] dus@[a]).wf() && dus@[a].spec_columns().len() == sel@[a].spec_subforests().len(),
                urows == smaller_total(dus@, n as int),
                cols == subforest_total(sel@, n as int),
                urows <= 0xffff_ffff,
                cols <= 0xffff_ffff,
                k3 <= n,
                rs == smaller_total(dus@, k3 as int),
                cs == subforest_total(sel@, k3 as int),
                out@ == unmark_rows_part(sel@, dus@, k3 as int),
            decreases n - k3,
        {
            proof {
                lemma_smaller_total_mono(dus@, k3 as int + 1, n as int);
                lemma_subforest_total_mono(sel@, k3 as int + 1, n as int);
            }
            let d = &dus[k3];
            let es = d.matrix_entries(cs, rs);
            let ghost base = out@;
            let mut t: usize = 0;
            while t < es.len()
                invariant
                    t <= es@.len(),
                    out@ == base + widened(es@).take(t as int),
                decreases es@.len() - t,
            {
                let (a, b, v) = es[t];
                out.push((a as usize, b as usize, v));
                assert(out@ =~= base + widened(es@).take(t as int + 1));
                t = t + 1;
            }
            proof {
                assert(widened(es@).take(es@.len() as int) =~= widened(es@));
                assert(out@ =~= unmark_rows_part(sel@, dus@, k3 as int + 1));
            }
            rs = rs + d.smaller_forests().len() as u32;
            cs = cs + sel[k3].subforests().len() as u32;
            k3 = k3 + 1;
        }
    }
    let ghost ues = out@;
    proof {
        assert(ues == (if du { unmark_rows_part(sel@, dus@, n as int) } else { Seq::<(usize, usize, i8)>::empty() }));
    }
    if !dc {
        let c = if du { cols } else { 0 };
        return Some(([urows, c], out));
    }
    // the contracted graphs, listed
    let mut items: Vec<(String, Vec<u64>)> = Vec::new();
    let mut total: usize = 0;
    let mut over2 = false;
    let mut k2: usize = 0;
    while k2 < n
        invariant
            n == fgs@.len(),
            dcs@.len() == n,
            k2 <= n,
            item_views(items@) == contracted_items(dcs@, k2 as int),
            !over2 ==> total == items_total(item_views(items@), items@.len() as int),
            over2 ==> items_total(item_views(items@), items@.len() as int) > usize::MAX,
        decreases n - k2,
    {
        let cg = dcs[k2].contracted_graphs();
        let ghost base = item_views(items@);
        let mut t: usize = 0;
        while t < cg.len()
            invariant
                t <= cg@.len(),
                item_views(items@) == base + contracted_views(cg@).take(t as int),
                !over2 ==> total == items_total(item_views(items@), items@.len() as int),
                over2 ==> items_total(item_views(items@), items@.len() as int) > usize::MAX,
            decreases cg@.len() - t,
        {
            let name = cg[t].0.clone();
            let fs = copy_masks(cg[t].1.as_slice());
            let ghost its0 = item_views(items@);
            if !over2 {
                match total.checked_add(fs.len()) {
                    Some(x) => {
                        total = x;
                    },
                    None => {
                        over2 = true;
                    },
                }
            }
            items.push((name, fs));
            proof {
                assert(contracted_views(cg@)[t as int] == (cg@[t as int].0@, cg@[t as int].1@));
                assert(item_views(items@) =~= its0.push((name@, fs@)));
                assert(item_views(items@) =~= base + contracted_views(cg@).take(t as int + 1));
                lemma_items_total_prefix(its0, seq![(name@, fs@)], its0.len() as int);
                assert(its0 + seq![(name@, fs@)] =~= item_views(items@));
                if over2 {
                    lemma_items_total_mono(item_views(items@), its0.len() as int, item_views(items@).len() as int);
                }
            }
            t = t + 1;
        }
        proof {
            assert(contracted_views(cg@).take(cg@.len() as int) =~= dcs@[k2 as int].spec_contracted());
            assert(item_views(items@) =~= contracted_items(dcs@, k2 as int + 1));
        }
        k2 = k2 + 1;
    }
    if over2 {
        return None;
    }
    let table = GraphTable::new(&items);
    let size = table.size();
    let rows = match urows.checked_add(size) {
        Some(x) => x,
        None => {
            proof {
                assert(table.built_from(contracted_items(dcs@, n as int)));
            }
            return None;
        },
    };
    // the contracting entries, below the unmarking rows
    let ghost du_out = out@;
    let mut col2: usize = 0;
    let mut k4: usize = 0;
    while k4 < n
        invariant
            n == fgs@.len(),
            dcs@.len() == n,
            sel@.len() == n,
            table.wf(),
            k4 <= n,
            size == offset(table.spec_forests(), table.spec_forests().len() as int),
            urows + size <= usize::MAX,
            subforest_total(sel@, n as int) <= usize::MAX,
            forall|a: int| 0 <= a < n ==> (#[trigger] sel@[a]).wf() && contract_ready(sel@[a]),
            forall|a: int| 0 <= a < n ==> #[trigger] contract_of(sel@[a], dcs@[a]),
            col2 == subforest_total(sel@, k4 as int),
            out@ == du_out + shifted_rows(contract_part(table, sel@, dcs@, k4 as int), urows as int),
        decreases n - k4,
    {
        let dcv = &dcs[k4];
        proof {
            lemma_subforest_total_mono(sel@, k4 as int + 1, n as int);
            assert(contract_of(sel@[k4 as int], dcs@[k4 as int]));
            let (idx, gs, gperms) = choose|idx: Seq<(int, Seq<u8>)>, gs: Seq<crate::graph::Graph>, gperms: Seq<Seq<Seq<u8>>>|
                contract_result(sel@[k4 as int], dcs@[k4 as int], idx, gs, gperms);
            lemma_contract_indices(sel@[k4 as int], dcs@[k4 as int], idx, gs, gperms);
            assert(dcv.spec_columns().len() == sel@[k4 as int].spec_subforests().len());
        }
        let es = table.contract_entries(dcv, col2);
        proof {
            lemma_entries_bound(table.spec_graphs(), table.spec_forests(), dcv.spec_contracted(), dcv.spec_columns(), col2 as int, dcv.spec_columns().len() as int);
        }
        let ghost base = out@;
        let mut t: usize = 0;
        while t < es.len()
            invariant
                t <= es@.len(),
                urows + size <= usize::MAX,
                forall|e: int| 0 <= e < es@.len() ==> (#[trigger] es@[e]).0 < size,
                out@ == base + shifted_rows(es@, urows as int).take(t as int),
            decreases es@.len() - t,
        {
            let (a, b, v) = es[t];
            proof {
                assert(es@[t as int].0 < size);
            }
            out.push((a + urows, b, v));
            assert(out@ =~= base + shifted_rows(es@, urows as int).take(t as int + 1));
            t = t + 1;
        }
        proof {
            assert(shifted_rows(es@, urows as int).take(es@.len() as int) =~= shifted_rows(es@, urows as int));
            let prevp = contract_part(table, sel@, dcs@, k4 as int);
            assert(contract_part(table, sel@, dcs@, k4 as int + 1) == prevp + es@);
            assert(shifted_rows(prevp + es@, urows as int) =~= shifted_rows(prevp, urows as int) + shifted_rows(es@, urows as int));
            assert(out@ =~= du_out + shifted_rows(contract_part(table, sel@, dcs@, k4 as int + 1), urows as int));
        }
        col2 = col2 + sel[k4].subforests().len();
        k4 = k4 + 1;
    }
    proof {
        assert(table.built_from(contracted_items(dcs@, n as int)));
    }
    Some(([rows, cols], out))
}

proof fn lemma_smaller_total_mono(dus: Seq<UnmarkDifferential>, a: int, b: int)
    requires
        0 <= a <= b <= dus.len(),
    ensures
        smaller_total(dus, a) <= smaller_total(dus, b),
    decreases b,
{
    if a < b {
        lemma_smaller_total_mono(dus, a, b - 1);
    }
}

proof fn lemma_subforest_total_push(fgs: Seq<ForestedGraph>, x: ForestedGraph, k: int)
    requires
        0 <= k <= fgs.len(),
    ensures
        subforest_total(fgs.push(x), k) == subforest_total(fgs, k),
    decreases k,
{
    if k > 0 {
        lemma_subforest_total_push(fgs, x, k - 1);
        assert(fgs.push(x)[k - 1] == fgs[k - 1]);
    }
}

proof fn lemma_smaller_total_push(dus: Seq<UnmarkDifferential>, x: UnmarkDifferential, k: int)
    requires
        0 <= k <= dus.len(),
    ensures
        smaller_total(dus.push(x), k) == smaller_total(dus, k),
        k == dus.len() ==> smaller_total(dus.push(x), k + 1) == smaller_total(dus, k) + x.spec_smaller_forests().len(),
    decreases k,
{
    if k > 0 {
        lemma_smaller_total_push(dus, x, k - 1);
        assert(dus.push(x)[k - 1] == dus[k - 1]);
    }
}

} // verus!
