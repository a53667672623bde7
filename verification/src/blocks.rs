//! The block components of a sparse matrix: the connected components of the
//! bipartite graph of its rows and columns, each entry an edge, and the
//! submatrix of each with its rows and columns numbered anew.
use vstd::prelude::*;
use crate::graph::BigGraph;
use crate::big::{big_built, is_search_labelling};

verus! {

/// The entries of an SMS matrix as edges between rows `0..rows` and columns
/// `rows..rows + cols`.
pub open spec fn line_edges(lines: Seq<([u32; 2], i32)>, rows: int) -> Seq<(usize, usize)> {
    lines.map_values(|e: ([u32; 2], i32)| ((e.0[0] - 1) as usize, (e.0[1] - 1 + rows) as usize))
}

/// The number of positions in `lo..hi` labelled `c`.
pub open spec fn count_label(labels: Seq<usize>, lo: int, hi: int, c: int) -> int
    decreases hi - lo,
{
    if hi <= lo {
        0
    } else {
        count_label(labels, lo, hi - 1, c) + (if labels[hi - 1] == c { 1int } else { 0int })
    }
}

/// An entry of block `c`, renumbered: its row is one more than the number of
/// earlier rows of the block, its column likewise among the columns.
pub open spec fn block_entry(e: ([u32; 2], i32), labels: Seq<usize>, rows: int, c: int) -> ([u32; 2], i32) {
    (
        [
            (count_label(labels, 0, e.0[0] - 1, c) + 1) as u32,
            (count_label(labels, rows, rows + e.0[1] - 1, c) + 1) as u32,
        ],
        e.1,
    )
}

/// The renumbered entries of block `c` among the first `k` entries.
pub open spec fn block_lines(lines: Seq<([u32; 2], i32)>, labels: Seq<usize>, rows: int, c: int, k: int) -> Seq<([u32; 2], i32)>
    decreases k,
{
    if k <= 0 {
        Seq::empty()
    } else if labels[lines[k - 1].0[0] - 1] == c {
        block_lines(lines, labels, rows, c, k - 1).push(block_entry(lines[k - 1], labels, rows, c))
    } else {
        block_lines(lines, labels, rows, c, k - 1)
    }
}

/// The entries lie in the matrix of `rows` rows and `cols` columns, both
/// numbered from 1.
pub open spec fn entries_within(lines: Seq<([u32; 2], i32)>, rows: int, cols: int) -> bool {
    forall|e: int| 0 <= e < lines.len() ==> 1 <= (#[trigger] lines[e]).0[0] <= rows && 1 <= lines[e].0[1] <= cols
}

proof fn lemma_count_label_bound(labels: Seq<usize>, lo: int, hi: int, c: int)
    requires
        lo <= hi,
    ensures
        0 <= count_label(labels, lo, hi, c) <= hi - lo,
    decreases hi - lo,
{
    if hi > lo {
        lemma_count_label_bound(labels, lo, hi - 1, c);
    }
}

/// Split a matrix into its block components: the components of the graph
/// with a vertex for each row and each column and an edge for each entry,
/// labelled from 1 in the order of their lowest vertex. Block `c` has as many
/// rows and columns as the component and holds its entries, renumbered in
/// order from 1.
pub fn split_blocks(lines: &[([u32; 2], i32)], dims: [usize; 2]) -> (r: Vec<([usize; 2], Vec<([u32; 2], i32)>)>)
    requires
        entries_within(lines@, dims[0] as int, dims[1] as int),
        dims[0] + dims[1] <= usize::MAX,
        dims[0] <= u32::MAX,
        dims[1] <= u32::MAX,
    ensures
        exists|g: BigGraph, labels: Seq<usize>, roots: Seq<int>|
            #[trigger] big_built(g, (dims[0] + dims[1]) as usize, line_edges(lines@, dims[0] as int))
            && #[trigger] is_search_labelling(g, r@.len() as int, labels, roots) && {
            &&& forall|b: int| 0 <= b < r@.len() ==> (#[trigger] r@[b]).0[0] == count_label(labels, 0, dims[0] as int, b + 1)
                && r@[b].0[1] == count_label(labels, dims[0] as int, dims[0] + dims[1], b + 1)
                && r@[b].1@ == block_lines(lines@, labels, dims[0] as int, b + 1, lines@.len() as int)
        },
{
    let rows = dims[0];
    let cols = dims[1];
    let mut edges: Vec<(usize, usize)> = Vec::new();
    let mut k: usize = 0;
    while k < lines.len()
        invariant
            entries_within(lines@, rows as int, cols as int),
            rows + cols <= usize::MAX,
            k <= lines@.len(),
            edges@ == line_edges(lines@, rows as int).take(k as int),
        decreases lines@.len() - k,
    {
        let ij = lines[k].0;
        let i = ij[0];
        let j = ij[1];
        proof {
            assert(1 <= lines@[k as int].0[0] <= rows && 1 <= lines@[k as int].0[1] <= cols);
        }
        edges.push(((i - 1) as usize, (j - 1) as usize + rows));
        assert(edges@ =~= line_edges(lines@, rows as int).take(k as int + 1));
        k = k + 1;
    }
    assert(line_edges(lines@, rows as int).take(lines@.len() as int) =~= line_edges(lines@, rows as int));
    let ghost es = edges@;
    proof {
        assert forall|j: int| 0 <= j < edges@.len() implies #[trigger] edges@[j].0 < rows + cols && edges@[j].1 < rows + cols by {
            assert(1 <= lines@[j].0[0] <= rows && 1 <= lines@[j].0[1] <= cols);
        }
    }
    let graph = BigGraph::new(rows + cols, edges);
    let (nc, comps) = graph.connected_components();
    let ghost roots = choose|roots: Seq<int>| #[trigger] is_search_labelling(graph, nc as int, comps@, roots);
    let mut blocks: Vec<([usize; 2], Vec<([u32; 2], i32)>)> = Vec::new();
    let mut c0: usize = 0;
    while c0 < nc
        invariant
            entries_within(lines@, rows as int, cols as int),
            rows + cols <= usize::MAX,
            rows <= u32::MAX,
            cols <= u32::MAX,
            comps@.len() == rows + cols,
            nc <= rows + cols,
            c0 <= nc,
            blocks@.len() == c0,
            forall|b: int| 0 <= b < blocks@.len() ==> (#[trigger] blocks@[b]).0[0] == count_label(comps@, 0, rows as int, b + 1)
                && blocks@[b].0[1] == count_label(comps@, rows as int, rows + cols, b + 1)
                && blocks@[b].1@ == block_lines(lines@, comps@, rows as int, b + 1, lines@.len() as int),
        decreases nc - c0,
    {
        let c = c0 + 1;
        // the new numbers of the rows and columns of block `c`
        let mut rmap: Vec<u32> = Vec::new();
        let mut x: usize = 0;
        let mut a: usize = 0;
        while a < rows
            invariant
                rows <= u32::MAX,
                comps@.len() == rows + cols,
                a <= rows,
                rmap@.len() == a,
                x == count_label(comps@, 0, a as int, c as int),
                forall|t: int| 0 <= t < a ==> #[trigger] rmap@[t] == count_label(comps@, 0, t, c as int),
            decreases rows - a,
        {
            proof {
                lemma_count_label_bound(comps@, 0, a as int, c as int);
            }
            rmap.push(x as u32);
            if comps[a] == c {
                x = x + 1;
            }
            a = a + 1;
        }
        let mut cmap: Vec<u32> = Vec::new();
        let mut y: usize = 0;
        let mut b: usize = 0;
        while b < cols
            invariant
                rows + cols <= usize::MAX,
                cols <= u32::MAX,
                comps@.len() == rows + cols,
                b <= cols,
                cmap@.len() == b,
                y == count_label(comps@, rows as int, rows + b, c as int),
                forall|t: int| 0 <= t < b ==> #[trigger] cmap@[t] == count_label(comps@, rows as int, rows + t, c as int),
            decreases cols - b,
        {
            proof {
                lemma_count_label_bound(comps@, rows as int, rows + b, c as int);
            }
            cmap.push(y as u32);
            if comps[rows + b] == c {
                y = y + 1;
            }
            b = b + 1;
        }
        let mut bl: Vec<([u32; 2], i32)> = Vec::new();
        let mut e: usize = 0;
        while e < lines.len()
            invariant
                entries_within(lines@, rows as int, cols as int),
                rows <= u32::MAX,
                cols <= u32::MAX,
                comps@.len() == rows + cols,
                rmap@.len() == rows,
                cmap@.len() == cols,
                forall|t: int| 0 <= t < rows ==> #[trigger] rmap@[t] == count_label(comps@, 0, t, c as int),
                forall|t: int| 0 <= t < cols ==> #[trigger] cmap@[t] == count_label(comps@, rows as int, rows + t, c as int),
                e <= lines@.len(),
                bl@ == block_lines(lines@, comps@, rows as int, c as int, e as int),
            decreases lines@.len() - e,
        {
            let ij = lines[e].0;
            let i = ij[0];
            let j = ij[1];
            let s = lines[e].1;
            proof {
                assert(1 <= lines@[e as int].0[0] <= rows && 1 <= lines@[e as int].0[1] <= cols);
                lemma_count_label_bound(comps@, 0, i - 1, c as int);
                lemma_count_label_bound(comps@, rows as int, rows + j - 1, c as int);
            }
            if comps[(i - 1) as usize] == c {
                let ri = rmap[(i - 1) as usize] + 1;
                let cj = cmap[(j - 1) as usize] + 1;
                bl.push(([ri, cj], s));
                proof {
                    assert(bl@ =~= block_lines(lines@, comps@, rows as int, c as int, e as int + 1));
                }
            }
            e = e + 1;
        }
        let ghost before = blocks@;
        blocks.push(([x, y], bl));
        proof {
            assert forall|t: int| 0 <= t < blocks@.len() implies (#[trigger] blocks@[t]).0[0] == count_label(comps@, 0, rows as int, t + 1)
                && blocks@[t].0[1] == count_label(comps@, rows as int, rows + cols, t + 1)
                && blocks@[t].1@ == block_lines(lines@, comps@, rows as int, t + 1, lines@.len() as int) by {
                if t < before.len() {
                    assert(blocks@[t] == before[t]);
                }
            }
        }
        c0 = c0 + 1;
    }
    proof {
        assert(big_built(graph, (rows + cols) as usize, line_edges(lines@, rows as int)));
        assert(is_search_labelling(graph, blocks@.len() as int, comps@, roots));
    }
    blocks
}

} // verus!
