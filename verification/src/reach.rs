//! Walks and reachability over an adjacency relation on `0..n`.
use vstd::prelude::*;

verus! {

/// A walk from `p[0]` to `p.last()`, each step along `adj`.
pub open spec fn is_walk(adj: spec_fn(int, int) -> bool, n: int, p: Seq<int>) -> bool {
    &&& p.len() > 0
    &&& forall|k: int| 0 <= k < p.len() ==> 0 <= #[trigger] p[k] < n
    &&& forall|k: int| 0 <= k < p.len() - 1 ==> adj(#[trigger] p[k], p[k + 1])
}

/// `v` can be reached from `u` along `adj`.
pub open spec fn reachable(adj: spec_fn(int, int) -> bool, n: int, u: int, v: int) -> bool {
    exists|p: Seq<int>| #[trigger] is_walk(adj, n, p) && p[0] == u && p.last() == v
}

/// `adj` is symmetric on `0..n`.
pub open spec fn symmetric(adj: spec_fn(int, int) -> bool, n: int) -> bool {
    forall|x: int, y: int| 0 <= x < n && 0 <= y < n ==> (#[trigger] adj(x, y) ==> adj(y, x))
}

pub proof fn lemma_reach_refl(adj: spec_fn(int, int) -> bool, n: int, u: int)
    requires
        0 <= u < n,
    ensures
        reachable(adj, n, u, u),
{
    let p = seq![u];
    assert(is_walk(adj, n, p));
}

pub proof fn lemma_reach_step(adj: spec_fn(int, int) -> bool, n: int, u: int, v: int, w: int)
    requires
        reachable(adj, n, u, v),
        adj(v, w),
        0 <= w < n,
    ensures
        reachable(adj, n, u, w),
{
    let p = choose|p: Seq<int>| #[trigger] is_walk(adj, n, p) && p[0] == u && p.last() == v;
    let q = p.push(w);
    assert forall|k: int| 0 <= k < q.len() - 1 implies adj(#[trigger] q[k], q[k + 1]) by {
        if k < p.len() - 1 {
            assert(q[k] == p[k] && q[k + 1] == p[k + 1]);
        }
    }
    assert(is_walk(adj, n, q));
}

pub proof fn lemma_reach_sym(adj: spec_fn(int, int) -> bool, n: int, u: int, v: int)
    requires
        reachable(adj, n, u, v),
        symmetric(adj, n),
    ensures
        reachable(adj, n, v, u),
{
    let p = choose|p: Seq<int>| #[trigger] is_walk(adj, n, p) && p[0] == u && p.last() == v;
    let q = p.reverse();
    assert forall|k: int| 0 <= k < q.len() implies 0 <= #[trigger] q[k] < n by {
        assert(q[k] == p[p.len() - 1 - k]);
    }
    assert forall|k: int| 0 <= k < q.len() - 1 implies adj(#[trigger] q[k], q[k + 1]) by {
        let j = p.len() - 2 - k;
        assert(q[k] == p[j + 1] && q[k + 1] == p[j]);
        assert(adj(p[j], p[j + 1]));
    }
    assert(is_walk(adj, n, q));
}

pub proof fn lemma_reach_trans(adj: spec_fn(int, int) -> bool, n: int, u: int, v: int, w: int)
    requires
        reachable(adj, n, u, v),
        reachable(adj, n, v, w),
    ensures
        reachable(adj, n, u, w),
{
    let p = choose|p: Seq<int>| #[trigger] is_walk(adj, n, p) && p[0] == u && p.last() == v;
    let q = choose|q: Seq<int>| #[trigger] is_walk(adj, n, q) && q[0] == v && q.last() == w;
    let r = p + q.drop_first();
    assert forall|k: int| 0 <= k < r.len() implies 0 <= #[trigger] r[k] < n by {
        if k >= p.len() {
            assert(r[k] == q[k - p.len() + 1]);
        }
    }
    assert forall|k: int| 0 <= k < r.len() - 1 implies adj(#[trigger] r[k], r[k + 1]) by {
        if k < p.len() - 1 {
            assert(r[k] == p[k] && r[k + 1] == p[k + 1]);
        } else if k == p.len() - 1 {
            assert(r[k] == v && r[k + 1] == q[1]);
            assert(adj(q[0], q[1]));
        } else {
            let j = k - p.len() + 1;
            assert(r[k] == q[j] && r[k + 1] == q[j + 1]);
        }
    }
    assert(is_walk(adj, n, r));
    if q.len() == 1 {
        assert(r =~= p);
    } else {
        assert(r.last() == q.last());
    }
}

/// A labelling that agrees along every step of `adj` agrees along every walk.
pub proof fn lemma_closed_labels(
    adj: spec_fn(int, int) -> bool,
    n: int,
    labels: Seq<u8>,
    u: int,
    v: int,
)
    requires
        labels.len() == n,
        forall|x: int, y: int|
            0 <= x < n && 0 <= y < n && #[trigger] adj(x, y) ==> labels[x] == labels[y],
        reachable(adj, n, u, v),
    ensures
        labels[u] == labels[v],
{
    let p = choose|p: Seq<int>| #[trigger] is_walk(adj, n, p) && p[0] == u && p.last() == v;
    lemma_closed_labels_walk(adj, n, labels, p, p.len() - 1);
}

proof fn lemma_closed_labels_walk(
    adj: spec_fn(int, int) -> bool,
    n: int,
    labels: Seq<u8>,
    p: Seq<int>,
    k: int,
)
    requires
        labels.len() == n,
        forall|x: int, y: int|
            0 <= x < n && 0 <= y < n && #[trigger] adj(x, y) ==> labels[x] == labels[y],
        is_walk(adj, n, p),
        0 <= k < p.len(),
    ensures
        labels[p[0]] == labels[p[k]],
    decreases k,
{
    if k > 0 {
        lemma_closed_labels_walk(adj, n, labels, p, k - 1);
        assert(adj(p[k - 1], p[k]));
    }
}

} // verus!
