//! The table of contracted graphs and their subforests, which numbers the rows
//! of the contracting differential.
use vstd::prelude::*;
use rustc_hash::{FxHashMap, FxHashSet};
use crate::forested_graph::{find_sorted, sorted_unique, strictly_sorted};
use crate::fx::{mask_set_insert, mask_set_into_vec, new_mask_set};

verus! {

/// An Fx hash map from graph6 text to indices.
pub type NameMap = FxHashMap<String, usize>;

/// What an Fx hash map from graph6 text to indices holds: each text, by its
/// characters, with its index.
pub uninterp spec fn name_indices(m: NameMap) -> Map<Seq<char>, usize>;

/// An empty Fx hash map from graph6 text to indices.
#[verifier::external_body]
fn new_name_map() -> (m: NameMap)
    ensures
        name_indices(m).dom() == Set::<Seq<char>>::empty(),
{
    FxHashMap::default()
}

/// `HashMap::get` on an Fx hash map keyed by `String`, looked up by a `str`
/// with the same characters: the index stored under the text, if any. Keys
/// are compared by their characters, as `String`'s `Eq` and `Hash` do.
#[verifier::external_body]
fn name_map_get(m: &NameMap, k: &str) -> (r: Option<usize>)
    ensures
        r == (if name_indices(*m).contains_key(k@) {
            Some(name_indices(*m)[k@])
        } else {
            None::<usize>
        }),
{
    m.get(k).copied()
}

/// `HashMap::insert` on an Fx hash map keyed by `String`: the text is bound to
/// the index, replacing any earlier index under the same characters.
#[verifier::external_body]
fn name_map_insert(m: &mut NameMap, k: String, v: usize)
    ensures
        name_indices(*final(m)) == name_indices(*old(m)).insert(k@, v),
{
    m.insert(k, v);
}

/// `HashMap::iter` on an Fx hash map keyed by `String`, collected: each
/// text with its index, each text once, in the map's iteration order, which
/// std leaves unspecified.
#[verifier::external_body]
fn name_map_entries(m: &NameMap) -> (v: Vec<(String, usize)>)
    ensures
        forall|i: int| 0 <= i < v@.len() ==> name_indices(*m).contains_key(#[trigger] v@[i].0@) && name_indices(*m)[v@[i].0@] == v@[i].1,
        forall|k: Seq<char>| #[trigger] name_indices(*m).contains_key(k) ==> exists|i: int| 0 <= i < v@.len() && #[trigger] v@[i].0@ == k,
{
    m.iter().map(|(k, v)| (k.clone(), *v)).collect()
}

/// The views of a list of graphs and their forests.
pub open spec fn item_views(items: Seq<(String, Vec<u64>)>) -> Seq<(Seq<char>, Seq<u64>)> {
    items.map_values(|it: (String, Vec<u64>)| (it.0@, it.1@))
}

/// The distinct texts among the first `k` items, in order of first
/// appearance.
pub open spec fn distinct_names(items: Seq<(Seq<char>, Seq<u64>)>, k: int) -> Seq<Seq<char>>
    decreases k,
{
    if k <= 0 {
        Seq::empty()
    } else {
        let p = distinct_names(items, k - 1);
        if p.contains(items[k - 1].0) {
            p
        } else {
            p.push(items[k - 1].0)
        }
    }
}

/// Some item among the first `k` with the text `name` lists the forest `x`.
pub open spec fn listed(items: Seq<(Seq<char>, Seq<u64>)>, k: int, name: Seq<char>, x: u64) -> bool {
    exists|i: int| 0 <= i < k && #[trigger] items[i].0 == name && items[i].1.contains(x)
}

/// The number of forests listed by the first `k` items, repeats included.
pub open spec fn items_total(items: Seq<(Seq<char>, Seq<u64>)>, k: int) -> int
    decreases k,
{
    if k <= 0 {
        0
    } else {
        items_total(items, k - 1) + items[k - 1].1.len()
    }
}

/// The number of forests in the first `j` lists.
pub open spec fn offset(fs: Seq<Seq<u64>>, j: int) -> int
    decreases j,
{
    if j <= 0 {
        0
    } else {
        offset(fs, j - 1) + fs[j - 1].len()
    }
}

/// The total size of the first `j` sets.
pub open spec fn sets_total(ss: Seq<Set<u64>>, j: int) -> int
    decreases j,
{
    if j <= 0 {
        0
    } else {
        sets_total(ss, j - 1) + ss[j - 1].len()
    }
}

proof fn lemma_sets_total_update(ss: Seq<Set<u64>>, a: int, s: Set<u64>, j: int)
    requires
        0 <= a < ss.len(),
        0 <= j <= ss.len(),
    ensures
        sets_total(ss.update(a, s), j) == sets_total(ss, j) + (if a < j { s.len() - ss[a].len() } else { 0 }),
    decreases j,
{
    if j > 0 {
        lemma_sets_total_update(ss, a, s, j - 1);
    }
}

proof fn lemma_sets_total_push(ss: Seq<Set<u64>>, s: Set<u64>, j: int)
    requires
        0 <= j <= ss.len(),
    ensures
        sets_total(ss.push(s), j) == sets_total(ss, j),
    decreases j,
{
    if j > 0 {
        lemma_sets_total_push(ss, s, j - 1);
    }
}

proof fn lemma_offset_push(fs: Seq<Seq<u64>>, f: Seq<u64>, j: int)
    requires
        0 <= j <= fs.len(),
    ensures
        offset(fs.push(f), j) == offset(fs, j),
    decreases j,
{
    if j > 0 {
        lemma_offset_push(fs, f, j - 1);
    }
}

proof fn lemma_offset_mono(fs: Seq<Seq<u64>>, a: int, b: int)
    requires
        0 <= a <= b <= fs.len(),
    ensures
        offset(fs, a) <= offset(fs, b),
    decreases b,
{
    if a < b {
        lemma_offset_mono(fs, a, b - 1);
    }
}

/// The views of the sets.
pub open spec fn set_views(ss: Seq<FxHashSet<u64>>) -> Seq<Set<u64>> {
    ss.map_values(|s: FxHashSet<u64>| s@)
}

/// The views of lists of forests.
pub open spec fn forest_views(fs: Seq<Vec<u64>>) -> Seq<Seq<u64>> {
    fs.map_values(|f: Vec<u64>| f@)
}

/// A table, providing for each graph and its subforest the index of its row.
pub struct GraphTable {
    /// Different underlying graphs.
    graphs: NameMap,
    /// All subforests in the graphs.
    forests: Vec<Vec<u64>>,
    /// Pre-computed indices for the rows.
    indices: Vec<usize>,
}

impl GraphTable {
    /// The index of each graph, by its graph6 text.
    pub closed spec fn spec_graphs(&self) -> Map<Seq<char>, usize> {
        name_indices(self.graphs)
    }

    /// The sorted subforests of each graph.
    pub closed spec fn spec_forests(&self) -> Seq<Seq<u64>> {
        forest_views(self.forests@)
    }

    /// The first row of each graph, and the number of rows after the last.
    pub closed spec fn spec_indices(&self) -> Seq<usize> {
        self.indices@
    }

    /// Each graph's forests are strictly increasing, each graph's index names
    /// a list of forests, and the rows of a graph start after those of the
    /// graphs before it.
    pub open spec fn wf(&self) -> bool {
        let fs = self.spec_forests();
        &&& self.spec_indices().len() == fs.len() + 1
        &&& forall|j: int| 0 <= j <= fs.len() ==> #[trigger] self.spec_indices()[j] == offset(fs, j)
        &&& forall|j: int| 0 <= j < fs.len() ==> strictly_sorted(#[trigger] fs[j])
        &&& forall|k: Seq<char>| #[trigger] self.spec_graphs().contains_key(k) ==> self.spec_graphs()[k] < fs.len()
    }

    /// The table numbers the distinct texts of `its` in order of first
    /// appearance, and gives each the forests listed with it.
    pub open spec fn built_from(&self, its: Seq<(Seq<char>, Seq<u64>)>) -> bool {
        let names = distinct_names(its, its.len() as int);
        &&& self.spec_forests().len() == names.len()
        &&& self.spec_graphs().dom() == names.to_set()
        &&& forall|j: int| 0 <= j < names.len() ==> self.spec_graphs()[#[trigger] names[j]] == j
        &&& forall|j: int, x: u64| 0 <= j < names.len() ==> (#[trigger] self.spec_forests()[j].contains(x) <==> listed(its, its.len() as int, names[j], x))
    }

    /// Create a new table from a list of graphs, as graph6 text, each with a
    /// list of subforests. The graphs are numbered in order of first
    /// appearance; each gets the sorted union of the forests listed with it.
    pub fn new(items: &[(String, Vec<u64>)]) -> (r: Self)
        requires
            items_total(item_views(items@), items@.len() as int) <= usize::MAX,
        ensures
            r.wf(),
            r.built_from(item_views(items@)),
    {
        let ghost its = item_views(items@);
        let mut graphs = new_name_map();
        let mut sets: Vec<FxHashSet<u64>> = Vec::new();
        let mut i: usize = 0;
        while i < items.len()
            invariant
                its == item_views(items@),
                items_total(its, items@.len() as int) <= usize::MAX,
                i <= items@.len(),
                sets@.len() == distinct_names(its, i as int).len(),
                distinct_names(its, i as int).no_duplicates(),
                name_indices(graphs).dom() == distinct_names(its, i as int).to_set(),
                forall|j: int| 0 <= j < sets@.len() ==> name_indices(graphs)[#[trigger] distinct_names(its, i as int)[j]] == j,
                forall|j: int| 0 <= j < sets@.len() ==> (#[trigger] sets@[j])@.finite(),
                forall|j: int, x: u64| 0 <= j < sets@.len() ==> (#[trigger] sets@[j]@.contains(x) <==> listed(its, i as int, distinct_names(its, i as int)[j], x)),
                sets_total(set_views(sets@), sets@.len() as int) <= items_total(its, i as int),
            decreases items@.len() - i,
        {
            let ghost names0 = distinct_names(its, i as int);
            let name = &items[i].0;
            let fs = &items[i].1;
            proof {
                assert(its[i as int] == (name@, fs@));
            }
            let j = match name_map_get(&graphs, name.as_str()) {
                Some(j) => {
                    proof {
                        assert(names0.to_set().contains(name@));
                        let a = choose|a: int| 0 <= a < names0.len() && names0[a] == name@;
                        assert(name_indices(graphs)[names0[a]] == a);
                    }
                    j
                },
                None => {
                    let j = sets.len();
                    let ghost sv = set_views(sets@);
                    sets.push(new_mask_set());
                    name_map_insert(&mut graphs, name.clone(), j);
                    proof {
                        assert(!names0.contains(name@)) by {
                            if names0.contains(name@) {
                                assert(names0.to_set().contains(name@));
                            }
                        }
                        assert(set_views(sets@) =~= sv.push(Set::<u64>::empty()));
                        lemma_sets_total_push(sv, Set::<u64>::empty(), sv.len() as int);
                    }
                    j
                },
            };
            let ghost names = distinct_names(its, i as int + 1);
            proof {
                assert(names.to_set() =~= names0.to_set().insert(name@)) by {
                    if !names0.contains(name@) {
                        assert(names == names0.push(name@));
                        assert forall|x: Seq<char>| names.contains(x) <==> names0.contains(x) || x == name@ by {
                            if names.contains(x) {
                                let a = choose|a: int| 0 <= a < names.len() && names[a] == x;
                                if a < names0.len() {
                                    assert(names0[a] == x);
                                }
                            }
                            if names0.contains(x) {
                                let a = choose|a: int| 0 <= a < names0.len() && names0[a] == x;
                                assert(names[a] == x);
                            }
                            if x == name@ {
                                assert(names[names0.len() as int] == x);
                            }
                        }
                    } else {
                        assert(names == names0);
                    }
                }
                assert(names.no_duplicates());
                assert(names[j as int] == name@);
                assert forall|jj: int| 0 <= jj < sets@.len() implies name_indices(graphs)[#[trigger] names[jj]] == jj by {
                    if jj < names0.len() {
                        assert(names[jj] == names0[jj]);
                    }
                }
            }
            let ghost sets1 = sets@;
            let mut t: usize = 0;
            while t < fs.len()
                invariant
                    its == item_views(items@),
                    i < items@.len(),
                    its[i as int] == (name@, fs@),
                    names == distinct_names(its, i as int + 1),
                    names0 == distinct_names(its, i as int),
                    j < sets@.len(),
                    sets@.len() == names.len(),
                    names[j as int] == name@,
                    t <= fs@.len(),
                    forall|a: int| 0 <= a < sets@.len() ==> (#[trigger] sets@[a])@.finite(),
                    forall|a: int| 0 <= a < sets@.len() && a != j ==> #[trigger] sets@[a] == sets1[a],
                    forall|x: u64| #[trigger] sets@[j as int]@.contains(x) <==> (sets1[j as int]@.contains(x) || exists|u: int| 0 <= u < t && fs@[u] == x),
                    sets_total(set_views(sets@), sets@.len() as int) <= sets_total(set_views(sets1), sets1.len() as int) + t,
                decreases fs@.len() - t,
            {
                let ghost sv = set_views(sets@);
                let _ = mask_set_insert(&mut sets[j], fs[t]);
                proof {
                    assert(set_views(sets@) =~= sv.update(j as int, sv[j as int].insert(fs@[t as int])));
                    lemma_sets_total_update(sv, j as int, sv[j as int].insert(fs@[t as int]), sv.len() as int);
                    assert forall|x: u64| #[trigger] sets@[j as int]@.contains(x) <==> (sets1[j as int]@.contains(x) || exists|u: int| 0 <= u < t + 1 && fs@[u] == x) by {
                        if x == fs@[t as int] {
                        }
                    }
                }
                t = t + 1;
            }
            proof {
                assert(items_total(its, i as int + 1) == items_total(its, i as int) + fs@.len());
                assert forall|jj: int, x: u64| 0 <= jj < sets@.len() implies (#[trigger] sets@[jj]@.contains(x) <==> listed(its, i as int + 1, names[jj], x)) by {
                    lemma_listed_next(its, i as int, names[jj], x);
                    if jj < names0.len() {
                        assert(names[jj] == names0[jj]);
                    } else {
                        assert(jj == j);
                        if listed(its, i as int, names[jj], x) {
                            lemma_listed_in_names(its, i as int, names[jj], x);
                        }
                    }
                    if jj != j {
                        assert(sets@[jj] == sets1[jj]);
                        assert(names[jj] != names[j as int]);
                    } else {
                        if exists|u: int| 0 <= u < fs@.len() && fs@[u] == x {
                            let u = choose|u: int| 0 <= u < fs@.len() && fs@[u] == x;
                            assert(fs@.contains(x));
                        }
                        if fs@.contains(x) {
                            let u = choose|u: int| 0 <= u < fs@.len() && fs@[u] == x;
                        }
                    }
                }
            }
            i = i + 1;
        }
        let ghost names = distinct_names(its, items@.len() as int);
        let ghost final_sets = sets@;
        let mut forests: Vec<Vec<u64>> = Vec::new();
        let mut indices: Vec<usize> = Vec::new();
        indices.push(0);
        let mut sum: usize = 0;
        let mut j: usize = 0;
        while j < sets.len()
            invariant
                final_sets.len() == sets@.len(),
                j <= sets@.len(),
                forall|a: int| j <= a < sets@.len() ==> #[trigger] sets@[a] == final_sets[a],
                forall|a: int| 0 <= a < sets@.len() ==> (#[trigger] final_sets[a])@.finite(),
                forests@.len() == j,
                forall|a: int| 0 <= a < j ==> strictly_sorted(#[trigger] forest_views(forests@)[a]),
                forall|a: int, x: u64| 0 <= a < j ==> (#[trigger] forest_views(forests@)[a].contains(x) <==> final_sets[a]@.contains(x)),
                forall|a: int| 0 <= a < j ==> (#[trigger] forest_views(forests@)[a]).len() <= final_sets[a]@.len(),
                sum == offset(forest_views(forests@), j as int),
                offset(forest_views(forests@), j as int) <= sets_total(set_views(final_sets), j as int),
                sets_total(set_views(final_sets), final_sets.len() as int) <= usize::MAX,
                indices@.len() == j + 1,
                forall|a: int| 0 <= a <= j ==> #[trigger] indices@[a] == offset(forest_views(forests@), a),
            decreases sets@.len() - j,
        {
            let mut taken = new_mask_set();
            std::mem::swap(&mut sets[j], &mut taken);
            let v = mask_set_into_vec(taken);
            proof {
                v@.unique_seq_to_set();
            }
            let f = sorted_unique(v);
            let ghost fv0 = forest_views(forests@);
            let len = f.len();
            proof {
                lemma_sets_total_mono(set_views(final_sets), j as int + 1, final_sets.len() as int);
                assert(set_views(final_sets)[j as int] == final_sets[j as int]@);
                assert(sum + len <= sets_total(set_views(final_sets), j as int + 1));
            }
            forests.push(f);
            sum = sum + len;
            indices.push(sum);
            proof {
                let fv = forest_views(forests@);
                assert(fv =~= fv0.push(f@));
                lemma_offset_push(fv0, f@, j as int);
                assert forall|a: int| 0 <= a <= j + 1 implies #[trigger] indices@[a] == offset(fv, a) by {
                    if a <= j {
                        lemma_offset_push(fv0, f@, a);
                    }
                }
                assert forall|a: int, x: u64| 0 <= a < j + 1 implies (#[trigger] fv[a].contains(x) <==> final_sets[a]@.contains(x)) by {
                    if a == j {
                        assert(v@.contains(x) <==> v@.to_set().contains(x));
                    } else {
                        assert(fv[a] == fv0[a]);
                    }
                }
                assert forall|a: int| 0 <= a < j + 1 implies strictly_sorted(#[trigger] fv[a]) by {
                    if a < j {
                        assert(fv[a] == fv0[a]);
                    }
                }
                assert forall|a: int| 0 <= a < j + 1 implies (#[trigger] fv[a]).len() <= final_sets[a]@.len() by {
                    if a < j {
                        assert(fv[a] == fv0[a]);
                    }
                }
            }
            j = j + 1;
        }
        let r = GraphTable { graphs, forests, indices };
        proof {
            assert forall|k: Seq<char>| #[trigger] r.spec_graphs().contains_key(k) implies r.spec_graphs()[k] < r.spec_forests().len() by {
                assert(names.to_set().contains(k));
                let a = choose|a: int| 0 <= a < names.len() && names[a] == k;
                assert(name_indices(graphs)[names[a]] == a);
            }
            assert forall|jj: int, x: u64| 0 <= jj < names.len() implies (#[trigger] r.spec_forests()[jj].contains(x) <==> listed(its, its.len() as int, names[jj], x)) by {
                assert(final_sets[jj]@.contains(x) <==> listed(its, items@.len() as int, names[jj], x));
            }
        }
        r
    }

    /// The number of rows of the table: all forests of all graphs.
    pub fn size(&self) -> (r: usize)
        requires
            self.wf(),
        ensures
            r == offset(self.spec_forests(), self.spec_forests().len() as int),
    {
        self.indices[self.indices.len() - 1]
    }

    /// The number of graphs in the table.
    pub fn num_graphs(&self) -> (r: usize)
        ensures
            r == self.spec_forests().len(),
    {
        self.forests.len()
    }

    /// The table has a row for the graph with the text `g` and the forest `f`.
    pub open spec fn has_row(&self, g: Seq<char>, f: u64) -> bool {
        &&& self.spec_graphs().contains_key(g)
        &&& self.spec_forests()[self.spec_graphs()[g] as int].contains(f)
    }

    /// The row of the graph with the text `g` and the forest `f`: the first
    /// row of the graph plus the position of the forest among its forests.
    pub open spec fn row_index(&self, g: Seq<char>, f: u64) -> int {
        let j = self.spec_graphs()[g] as int;
        let fs = self.spec_forests()[j];
        offset(self.spec_forests(), j) + choose|p: int| 0 <= p < fs.len() && fs[p] == f
    }

    /// The row of a graph, by its graph6 text, with a subforest: the first row
    /// of the graph plus the position of the forest among its forests; `None`
    /// where the graph or the forest is not in the table.
    pub fn get_index(&self, g: &str, forest: u64) -> (r: Option<usize>)
        requires
            self.wf(),
        ensures
            match r {
                None => !self.spec_graphs().contains_key(g@)
                    || !self.spec_forests()[self.spec_graphs()[g@] as int].contains(forest),
                Some(row) => self.spec_graphs().contains_key(g@) && {
                    let j = self.spec_graphs()[g@] as int;
                    let fs = self.spec_forests()[j];
                    exists|p: int| 0 <= p < fs.len() && fs[p] == forest && row == p + offset(self.spec_forests(), j)
                },
            },
            r == (if self.has_row(g@, forest) { Some(self.row_index(g@, forest) as usize) } else { None }),
    {
        let index = match name_map_get(&self.graphs, g) {
            Some(index) => index,
            None => {
                return None;
            },
        };
        proof {
            assert(self.spec_forests().len() == self.forests@.len());
            assert(self.spec_graphs().contains_key(g@));
        }
        let fs = &self.forests[index];
        proof {
            assert(forest_views(self.forests@)[index as int] == fs@);
        }
        let p = match find_sorted(fs.as_slice(), forest) {
            Some(p) => p,
            None => {
                return None;
            },
        };
        proof {
            lemma_offset_mono(self.spec_forests(), index as int + 1, self.spec_forests().len() as int);
            assert(self.indices@[index as int + 1] == offset(self.spec_forests(), index as int + 1));
            let fs = self.spec_forests()[index as int];
            assert(fs.contains(forest));
            let q = choose|q: int| 0 <= q < fs.len() && fs[q] == forest;
            assert(strictly_sorted(fs));
            assert(p == q) by {
                if p < q {
                    assert(fs[p as int] < fs[q]);
                } else if p > q {
                    assert(fs[q] < fs[p as int]);
                }
            }
        }
        Some(p + self.indices[index])
    }
}

/// A table built from a list of graphs with their forests has a row for a
/// graph and a forest exactly when some item lists the forest with the graph;
/// every row lies below the table's size, and distinct pairs get distinct rows.
pub proof fn lemma_table_rows(
    t: GraphTable,
    its: Seq<(Seq<char>, Seq<u64>)>,
    g1: Seq<char>,
    f1: u64,
    g2: Seq<char>,
    f2: u64,
)
    requires
        t.wf(),
        t.built_from(its),
    ensures
        t.has_row(g1, f1) <==> listed(its, its.len() as int, g1, f1),
        t.has_row(g1, f1) ==> 0 <= t.row_index(g1, f1) < offset(t.spec_forests(), t.spec_forests().len() as int),
        t.has_row(g1, f1) && t.has_row(g2, f2) && (g1 != g2 || f1 != f2) ==> t.row_index(g1, f1) != t.row_index(g2, f2),
{
    let names = distinct_names(its, its.len() as int);
    let fss = t.spec_forests();
    if listed(its, its.len() as int, g1, f1) {
        lemma_listed_in_names(its, its.len() as int, g1, f1);
        let j = choose|j: int| 0 <= j < names.len() && names[j] == g1;
        assert(t.spec_graphs()[names[j]] == j);
        assert(names.to_set().contains(g1));
        assert(fss[j].contains(f1));
    }
    if t.has_row(g1, f1) {
        assert(names.to_set().contains(g1));
        let j = choose|j: int| 0 <= j < names.len() && names[j] == g1;
        assert(t.spec_graphs()[names[j]] == j);
        assert(listed(its, its.len() as int, names[j], f1));
        // the row lies inside the rows of its graph
        let fs = fss[j];
        let p = choose|p: int| 0 <= p < fs.len() && fs[p] == f1;
        assert(offset(fss, j + 1) == offset(fss, j) + fs.len());
        lemma_offset_mono(fss, j + 1, fss.len() as int);
        lemma_offset_mono(fss, 0, j);
        assert(t.row_index(g1, f1) == offset(fss, j) + p);
    }
    if t.has_row(g1, f1) && t.has_row(g2, f2) && (g1 != g2 || f1 != f2) {
        let j1 = t.spec_graphs()[g1] as int;
        let j2 = t.spec_graphs()[g2] as int;
        let fs1 = fss[j1];
        let fs2 = fss[j2];
        let p1 = choose|p: int| 0 <= p < fs1.len() && fs1[p] == f1;
        let p2 = choose|p: int| 0 <= p < fs2.len() && fs2[p] == f2;
        assert(names.to_set().contains(g1));
        assert(names.to_set().contains(g2));
        let a = choose|a: int| 0 <= a < names.len() && names[a] == g1;
        let b = choose|b: int| 0 <= b < names.len() && names[b] == g2;
        assert(t.spec_graphs()[names[a]] == a);
        assert(t.spec_graphs()[names[b]] == b);
        if j1 == j2 {
            assert(g1 == g2);
            assert(p1 != p2);
        } else if j1 < j2 {
            assert(offset(fss, j1 + 1) == offset(fss, j1) + fs1.len());
            lemma_offset_mono(fss, j1 + 1, j2);
        } else {
            assert(offset(fss, j2 + 1) == offset(fss, j2) + fs2.len());
            lemma_offset_mono(fss, j2 + 1, j1);
        }
    }
}

/// A position below the total of the first `n` lists lies in one of them.
proof fn lemma_offset_locate(fs: Seq<Seq<u64>>, i: int, n: int)
    requires
        0 <= n <= fs.len(),
        0 <= i < offset(fs, n),
    ensures
        exists|j: int| 0 <= j < n && #[trigger] offset(fs, j) <= i < offset(fs, j + 1),
    decreases n,
{
    if i >= offset(fs, n - 1) {
        assert(offset(fs, n - 1) <= i < offset(fs, n));
    } else {
        lemma_offset_locate(fs, i, n - 1);
        let j = choose|j: int| 0 <= j < n - 1 && #[trigger] offset(fs, j) <= i < offset(fs, j + 1);
        assert(offset(fs, j) <= i < offset(fs, j + 1));
    }
}

/// Every row below the size of a table built from a list of graphs is the
/// row of some graph and forest of the table: with `lemma_table_rows`, the
/// size counts the pairs of a graph and a forest listed with it.
pub proof fn lemma_table_size(t: GraphTable, its: Seq<(Seq<char>, Seq<u64>)>, i: int)
    requires
        t.wf(),
        t.built_from(its),
        0 <= i < offset(t.spec_forests(), t.spec_forests().len() as int),
    ensures
        exists|g: Seq<char>, f: u64| #[trigger] t.has_row(g, f) && t.row_index(g, f) == i,
{
    let names = distinct_names(its, its.len() as int);
    let fss = t.spec_forests();
    lemma_offset_locate(fss, i, fss.len() as int);
    let j = choose|j: int| 0 <= j < fss.len() && #[trigger] offset(fss, j) <= i < offset(fss, j + 1);
    let fs = fss[j];
    let p = i - offset(fss, j);
    assert(offset(fss, j + 1) == offset(fss, j) + fs.len());
    let f = fs[p];
    let g = names[j];
    assert(names.to_set().contains(g));
    assert(t.spec_graphs()[names[j]] == j);
    assert(fs.contains(f));
    assert(t.has_row(g, f));
    let q = choose|q: int| 0 <= q < fs.len() && fs[q] == f;
    assert(strictly_sorted(fs));
    assert(q == p) by {
        if q < p {
            assert(fs[q] < fs[p]);
        } else if q > p {
            assert(fs[p] < fs[q]);
        }
    }
    assert(t.row_index(g, f) == i);
}

proof fn lemma_listed_next(items: Seq<(Seq<char>, Seq<u64>)>, k: int, name: Seq<char>, x: u64)
    requires
        0 <= k < items.len(),
    ensures
        listed(items, k + 1, name, x) <==> (listed(items, k, name, x) || (items[k].0 == name && items[k].1.contains(x))),
{
    if listed(items, k + 1, name, x) {
        let i = choose|i: int| 0 <= i < k + 1 && #[trigger] items[i].0 == name && items[i].1.contains(x);
    }
    if listed(items, k, name, x) {
        let i = choose|i: int| 0 <= i < k && #[trigger] items[i].0 == name && items[i].1.contains(x);
    }
}

proof fn lemma_listed_in_names(items: Seq<(Seq<char>, Seq<u64>)>, k: int, name: Seq<char>, x: u64)
    requires
        0 <= k <= items.len(),
        listed(items, k, name, x),
    ensures
        distinct_names(items, k).contains(name),
    decreases k,
{
    let p = distinct_names(items, k - 1);
    lemma_listed_next(items, k - 1, name, x);
    if listed(items, k - 1, name, x) {
        lemma_listed_in_names(items, k - 1, name, x);
        if !p.contains(items[k - 1].0) {
            let a = choose|a: int| 0 <= a < p.len() && p[a] == name;
            assert(p.push(items[k - 1].0)[a] == name);
        }
    } else {
        if !p.contains(items[k - 1].0) {
            assert(p.push(items[k - 1].0)[p.len() as int] == name);
        }
    }
}

proof fn lemma_sets_total_mono(ss: Seq<Set<u64>>, a: int, b: int)
    requires
        0 <= a <= b <= ss.len(),
    ensures
        sets_total(ss, a) <= sets_total(ss, b),
    decreases b,
{
    if a < b {
        lemma_sets_total_mono(ss, a, b - 1);
    }
}


/// The matrix entries of one contracting differential column by column,
/// after the first `k` columns: for each entry `((i, m), s)` whose contracted
/// graph `i` and forest `m` have a row `j` in the table, `(j, c, s)` for the
/// column `c` (counted from `col_shift`).
pub open spec fn contract_entries_upto(
    names: Map<Seq<char>, usize>,
    forests: Seq<Seq<u64>>,
    graphs: Seq<(Seq<char>, Seq<u64>)>,
    cols: Seq<Seq<((usize, u64), i8)>>,
    col_shift: int,
    k: int,
) -> Seq<(usize, usize, i8)>
    decreases k,
{
    if k <= 0 {
        Seq::empty()
    } else {
        contract_entries_upto(names, forests, graphs, cols, col_shift, k - 1)
            + column_rows(names, forests, graphs, cols[k - 1], col_shift + k - 1, cols[k - 1].len() as int)
    }
}

/// The entries of the first `t` terms of one column.
pub open spec fn column_rows(
    names: Map<Seq<char>, usize>,
    forests: Seq<Seq<u64>>,
    graphs: Seq<(Seq<char>, Seq<u64>)>,
    col: Seq<((usize, u64), i8)>,
    c: int,
    t: int,
) -> Seq<(usize, usize, i8)>
    decreases t,
{
    if t <= 0 {
        Seq::empty()
    } else {
        let prev = column_rows(names, forests, graphs, col, c, t - 1);
        let ((i, m), s) = col[t - 1];
        let name = graphs[i as int].0;
        if names.contains_key(name) && forests[names[name] as int].contains(m) {
            let j = names[name] as int;
            let p = choose|p: int| 0 <= p < forests[j].len() && forests[j][p] == m;
            prev.push(((p + offset(forests, j)) as usize, c as usize, s))
        } else {
            prev
        }
    }
}

/// Every row of the entries of one column lies below the total number of
/// forests.
pub proof fn lemma_column_rows_bound(
    names: Map<Seq<char>, usize>,
    forests: Seq<Seq<u64>>,
    graphs: Seq<(Seq<char>, Seq<u64>)>,
    col: Seq<((usize, u64), i8)>,
    c: int,
    t: int,
)
    requires
        forall|k: Seq<char>| #[trigger] names.contains_key(k) ==> names[k] < forests.len(),
    ensures
        forall|e: int| 0 <= e < column_rows(names, forests, graphs, col, c, t).len() ==>
            (#[trigger] column_rows(names, forests, graphs, col, c, t)[e]).0 < offset(forests, forests.len() as int),
    decreases t,
{
    if t > 0 {
        lemma_column_rows_bound(names, forests, graphs, col, c, t - 1);
        let prev = column_rows(names, forests, graphs, col, c, t - 1);
        let ((i, m), s) = col[t - 1];
        let name = graphs[i as int].0;
        if names.contains_key(name) && forests[names[name] as int].contains(m) {
            let j = names[name] as int;
            let p = choose|p: int| 0 <= p < forests[j].len() && forests[j][p] == m;
            assert(offset(forests, j + 1) == offset(forests, j) + forests[j].len());
            lemma_offset_mono(forests, j + 1, forests.len() as int);
            lemma_offset_mono(forests, 0, j);
            let cur = column_rows(names, forests, graphs, col, c, t);
            assert forall|e: int| 0 <= e < cur.len() implies (#[trigger] cur[e]).0 < offset(forests, forests.len() as int) by {
                if e < prev.len() {
                    assert(cur[e] == prev[e]);
                }
            }
        }
    }
}

/// Every row of the entries of the first `k` columns lies below the total
/// number of forests.
pub proof fn lemma_entries_bound(
    names: Map<Seq<char>, usize>,
    forests: Seq<Seq<u64>>,
    graphs: Seq<(Seq<char>, Seq<u64>)>,
    cols: Seq<Seq<((usize, u64), i8)>>,
    col_shift: int,
    k: int,
)
    requires
        forall|key: Seq<char>| #[trigger] names.contains_key(key) ==> names[key] < forests.len(),
    ensures
        forall|e: int| 0 <= e < contract_entries_upto(names, forests, graphs, cols, col_shift, k).len() ==>
            (#[trigger] contract_entries_upto(names, forests, graphs, cols, col_shift, k)[e]).0 < offset(forests, forests.len() as int),
    decreases k,
{
    if k > 0 {
        lemma_entries_bound(names, forests, graphs, cols, col_shift, k - 1);
        let a = contract_entries_upto(names, forests, graphs, cols, col_shift, k - 1);
        let b = column_rows(names, forests, graphs, cols[k - 1], col_shift + k - 1, cols[k - 1].len() as int);
        lemma_column_rows_bound(names, forests, graphs, cols[k - 1], col_shift + k - 1, cols[k - 1].len() as int);
        let cur = contract_entries_upto(names, forests, graphs, cols, col_shift, k);
        assert(cur == a + b);
        assert forall|e: int| 0 <= e < cur.len() implies (#[trigger] cur[e]).0 < offset(forests, forests.len() as int) by {
            if e < a.len() {
                assert(cur[e] == a[e]);
            } else {
                assert(cur[e] == b[e - a.len()]);
            }
        }
    }
}

impl GraphTable {
    /// The entries of a contracting differential in this table's rows: for
    /// each column (numbered from `col_shift`) and each of its terms whose
    /// contracted graph and forest are in the table, the row, the column and
    /// the value. Terms the table lacks are left out.
    pub fn contract_entries(&self, dc: &crate::forested_graph::ContractDifferential, col_shift: usize) -> (r: Vec<(usize, usize, i8)>)
        requires
            self.wf(),
            col_shift + dc.spec_columns().len() <= usize::MAX,
            forall|c: int, t: int| 0 <= c < dc.spec_columns().len() && 0 <= t < dc.spec_columns()[c].len() ==>
                (#[trigger] dc.spec_columns()[c][t]).0.0 < dc.spec_contracted().len(),
        ensures
            r@ == contract_entries_upto(self.spec_graphs(), self.spec_forests(), dc.spec_contracted(), dc.spec_columns(), col_shift as int, dc.spec_columns().len() as int),
    {
        let graphs = dc.contracted_graphs();
        let cols = dc.columns();
        proof {
            let cv = crate::forested_graph::column_views(cols@);
            let gv = crate::forested_graph::contracted_views(graphs@);
            assert(gv.len() == graphs@.len());
            assert forall|c: int, t: int| 0 <= c < cols@.len() && 0 <= t < cols@[c]@.len() implies
                (#[trigger] cols@[c]@[t]).0.0 < graphs@.len() by {
                assert(cv[c] == cols@[c]@);
                assert(cv[c][t] == cols@[c]@[t]);
            }
        }
        self.entries_of(graphs, cols, col_shift)
    }

    /// The entries of columns whose terms name a graph of `graphs` by its
    /// position and a forest, in this table's rows: for each column (numbered
    /// from `col_shift`) and each of its terms whose graph and forest are in
    /// the table, the row, the column and the value.
    pub fn entries_of(&self, graphs: &[(String, Vec<u64>)], cols: &[Vec<((usize, u64), i8)>], col_shift: usize) -> (r: Vec<(usize, usize, i8)>)
        requires
            self.wf(),
            col_shift + cols@.len() <= usize::MAX,
            forall|c: int, t: int| 0 <= c < cols@.len() && 0 <= t < cols@[c]@.len() ==>
                (#[trigger] cols@[c]@[t]).0.0 < graphs@.len(),
        ensures
            r@ == contract_entries_upto(self.spec_graphs(), self.spec_forests(), crate::forested_graph::contracted_views(graphs@), crate::forested_graph::column_views(cols@), col_shift as int, cols@.len() as int),
    {
        let ghost cv = crate::forested_graph::column_views(cols@);
        let ghost gv = crate::forested_graph::contracted_views(graphs@);
        proof {
            assert forall|c: int, t: int| 0 <= c < cv.len() && 0 <= t < cv[c].len() implies (#[trigger] cv[c][t]).0.0 < gv.len() by {
                assert(cv[c] == cols@[c]@);
            }
        }
        let mut out: Vec<(usize, usize, i8)> = Vec::new();
        let mut k: usize = 0;
        while k < cols.len()
            invariant
                self.wf(),
                crate::forested_graph::column_views(cols@) == cv,
                crate::forested_graph::contracted_views(graphs@) == gv,
                col_shift + cv.len() <= usize::MAX,
                forall|c: int, t: int| 0 <= c < cv.len() && 0 <= t < cv[c].len() ==> (#[trigger] cv[c][t]).0.0 < gv.len(),
                k <= cols@.len(),
                out@ == contract_entries_upto(self.spec_graphs(), self.spec_forests(), gv, cv, col_shift as int, k as int),
            decreases cols@.len() - k,
        {
            let col = &cols[k];
            proof {
                assert(cv[k as int] == col@);
            }
            let ghost base = out@;
            let mut t: usize = 0;
            while t < col.len()
                invariant
                    self.wf(),
                    crate::forested_graph::contracted_views(graphs@) == gv,
                    k < cv.len(),
                    cv[k as int] == col@,
                    col_shift + cv.len() <= usize::MAX,
                    forall|tt: int| 0 <= tt < col@.len() ==> (#[trigger] col@[tt]).0.0 < gv.len(),
                    t <= col@.len(),
                    out@ == base + column_rows(self.spec_graphs(), self.spec_forests(), gv, col@, col_shift + k, t as int),
                decreases col@.len() - t,
            {
                let ((i, m), s) = col[t];
                proof {
                    assert(col@[t as int].0.0 < gv.len());
                    assert(gv[i as int].0 == graphs@[i as int].0@);
                }
                let name = &graphs[i].0;
                match self.get_index(name.as_str(), m) {
                    Some(j) => {
                        proof {
                            let jj = self.spec_graphs()[name@] as int;
                            let fs = self.spec_forests()[jj];
                            let p = choose|p: int| 0 <= p < fs.len() && fs[p] == m && j == p + offset(self.spec_forests(), jj);
                            assert(fs.contains(m));
                            let q = choose|q: int| 0 <= q < fs.len() && fs[q] == m;
                            assert(strictly_sorted(fs));
                            assert(p == q) by {
                                if p < q {
                                    assert(fs[p] < fs[q]);
                                } else if p > q {
                                    assert(fs[q] < fs[p]);
                                }
                            }
                        }
                        out.push((j, col_shift + k, s));
                        proof {
                            assert(out@ =~= base + column_rows(self.spec_graphs(), self.spec_forests(), gv, col@, col_shift + k, t + 1));
                        }
                    },
                    None => {
                        proof {
                            assert(out@ =~= base + column_rows(self.spec_graphs(), self.spec_forests(), gv, col@, col_shift + k, t + 1));
                        }
                    },
                }
                t = t + 1;
            }
            proof {
                assert(out@ =~= contract_entries_upto(self.spec_graphs(), self.spec_forests(), gv, cv, col_shift as int, k + 1));
            }
            k = k + 1;
        }
        out
    }
}


/// The masks of a list, each after a space in uppercase hexadecimal.
pub open spec fn masks_text(fs: Seq<u64>) -> Seq<char>
    decreases fs.len(),
{
    if fs.len() == 0 {
        Seq::empty()
    } else {
        masks_text(fs.drop_last()).push(' ') + crate::registry::hex_upper(fs.last() as nat)
    }
}

/// Append each mask after a space, in uppercase hexadecimal.
pub fn push_masks(s: &mut String, fs: &[u64])
    ensures
        final(s)@ == old(s)@ + masks_text(fs@),
{
    let mut i: usize = 0;
    while i < fs.len()
        invariant
            i <= fs@.len(),
            s@ == old(s)@ + masks_text(fs@.take(i as int)),
        decreases fs@.len() - i,
    {
        let ghost s0 = s@;
        crate::g6::push_char(s, ' ');
        crate::registry::push_hex(s, fs[i]);
        proof {
            assert(fs@.take(i + 1).drop_last() =~= fs@.take(i as int));
            assert(s@ =~= old(s)@ + masks_text(fs@.take(i + 1)));
        }
        i = i + 1;
    }
    proof {
        assert(fs@.take(fs@.len() as int) =~= fs@);
    }
}

impl GraphTable {
    /// The table as text: a line for each graph, in order of their rows, with
    /// its graph6 text and then its forests in uppercase hexadecimal, each
    /// after a space.
    #[verifier::rlimit(60)]
    #[verifier::spinoff_prover]
    pub fn to_text(&self) -> (s: String)
        requires
            self.wf(),
        ensures
            exists|names: Seq<Seq<char>>| {
                &&& names.len() == self.spec_forests().len()
                &&& forall|i: int| 0 <= i < names.len() ==> (#[trigger] self.spec_graphs().contains_key(names[i]) && self.spec_graphs()[names[i]] == i)
                    || (names[i].len() == 0 && !exists|k: Seq<char>| #[trigger] self.spec_graphs().contains_key(k) && self.spec_graphs()[k] == i)
                &&& s@ == table_text(names, self.spec_forests(), names.len() as int)
            },
    {
        let entries = name_map_entries(&self.graphs);
        let mut s = String::new();
        let ghost mut names: Seq<Seq<char>> = Seq::empty();
        let mut i: usize = 0;
        while i < self.forests.len()
            invariant
                self.wf(),
                forall|e: int| 0 <= e < entries@.len() ==> name_indices(self.graphs).contains_key(#[trigger] entries@[e].0@) && name_indices(self.graphs)[entries@[e].0@] == entries@[e].1,
                forall|k: Seq<char>| #[trigger] name_indices(self.graphs).contains_key(k) ==> exists|e: int| 0 <= e < entries@.len() && #[trigger] entries@[e].0@ == k,
                i <= self.forests@.len(),
                self.spec_forests().len() == self.forests@.len(),
                names.len() == i,
                forall|a: int| 0 <= a < i ==> (#[trigger] self.spec_graphs().contains_key(names[a]) && self.spec_graphs()[names[a]] == a)
                    || (names[a].len() == 0 && !exists|k: Seq<char>| #[trigger] self.spec_graphs().contains_key(k) && self.spec_graphs()[k] == a),
                s@ == table_text(names, self.spec_forests(), i as int),
            decreases self.forests@.len() - i,
        {
            let mut e: usize = 0;
            let mut found = false;
            let ghost s0 = s@;
            while e < entries.len() && !found
                invariant
                    e <= entries@.len(),
                    !found ==> s@ == s0,
                    !found ==> forall|x: int| 0 <= x < e ==> entries@[x].1 != i,
                    found ==> exists|x: int| 0 <= x < entries@.len() && entries@[x].1 == i && s@ == s0 + entries@[x].0@,
                decreases entries@.len() - e,
            {
                if entries[e].1 == i {
                    s.append(entries[e].0.as_str());
                    found = true;
                }
                e = e + 1;
            }
            let ghost name: Seq<char> = if found {
                let x = choose|x: int| 0 <= x < entries@.len() && entries@[x].1 == i && s@ == s0 + entries@[x].0@;
                entries@[x].0@
            } else {
                Seq::empty()
            };
            proof {
                if found {
                    let x = choose|x: int| 0 <= x < entries@.len() && entries@[x].1 == i && s@ == s0 + entries@[x].0@;
                    assert(name == entries@[x].0@);
                    assert(self.spec_graphs().contains_key(name));
                    assert(self.spec_graphs()[name] == i);
                } else {
                    assert(s@ =~= s0 + name);
                    if exists|k: Seq<char>| #[trigger] self.spec_graphs().contains_key(k) && self.spec_graphs()[k] == i {
                        let k = choose|k: Seq<char>| #[trigger] self.spec_graphs().contains_key(k) && self.spec_graphs()[k] == i;
                        let x = choose|x: int| 0 <= x < entries@.len() && #[trigger] entries@[x].0@ == k;
                        assert(entries@[x].1 == i);
                    }
                }
            }
            let ghost s1 = s@;
            let fs = &self.forests[i];
            proof {
                assert(forest_views(self.forests@)[i as int] == fs@);
            }
            push_masks(&mut s, fs.as_slice());
            crate::g6::push_char(&mut s, '\n');
            proof {
                let names2 = names.push(name);
                assert(table_text(names2, self.spec_forests(), i as int) == table_text(names, self.spec_forests(), i as int)) by {
                    lemma_table_text_prefix(names, names2, self.spec_forests(), i as int);
                }
                assert(s@ =~= table_text(names2, self.spec_forests(), i + 1));
                assert forall|a: int| 0 <= a < i + 1 implies (#[trigger] self.spec_graphs().contains_key(names2[a]) && self.spec_graphs()[names2[a]] == a)
                    || (names2[a].len() == 0 && !exists|k: Seq<char>| #[trigger] self.spec_graphs().contains_key(k) && self.spec_graphs()[k] == a) by {
                    if a < i {
                        assert(names2[a] == names[a]);
                    } else {
                        assert(names2[a] == name);
                    }
                }
                names = names2;
            }
            i = i + 1;
        }
        s
    }
}

/// The text of the first `k` lines of a table.
pub open spec fn table_text(names: Seq<Seq<char>>, forests: Seq<Seq<u64>>, k: int) -> Seq<char>
    decreases k,
{
    if k <= 0 {
        Seq::empty()
    } else {
        (table_text(names, forests, k - 1) + names[k - 1] + masks_text(forests[k - 1])).push('\n')
    }
}

proof fn lemma_table_text_prefix(a: Seq<Seq<char>>, b: Seq<Seq<char>>, forests: Seq<Seq<u64>>, k: int)
    requires
        0 <= k <= a.len(),
        k <= b.len(),
        forall|i: int| 0 <= i < k ==> a[i] == b[i],
    ensures
        table_text(a, forests, k) == table_text(b, forests, k),
    decreases k,
{
    if k > 0 {
        lemma_table_text_prefix(a, b, forests, k - 1);
    }
}

} // verus!
