//! The Fx hash sets and maps of `rustc_hash`: the std collections with the Fx
//! hasher. Their contents are the views `Set` and `Map` that vstd gives std's
//! `HashSet` and `HashMap`; the operations the library calls are trusted
//! wrappers below.
use vstd::prelude::*;
use rustc_hash::{FxBuildHasher, FxHashMap, FxHashSet};

verus! {

/// The Fx hash builder of `rustc_hash`.
#[verifier::external_type_specification]
#[verifier::external_body]
pub struct ExFxBuildHasher(rustc_hash::FxBuildHasher);

/// An empty Fx hash set of masks.
pub fn new_mask_set() -> (s: FxHashSet<u64>)
    ensures
        s@ == Set::<u64>::empty(),
{
    FxHashSet::default()
}

/// `HashSet::insert` on an Fx hash set of masks: the mask is added, and the
/// result says whether it was absent. std documents this for every hasher whose
/// hashes are a function of the value, as Fx hashes are.
#[verifier::external_body]
pub fn mask_set_insert(s: &mut FxHashSet<u64>, x: u64) -> (fresh: bool)
    ensures
        final(s)@ == old(s)@.insert(x),
        fresh == !old(s)@.contains(x),
{
    s.insert(x)
}

/// The masks of an Fx hash set, each once, in the set's iteration order, which
/// std leaves unspecified (`HashSet::into_iter`).
#[verifier::external_body]
pub fn mask_set_into_vec(s: FxHashSet<u64>) -> (v: Vec<u64>)
    ensures
        v@.to_set() == s@,
        v@.no_duplicates(),
{
    s.into_iter().collect()
}

/// An empty Fx hash set of row numbers.
pub fn new_row_set() -> (s: FxHashSet<u32>)
    ensures
        s@ == Set::<u32>::empty(),
{
    FxHashSet::default()
}

/// `HashSet::insert` on an Fx hash set of row numbers: the row is added, and
/// the result says whether it was absent.
#[verifier::external_body]
pub fn row_set_insert(s: &mut FxHashSet<u32>, x: u32) -> (fresh: bool)
    ensures
        final(s)@ == old(s)@.insert(x),
        fresh == !old(s)@.contains(x),
{
    s.insert(x)
}

/// An empty Fx hash map from vertex pairs to pairs.
pub fn new_pair_map() -> (m: FxHashMap<(u8, u8), (u8, u8)>)
    ensures
        m@ == Map::<(u8, u8), (u8, u8)>::empty(),
{
    FxHashMap::default()
}

/// `HashMap::get` on an Fx hash map keyed by vertex pairs: the value stored
/// under the key, if any.
#[verifier::external_body]
pub fn pair_map_get(m: &FxHashMap<(u8, u8), (u8, u8)>, k: (u8, u8)) -> (r: Option<(u8, u8)>)
    ensures
        r == (if m@.contains_key(k) {
            Some(m@[k])
        } else {
            None::<(u8, u8)>
        }),
{
    m.get(&k).copied()
}

/// `HashMap::insert` on an Fx hash map keyed by vertex pairs: the key is bound
/// to the value, replacing any earlier value.
#[verifier::external_body]
pub fn pair_map_insert(m: &mut FxHashMap<(u8, u8), (u8, u8)>, k: (u8, u8), v: (u8, u8))
    ensures
        final(m)@ == old(m)@.insert(k, v),
{
    m.insert(k, v);
}

/// The entries of an Fx hash map keyed by vertex pairs, each key once, in the
/// map's iteration order, which std leaves unspecified (`HashMap::into_iter`).
#[verifier::external_body]
pub fn pair_map_into_vec(m: FxHashMap<(u8, u8), (u8, u8)>) -> (v: Vec<((u8, u8), (u8, u8))>)
    ensures
        forall|i: int| 0 <= i < v@.len() ==> m@.contains_key(#[trigger] v@[i].0) && m@[v@[i].0] == v@[i].1,
        forall|k: (u8, u8)| #[trigger] m@.contains_key(k) ==> exists|i: int| 0 <= i < v@.len() && #[trigger] v@[i].0 == k,
        forall|i: int, j: int| 0 <= i < v@.len() && 0 <= j < v@.len() && #[trigger] v@[i].0 == #[trigger] v@[j].0 ==> i == j,
{
    m.into_iter().collect()
}

} // verus!
