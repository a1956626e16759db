use vstd::prelude::*;
use intmap::IntMap;

verus! {

/// intmap's map from `u64` keys, carried by value; its contents are opaque here.
#[verifier::external_type_specification]
#[verifier::external_body]
#[verifier::reject_recursive_types(V)]
pub struct ExIntMap<V>(intmap::IntMap<V>);

/// What an `IntMap<u64>` holds, key by key.
pub uninterp spec fn count_entries(m: IntMap<u64>) -> Map<u64, u64>;

/// Relies on intmap::IntMap::new: a map with no entry.
#[verifier::external_body]
pub(crate) fn empty_counts() -> (r: IntMap<u64>)
    ensures
        count_entries(r).dom().is_empty(),
{
    IntMap::new()
}

/// Relies on intmap::IntMap::get: the value stored under `key`, if any.
#[verifier::external_body]
pub(crate) fn count_of(m: &IntMap<u64>, key: u64) -> (r: Option<u64>)
    ensures
        r == (if count_entries(*m).dom().contains(key) {
            Some(count_entries(*m)[key])
        } else {
            None::<u64>
        }),
{
    m.get(key).copied()
}

/// Relies on intmap::IntMap::insert: `key` now maps to `value`, the other
/// entries stay.
#[verifier::external_body]
pub(crate) fn set_count(m: &mut IntMap<u64>, key: u64, value: u64)
    ensures
        count_entries(*final(m)) == count_entries(*old(m)).insert(key, value),
{
    m.insert(key, value);
}

/// Relies on intmap::IntMap::drain, run to its end: every entry comes out
/// once, in no particular order, and the map is left empty.
#[verifier::external_body]
pub(crate) fn drain_counts(m: &mut IntMap<u64>) -> (r: Vec<(u64, u64)>)
    ensures
        count_entries(*final(m)).dom().is_empty(),
        forall|i: int|
            0 <= i < r@.len() ==> #[trigger] count_entries(*old(m)).contains_pair(r@[i].0, r@[i].1),
        forall|k: u64|
            #[trigger] count_entries(*old(m)).dom().contains(k) ==> exists|i: int|
                0 <= i < r@.len() && r@[i].0 == k,
        forall|i: int, j: int| 0 <= i < j < r@.len() ==> r@[i].0 != r@[j].0,
{
    m.drain().collect()
}

/// Pairs in lexicographic order, as std orders tuples.
pub open spec fn pair_le(a: (u64, u64), b: (u64, u64)) -> bool {
    a.0 < b.0 || (a.0 == b.0 && a.1 <= b.1)
}

/// Relies on itertools::sorted: the same pairs in ascending order.
#[verifier::external_body]
pub(crate) fn sort_pairs(v: Vec<(u64, u64)>) -> (r: Vec<(u64, u64)>)
    ensures
        r@.to_multiset() == v@.to_multiset(),
        forall|i: int, j: int| 0 <= i < j < r@.len() ==> pair_le(r@[i], r@[j]),
{
    itertools::sorted(v).collect()
}

} // verus!
