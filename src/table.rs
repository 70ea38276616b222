use vstd::prelude::*;

use crate::measurements::Measurements;
use fxhash::FxHashMap;

verus! {

/// A hash map from station names, as spans of the input buffer, to their
/// statistics. Two spans with the same bytes are the same station.
#[verifier::external_body]
pub struct StationTable<'a> {
    m: FxHashMap<&'a [u8], Measurements>,
}

/// What a table holds, keyed by the bytes of each station name.
pub uninterp spec fn table_view(t: StationTable<'_>) -> Map<Seq<u8>, Measurements>;

/// Every key of `m` is the name of exactly one entry, and each entry holds the
/// value that `m` gives its name.
pub open spec fn lists_map<'a>(
    entries: Seq<(&'a [u8], Measurements)>,
    m: Map<Seq<u8>, Measurements>,
) -> bool {
    &&& forall|i: int, j: int|
        0 <= i < j < entries.len() ==> entries[i].0@ != entries[j].0@
    &&& forall|i: int|
        0 <= i < entries.len() ==> #[trigger] m.contains_key(entries[i].0@) && m[entries[i].0@]
            == entries[i].1
    &&& forall|k: Seq<u8>|
        #[trigger] m.contains_key(k) ==> exists|i: int|
            0 <= i < entries.len() && #[trigger] entries[i].0@ == k
}

impl<'a> StationTable<'a> {
    /// Relies on `FxHashMap::default` (std's `HashMap` with fxhash's hasher):
    /// a new map is empty.
    #[verifier::external_body]
    pub(crate) fn empty() -> (r: Self)
        ensures
            table_view(r) =~= Map::empty(),
    {
        StationTable { m: FxHashMap::default() }
    }

    /// Relies on `HashMap::get`: the value stored under a key equal to `k`,
    /// where `[u8]` keys are equal when their bytes are.
    #[verifier::external_body]
    pub(crate) fn get(&self, k: &[u8]) -> (r: Option<Measurements>)
        ensures
            r == (if table_view(*self).contains_key(k@) {
                Some(table_view(*self)[k@])
            } else {
                None
            }),
    {
        self.m.get(k).copied()
    }

    /// Relies on `HashMap::insert`: afterwards `k` maps to `v` and every other
    /// key is unchanged.
    #[verifier::external_body]
    pub(crate) fn insert(&mut self, k: &'a [u8], v: Measurements)
        ensures
            table_view(*final(self)) == table_view(*old(self)).insert(k@, v),
    {
        self.m.insert(k, v);
    }

    /// Relies on `HashMap::into_iter`: each entry once, in an order that the
    /// map does not fix.
    #[verifier::external_body]
    pub(crate) fn into_entries(self) -> (r: Vec<(&'a [u8], Measurements)>)
        ensures
            lists_map(r@, table_view(self)),
    {
        self.m.into_iter().collect()
    }
}

} // verus!
