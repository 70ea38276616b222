use vstd::prelude::*;

use crate::measurements::Measurements;
use crate::table::{lists_map, table_view, StationTable};

verus! {

/// The statistics of `m` after one more reading of station `k`.
pub open spec fn record_map(m: Map<Seq<u8>, Measurements>, k: Seq<u8>, reading: i64) -> Map<
    Seq<u8>,
    Measurements,
> {
    m.insert(
        k,
        if m.contains_key(k) {
            m[k].recorded(reading)
        } else {
            Measurements::seeded(reading)
        },
    )
}

/// Two mappings taken together: a station of both has the merge of its two
/// aggregates, any other station keeps the one it has.
pub open spec fn merge_maps(a: Map<Seq<u8>, Measurements>, b: Map<Seq<u8>, Measurements>) -> Map<
    Seq<u8>,
    Measurements,
> {
    Map::new(
        |k: Seq<u8>| a.contains_key(k) || b.contains_key(k),
        |k: Seq<u8>|
            if a.contains_key(k) && b.contains_key(k) {
                a[k].merged(b[k])
            } else if a.contains_key(k) {
                a[k]
            } else {
                b[k]
            },
    )
}

/// The statistics of every station seen so far, keyed by station name.
pub struct Data<'a> {
    pub m: StationTable<'a>,
}

impl<'a> Data<'a> {
    pub open spec fn view(&self) -> Map<Seq<u8>, Measurements> {
        table_view(self.m)
    }

    pub fn new() -> (r: Data<'a>)
        ensures
            r@ == Map::<Seq<u8>, Measurements>::empty(),
    {
        Data { m: StationTable::empty() }
    }

    /// Adds one reading of `station`, seeding its statistics on first sight.
    pub fn record(&mut self, station: &'a [u8], reading: i64)
        ensures
            final(self)@ == record_map(old(self)@, station@, reading),
    {
        match self.m.get(station) {
            Some(mut m) => {
                m.record(reading);
                self.m.insert(station, m);
            },
            None => {
                self.m.insert(station, Measurements::new(reading));
            },
        }
    }

    /// Folds the statistics of `other` into these.
    pub fn merge(&mut self, other: Data<'a>)
        ensures
            final(self)@ == merge_maps(old(self)@, other@),
    {
        let ghost start = self@;
        let ghost theirs = other@;
        let entries = other.m.into_entries();
        let mut i: usize = 0;
        assert(merge_maps(start, theirs.restrict(Set::empty())) =~= start);
        while i < entries.len()
            invariant
                0 <= i <= entries@.len(),
                lists_map(entries@, theirs),
                self@ == merge_maps(
                    start,
                    theirs.restrict(Set::new(|k: Seq<u8>| exists|j: int| 0 <= j < i && #[trigger] entries@[j].0@ == k)),
                ),
            decreases entries@.len() - i,
        {
            let (station, theirs_i) = entries[i];
            let ghost done = Set::new(|k: Seq<u8>| exists|j: int| 0 <= j < i && #[trigger] entries@[j].0@ == k);
            let ghost now = Set::new(|k: Seq<u8>| exists|j: int| 0 <= j < i + 1 && #[trigger] entries@[j].0@ == k);
            let ghost before = self@;
            match self.m.get(station) {
                Some(mut m) => {
                    m.merge(theirs_i);
                    self.m.insert(station, m);
                },
                None => {
                    self.m.insert(station, theirs_i);
                },
            }
            proof {
                assert(!done.contains(station@));
                assert(now.contains(station@));
                assert forall|k: Seq<u8>| done.contains(k) || k == station@ implies #[trigger] now.contains(k) by {
                    if k != station@ {
                        let j = choose|j: int| 0 <= j < i && #[trigger] entries@[j].0@ == k;
                        assert(0 <= j < i + 1 && entries@[j].0@ == k);
                    }
                }
                assert forall|k: Seq<u8>| #[trigger] now.contains(k) implies done.contains(k) || k == station@ by {
                    let j = choose|j: int| 0 <= j < i + 1 && #[trigger] entries@[j].0@ == k;
                    if j < i {
                        assert(done.contains(k));
                    }
                }
                assert(self@ =~= merge_maps(start, theirs.restrict(now)));
            }
            i = i + 1;
        }
        proof {
            let all = Set::new(|k: Seq<u8>| exists|j: int| 0 <= j < entries@.len() && #[trigger] entries@[j].0@ == k);
            assert(theirs.restrict(all) =~= theirs);
        }
    }
}

} // verus!
