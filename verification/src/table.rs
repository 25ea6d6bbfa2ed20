//! The table of aggregates that one scan fills: a hash map from key to
//! aggregate, with keys that borrow from the scanned buffer.
//!
//! The map is an `FxHashMap`. What it holds is named by `map_contents`, and
//! each of its methods that the table uses is called in one small function
//! whose contract is taken on trust.

use crate::listing::{
    ascending, distinct_keys, enumerates, is_sorted_listing, lemma_rearranged_listing,
};
use crate::stats::{StationData, Stats};
use crate::summary::{add_record, merge_maps, Summary};
use rustc_hash::{FxBuildHasher, FxHashMap};
use vstd::prelude::*;

verus! {

/// The number of distinct keys that a table is laid out for.
pub const MAX_GROUPS: usize = 512;

/// `rustc_hash::FxBuildHasher`, the hasher of an `FxHashMap`. Nothing is said
/// of it; it is declared so that the map's type can be written.
#[verifier::external_type_specification]
#[verifier::external_body]
pub struct ExFxBuildHasher(FxBuildHasher);

/// The aggregate of each key, in machine integers.
pub type Contents = Map<Seq<u8>, StationData>;

/// What an `FxHashMap` from byte strings to aggregates holds: the aggregate of
/// each key, the keys taken by their bytes.
pub uninterp spec fn map_contents(map: FxHashMap<&[u8], StationData>) -> Contents;

/// The contents of a map with each aggregate in mathematical integers.
pub open spec fn contents_view(contents: Contents) -> Summary {
    contents.map_values(|data: StationData| data@)
}

/// The entries of a vector with each key taken by its bytes.
pub open spec fn raw_entries(entries: Seq<(&[u8], StationData)>) -> Seq<(Seq<u8>, StationData)> {
    Seq::new(entries.len(), |i: int| (entries[i].0@, entries[i].1))
}

/// The entries of a vector as keys and aggregates in mathematical integers.
pub open spec fn entries_view(entries: Seq<(&[u8], StationData)>) -> Seq<(Seq<u8>, Stats)> {
    Seq::new(entries.len(), |i: int| (entries[i].0@, entries[i].1@))
}

/// `HashMap::with_capacity_and_hasher` with an `FxBuildHasher`: the new map
/// holds nothing. The capacity is kept small enough for the allocation size
/// not to overflow.
#[verifier::external_body]
fn map_with_capacity<'a>(capacity: usize) -> (fresh: FxHashMap<&'a [u8], StationData>)
    requires
        capacity <= 0x10000,
    ensures
        map_contents(fresh) == Contents::empty(),
{
    FxHashMap::with_capacity_and_hasher(capacity, FxBuildHasher)
}

/// `HashMap::get_mut`: a reference to the aggregate of `key` where the map
/// holds the key; what is written through it becomes the aggregate of `key`
/// and nothing else changes. `None` where the map does not hold the key.
#[verifier::external_body]
fn map_get_mut<'m, 'a>(map: &'m mut FxHashMap<&'a [u8], StationData>, key: &[u8]) -> (slot: Option<
    &'m mut StationData,
>)
    ensures
        match slot {
            Some(data) => map_contents(*old(map)).contains_key(key@) && *data == map_contents(
                *old(map),
            )[key@] && map_contents(*final(map)) == map_contents(*old(map)).insert(
                key@,
                *final(data),
            ),
            None => !map_contents(*old(map)).contains_key(key@) && map_contents(*final(map))
                == map_contents(*old(map)),
        },
{
    map.get_mut(key)
}

/// `HashMap::get`, with the aggregate copied out: the aggregate of `key`
/// where the map holds the key, else `None`.
#[verifier::external_body]
fn map_get(map: &FxHashMap<&[u8], StationData>, key: &[u8]) -> (found: Option<StationData>)
    ensures
        match found {
            Some(data) => map_contents(*map).contains_key(key@) && map_contents(*map)[key@] == data,
            None => !map_contents(*map).contains_key(key@),
        },
{
    map.get(key).copied()
}

/// `HashMap::insert`: afterwards `key` has the aggregate `value`, and every
/// other key what it had.
#[verifier::external_body]
fn map_insert<'a>(map: &mut FxHashMap<&'a [u8], StationData>, key: &'a [u8], value: StationData)
    ensures
        map_contents(*final(map)) == map_contents(*old(map)).insert(key@, value),
{
    map.insert(key, value);
}

/// `HashMap::into_iter`, collected: every entry of the map once, in an order
/// of which nothing is said.
#[verifier::external_body]
fn map_into_entries<'a>(map: FxHashMap<&'a [u8], StationData>) -> (entries: Vec<
    (&'a [u8], StationData),
>)
    ensures
        enumerates(raw_entries(entries@), map_contents(map)),
        distinct_keys(raw_entries(entries@)),
{
    map.into_iter().collect()
}

/// `slice::sort_unstable_by_key` with the key of each entry: the same entries,
/// rearranged so that no entry stands before one with a smaller key. Byte
/// strings are compared lexicographically.
#[verifier::external_body]
fn sort_entries(entries: &mut Vec<(&[u8], StationData)>)
    ensures
        raw_entries(final(entries)@).to_multiset() == raw_entries(old(entries)@).to_multiset(),
        ascending(raw_entries(final(entries)@)),
{
    entries.sort_unstable_by_key(|entry| entry.0);
}

/// The aggregate of every key that a scan has met.
#[derive(Clone, Debug)]
pub struct Table<'a> {
    map: FxHashMap<&'a [u8], StationData>,
}

impl<'a> View for Table<'a> {
    type V = Summary;

    closed spec fn view(&self) -> Summary {
        contents_view(map_contents(self.map))
    }
}

impl<'a> Table<'a> {
    /// Every aggregate in the table stands for at least one value, and has a
    /// sum that its count allows.
    pub closed spec fn well_formed(&self) -> bool {
        forall|key: Seq<u8>| #[trigger]
            map_contents(self.map).contains_key(key) ==> map_contents(self.map)[key].well_formed()
                && map_contents(self.map)[key].report_count >= 1
    }

    /// A table without entries.
    pub fn new() -> (table: Table<'a>)
        ensures
            table.well_formed(),
            table@ == Summary::empty(),
    {
        let table = Table { map: map_with_capacity(MAX_GROUPS * 4) };
        assert(table@ =~= Summary::empty());
        table
    }

    /// Takes one record into the table: a key that is new gets the aggregate
    /// of this one value, a key that is known has the value taken into its
    /// aggregate.
    pub fn record(&mut self, key: &'a [u8], value: i64)
        requires
            old(self).well_formed(),
            old(self)@.contains_key(key@) ==> old(self)@[key@].count < usize::MAX,
        ensures
            final(self).well_formed(),
            final(self)@ == add_record(old(self)@, key@, value as int),
    {
        match map_get_mut(&mut self.map, key) {
            Some(entry) => {
                entry.record(value);
            },
            None => {
                let mut entry = StationData::new();
                entry.record(value);
                map_insert(&mut self.map, key, entry);
            },
        }
        assert(final(self)@ =~= add_record(old(self)@, key@, value as int));
    }

    /// The aggregate of `key`, where the table has one.
    pub fn get(&self, key: &[u8]) -> (found: Option<StationData>)
        requires
            self.well_formed(),
        ensures
            match found {
                Some(data) => self@.contains_key(key@) && self@[key@] == data@
                    && data.well_formed() && data.report_count >= 1,
                None => !self@.contains_key(key@),
            },
    {
        map_get(&self.map, key)
    }

    /// Whether no key of both tables has more values in the two together than
    /// a count can hold.
    pub open spec fn fits(&self, other: &Table<'a>) -> bool {
        forall|key: Seq<u8>|
            self@.contains_key(key) && other@.contains_key(key) ==> self@[key].count
                + other@[key].count <= usize::MAX
    }

    /// Takes the entries of `other` into the table. A key of both tables gets
    /// the combination of its two aggregates.
    pub fn merge(&mut self, other: Table<'a>)
        requires
            old(self).well_formed(),
            other.well_formed(),
            old(self).fits(&other),
        ensures
            final(self).well_formed(),
            final(self)@ == merge_maps(old(self)@, other@),
    {
        let ghost theirs = map_contents(other.map);
        let ghost ours = map_contents(self.map);
        let entries = map_into_entries(other.map);
        assert forall|key: Seq<u8>|
            ours.contains_key(key) && theirs.contains_key(key) implies ours[key].report_count
            + theirs[key].report_count <= usize::MAX by {
            assert(old(self)@.contains_key(key) && other@.contains_key(key));
            assert(old(self)@[key] == ours[key]@ && other@[key] == theirs[key]@);
        }
        self.absorb(&entries, Ghost(theirs));
    }

    /// Merges as `merge` does where the counts allow it, and leaves the table
    /// as it is where they do not. Returns whether it merged.
    pub fn merge_checked(&mut self, other: Table<'a>) -> (merged: bool)
        requires
            old(self).well_formed(),
            other.well_formed(),
        ensures
            final(self).well_formed(),
            merged == old(self).fits(&other),
            merged ==> final(self)@ == merge_maps(old(self)@, other@),
            !merged ==> final(self)@ == old(self)@,
    {
        let ghost theirs = map_contents(other.map);
        let ghost ours = map_contents(self.map);
        let entries = map_into_entries(other.map);
        let ghost listed = raw_entries(entries@);
        let mut i: usize = 0;
        while i < entries.len()
            invariant
                0 <= i <= entries.len(),
                listed == raw_entries(entries@),
                enumerates(listed, theirs),
                ours == map_contents(self.map),
                self.well_formed(),
                self@ == old(self)@,
                old(self)@ == contents_view(ours),
                other@ == contents_view(theirs),
                forall|j: int|
                    0 <= j < i && ours.contains_key(#[trigger] listed[j].0)
                        ==> ours[listed[j].0].report_count + listed[j].1.report_count
                        <= usize::MAX,
            decreases entries.len() - i,
        {
            let (key, data) = entries[i];
            assert(listed[i as int].0 == key@ && listed[i as int].1 == data);
            assert(theirs.contains_key(key@) && theirs[key@] == data);
            match map_get(&self.map, key) {
                Some(entry) => {
                    if entry.report_count > usize::MAX - data.report_count {
                        assert(old(self)@.contains_key(key@) && other@.contains_key(key@));
                        assert(old(self)@[key@] == ours[key@]@ && other@[key@] == theirs[key@]@);
                        return false;
                    }
                },
                None => {},
            }
            i += 1;
        }
        assert forall|key: Seq<u8>|
            ours.contains_key(key) && theirs.contains_key(key) implies ours[key].report_count
            + theirs[key].report_count <= usize::MAX by {
            let j = choose|j: int| 0 <= j < listed.len() && #[trigger] listed[j].0 == key;
            assert(theirs[listed[j].0] == listed[j].1);
        }
        assert(old(self).fits(&other)) by {
            assert forall|key: Seq<u8>|
                old(self)@.contains_key(key) && other@.contains_key(key) implies old(self)@[key].count
                + other@[key].count <= usize::MAX by {
                assert(ours.contains_key(key) && theirs.contains_key(key));
                assert(old(self)@[key] == ours[key]@ && other@[key] == theirs[key]@);
            }
        }
        self.absorb(&entries, Ghost(theirs));
        true
    }

    /// Takes the listed entries of another table into this one.
    fn absorb(&mut self, entries: &Vec<(&'a [u8], StationData)>, Ghost(theirs): Ghost<Contents>)
        requires
            old(self).well_formed(),
            enumerates(raw_entries(entries@), theirs),
            distinct_keys(raw_entries(entries@)),
            forall|key: Seq<u8>| #[trigger]
                theirs.contains_key(key) ==> theirs[key].well_formed() && theirs[key].report_count
                    >= 1,
            forall|key: Seq<u8>|
                map_contents(old(self).map).contains_key(key) && theirs.contains_key(key)
                    ==> map_contents(old(self).map)[key].report_count + theirs[key].report_count
                    <= usize::MAX,
        ensures
            final(self).well_formed(),
            final(self)@ == merge_maps(old(self)@, contents_view(theirs)),
    {
        let ghost ours = map_contents(self.map);
        let ghost listed = raw_entries(entries@);
        let mut i: usize = 0;
        while i < entries.len()
            invariant
                0 <= i <= entries.len(),
                listed == raw_entries(entries@),
                enumerates(listed, theirs),
                distinct_keys(listed),
                forall|key: Seq<u8>| #[trigger]
                    theirs.contains_key(key) ==> theirs[key].well_formed()
                        && theirs[key].report_count >= 1,
                forall|key: Seq<u8>|
                    ours.contains_key(key) && theirs.contains_key(key) ==> ours[key].report_count
                        + theirs[key].report_count <= usize::MAX,
                forall|key: Seq<u8>| #[trigger]
                    map_contents(self.map).contains_key(key) ==> map_contents(
                        self.map,
                    )[key].well_formed() && map_contents(self.map)[key].report_count >= 1,
                // the keys so far: ours and those of the entries taken in
                forall|key: Seq<u8>| #[trigger]
                    map_contents(self.map).contains_key(key) <==> ours.contains_key(key) || exists|
                        j: int,
                    |
                        0 <= j < i && #[trigger] listed[j].0 == key,
                // a key of an entry taken in has that entry merged
                forall|j: int|
                    0 <= j < i ==> (#[trigger] map_contents(self.map)[listed[j].0])@ == (
                    if ours.contains_key(listed[j].0) {
                        ours[listed[j].0]@.combine(listed[j].1@)
                    } else {
                        listed[j].1@
                    }),
                // every other key is as it was
                forall|key: Seq<u8>|
                    ours.contains_key(key) && (forall|j: int|
                        0 <= j < i ==> #[trigger] listed[j].0 != key) ==> #[trigger] map_contents(
                        self.map,
                    )[key] == ours[key],
            decreases entries.len() - i,
        {
            let (key, data) = entries[i];
            let ghost before = map_contents(self.map);
            assert(listed[i as int].0 == key@ && listed[i as int].1 == data);
            assert(theirs.contains_key(key@) && theirs[key@] == data);
            assert(forall|j: int| 0 <= j < i ==> #[trigger] listed[j].0 != listed[i as int].0);
            match map_get_mut(&mut self.map, key) {
                Some(entry) => {
                    assert(ours.contains_key(key@));
                    assert(*entry == ours[key@]);
                    entry.merge(&data);
                },
                None => {
                    map_insert(&mut self.map, key, data);
                },
            }
            let ghost after = map_contents(self.map);
            assert forall|j: int| 0 <= j < i + 1 implies (#[trigger] after[listed[j].0])@ == (
            if ours.contains_key(listed[j].0) {
                ours[listed[j].0]@.combine(listed[j].1@)
            } else {
                listed[j].1@
            }) by {
                if j < i {
                    assert(listed[j].0 != listed[i as int].0);
                    assert(after[listed[j].0] == before[listed[j].0]);
                }
            }
            i += 1;
        }
        assert(final(self)@ =~= merge_maps(old(self)@, contents_view(theirs))) by {
            let merged = merge_maps(old(self)@, contents_view(theirs));
            let result = map_contents(self.map);
            assert forall|key: Seq<u8>| merged.contains_key(key) implies final(self)@.contains_key(
                key,
            ) && final(self)@[key] == merged[key] by {
                if theirs.contains_key(key) {
                    let j = choose|j: int| 0 <= j < listed.len() && #[trigger] listed[j].0 == key;
                    assert(result[listed[j].0]@ == merged[key]);
                } else {
                    assert(forall|j: int| 0 <= j < listed.len() ==> #[trigger] listed[j].0 != key);
                }
            }
        }
    }

    /// The entries of the table in ascending order of their keys.
    pub fn into_sorted(self) -> (entries: Vec<(&'a [u8], StationData)>)
        requires
            self.well_formed(),
        ensures
            is_sorted_listing(entries_view(entries@), self@),
            forall|i: int|
                0 <= i < entries.len() ==> (#[trigger] entries[i]).1.well_formed()
                    && entries[i].1.report_count >= 1,
    {
        let ghost contents = map_contents(self.map);
        let mut entries = map_into_entries(self.map);
        let ghost unsorted = raw_entries(entries@);
        sort_entries(&mut entries);
        proof {
            let sorted = raw_entries(entries@);
            lemma_rearranged_listing(unsorted, sorted, contents);
            let viewed = entries_view(entries@);
            assert forall|i: int| 0 <= i < viewed.len() implies self@.contains_key(
                #[trigger] viewed[i].0,
            ) && self@[viewed[i].0] == viewed[i].1 by {
                assert(contents.contains_key(sorted[i].0));
            }
            assert forall|key: Seq<u8>| #[trigger] self@.contains_key(key) implies exists|i: int|
                0 <= i < viewed.len() && #[trigger] viewed[i].0 == key by {
                assert(contents.contains_key(key));
                let i = choose|i: int| 0 <= i < sorted.len() && #[trigger] sorted[i].0 == key;
                assert(viewed[i].0 == key);
            }
            assert forall|i: int, j: int| 0 <= i < j < viewed.len() implies crate::listing::lex_less(
                #[trigger] viewed[i].0,
                #[trigger] viewed[j].0,
            ) by {
                assert(sorted[i].0 == viewed[i].0 && sorted[j].0 == viewed[j].0);
            }
            assert forall|i: int| 0 <= i < entries.len() implies (#[trigger] entries[i]).1.well_formed()
                && entries[i].1.report_count >= 1 by {
                assert(contents.contains_key(sorted[i].0));
            }
        }
        entries
    }
}

} // verus!
