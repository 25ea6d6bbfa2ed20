//! Listings: the entries of a map written out as a sequence, and the order of
//! keys that makes the listing of a map unique.
//!
//! Keys are ordered byte by byte, a proper prefix before what it is a prefix
//! of.

use vstd::prelude::*;

verus! {

/// Whether `a` comes before `b` in the lexicographic order of their bytes.
pub open spec fn lex_less(a: Seq<u8>, b: Seq<u8>) -> bool
    decreases a.len(),
{
    if b.len() == 0 {
        false
    } else if a.len() == 0 {
        true
    } else if a[0] != b[0] {
        a[0] < b[0]
    } else {
        lex_less(a.drop_first(), b.drop_first())
    }
}

/// Every entry of the listing is an entry of the map, and every key of the map
/// has an entry in the listing.
pub open spec fn enumerates<V>(listing: Seq<(Seq<u8>, V)>, map: Map<Seq<u8>, V>) -> bool {
    &&& forall|i: int|
        0 <= i < listing.len() ==> map.contains_key(#[trigger] listing[i].0) && map[listing[i].0]
            == listing[i].1
    &&& forall|key: Seq<u8>| #[trigger]
        map.contains_key(key) ==> exists|i: int|
            0 <= i < listing.len() && #[trigger] listing[i].0 == key
}

/// No key occurs twice.
pub open spec fn distinct_keys<V>(listing: Seq<(Seq<u8>, V)>) -> bool {
    forall|i: int, j: int|
        0 <= i < listing.len() && 0 <= j < listing.len() && i != j ==> #[trigger] listing[i].0
            != #[trigger] listing[j].0
}

/// No entry comes before an entry with a smaller key.
pub open spec fn ascending<V>(listing: Seq<(Seq<u8>, V)>) -> bool {
    forall|i: int, j: int|
        0 <= i < j < listing.len() ==> !lex_less(#[trigger] listing[j].0, #[trigger] listing[i].0)
}

/// Each entry has a smaller key than every entry behind it.
pub open spec fn strictly_ascending<V>(listing: Seq<(Seq<u8>, V)>) -> bool {
    forall|i: int, j: int|
        0 <= i < j < listing.len() ==> lex_less(#[trigger] listing[i].0, #[trigger] listing[j].0)
}

/// The listing holds the entries of the map, each once, in ascending order of
/// their keys.
pub open spec fn is_sorted_listing<V>(listing: Seq<(Seq<u8>, V)>, map: Map<Seq<u8>, V>) -> bool {
    enumerates(listing, map) && strictly_ascending(listing)
}

/// The entries of the map in ascending order of their keys, for a map that
/// has such a listing (every finite map has one).
pub open spec fn sorted_listing<V>(map: Map<Seq<u8>, V>) -> Seq<(Seq<u8>, V)> {
    choose|listing: Seq<(Seq<u8>, V)>| is_sorted_listing(listing, map)
}

/// No key comes before itself.
pub proof fn lemma_lex_irreflexive(a: Seq<u8>)
    ensures
        !lex_less(a, a),
    decreases a.len(),
{
    if a.len() > 0 {
        lemma_lex_irreflexive(a.drop_first());
    }
}

/// The order of keys is transitive.
pub proof fn lemma_lex_transitive(a: Seq<u8>, b: Seq<u8>, c: Seq<u8>)
    requires
        lex_less(a, b),
        lex_less(b, c),
    ensures
        lex_less(a, c),
    decreases a.len(),
{
    if a.len() > 0 && a[0] == b[0] && b[0] == c[0] {
        lemma_lex_transitive(a.drop_first(), b.drop_first(), c.drop_first());
    }
}

/// Of two different keys, one comes before the other.
pub proof fn lemma_lex_total(a: Seq<u8>, b: Seq<u8>)
    ensures
        lex_less(a, b) || lex_less(b, a) || a == b,
    decreases a.len(),
{
    if a.len() == 0 || b.len() == 0 {
        if a.len() == 0 && b.len() == 0 {
            assert(a =~= b);
        }
    } else if a[0] == b[0] {
        lemma_lex_total(a.drop_first(), b.drop_first());
        if a.drop_first() == b.drop_first() {
            assert(a =~= seq![a[0]] + a.drop_first());
            assert(b =~= seq![b[0]] + b.drop_first());
        }
    }
}

/// Without its first entry, a sorted listing is the sorted listing of the map
/// without that entry's key.
proof fn lemma_sorted_listing_rest<V>(listing: Seq<(Seq<u8>, V)>, map: Map<Seq<u8>, V>)
    requires
        is_sorted_listing(listing, map),
        listing.len() > 0,
    ensures
        is_sorted_listing(listing.drop_first(), map.remove(listing[0].0)),
{
    let rest = listing.drop_first();
    let first = listing[0].0;
    let smaller = map.remove(first);
    lemma_lex_irreflexive(first);
    assert forall|i: int| 0 <= i < rest.len() implies smaller.contains_key(#[trigger] rest[i].0)
        && smaller[rest[i].0] == rest[i].1 by {
        assert(rest[i] == listing[i + 1]);
        assert(lex_less(listing[0].0, listing[i + 1].0));
    }
    assert forall|key: Seq<u8>| #[trigger] smaller.contains_key(key) implies exists|i: int|
        0 <= i < rest.len() && #[trigger] rest[i].0 == key by {
        assert(map.contains_key(key));
        let i = choose|i: int| 0 <= i < listing.len() && #[trigger] listing[i].0 == key;
        assert(rest[i - 1].0 == key);
    }
    assert forall|i: int, j: int| 0 <= i < j < rest.len() implies lex_less(
        #[trigger] rest[i].0,
        #[trigger] rest[j].0,
    ) by {
        assert(rest[i] == listing[i + 1] && rest[j] == listing[j + 1]);
    }
}

/// Two sorted listings of one map start with the same entry.
proof fn lemma_sorted_listing_first<V>(
    one: Seq<(Seq<u8>, V)>,
    other: Seq<(Seq<u8>, V)>,
    map: Map<Seq<u8>, V>,
)
    requires
        is_sorted_listing(one, map),
        is_sorted_listing(other, map),
        one.len() > 0,
    ensures
        other.len() > 0,
        one[0] == other[0],
{
    let key = one[0].0;
    assert(map.contains_key(key));
    let j = choose|j: int| 0 <= j < other.len() && #[trigger] other[j].0 == key;
    let other_key = other[0].0;
    assert(map.contains_key(other_key));
    let i = choose|i: int| 0 <= i < one.len() && #[trigger] one[i].0 == other_key;
    if j > 0 {
        assert(lex_less(other[0].0, other[j].0));
        if i > 0 {
            assert(lex_less(one[0].0, one[i].0));
            lemma_lex_transitive(key, other_key, key);
        }
        lemma_lex_irreflexive(key);
    }
}

/// A map has at most one sorted listing.
pub proof fn lemma_sorted_listing_unique<V>(
    one: Seq<(Seq<u8>, V)>,
    other: Seq<(Seq<u8>, V)>,
    map: Map<Seq<u8>, V>,
)
    requires
        is_sorted_listing(one, map),
        is_sorted_listing(other, map),
    ensures
        one == other,
    decreases one.len(),
{
    if one.len() == 0 {
        if other.len() > 0 {
            lemma_sorted_listing_first(other, one, map);
        }
        assert(one =~= other);
    } else {
        lemma_sorted_listing_first(one, other, map);
        lemma_sorted_listing_rest(one, map);
        lemma_sorted_listing_rest(other, map);
        lemma_sorted_listing_unique(one.drop_first(), other.drop_first(), map.remove(one[0].0));
        assert(one =~= seq![one[0]] + one.drop_first());
        assert(other =~= seq![other[0]] + other.drop_first());
    }
}

/// A sorted listing of a map is the sorted listing of that map.
pub proof fn lemma_sorted_listing_is<V>(listing: Seq<(Seq<u8>, V)>, map: Map<Seq<u8>, V>)
    requires
        is_sorted_listing(listing, map),
    ensures
        sorted_listing(map) == listing,
{
    lemma_sorted_listing_unique(sorted_listing(map), listing, map);
}

/// Putting a listing with distinct keys in ascending order, keeping its
/// entries, gives the sorted listing of the same map.
pub proof fn lemma_rearranged_listing<V>(
    before: Seq<(Seq<u8>, V)>,
    after: Seq<(Seq<u8>, V)>,
    map: Map<Seq<u8>, V>,
)
    requires
        enumerates(before, map),
        distinct_keys(before),
        after.to_multiset() == before.to_multiset(),
        ascending(after),
    ensures
        is_sorted_listing(after, map),
{
    broadcast use vstd::seq_lib::group_to_multiset_ensures;

    assert forall|i: int| 0 <= i < after.len() implies map.contains_key(#[trigger] after[i].0)
        && map[after[i].0] == after[i].1 by {
        assert(after.contains(after[i]));
        assert(before.to_multiset().count(after[i]) > 0);
        assert(before.contains(after[i]));
        let j = choose|j: int| 0 <= j < before.len() && before[j] == after[i];
        assert(map.contains_key(before[j].0));
    }
    assert forall|key: Seq<u8>| #[trigger] map.contains_key(key) implies exists|i: int|
        0 <= i < after.len() && #[trigger] after[i].0 == key by {
        let j = choose|j: int| 0 <= j < before.len() && #[trigger] before[j].0 == key;
        assert(before.contains(before[j]));
        assert(after.to_multiset().count(before[j]) > 0);
        assert(after.contains(before[j]));
        let i = choose|i: int| 0 <= i < after.len() && after[i] == before[j];
        assert(after[i].0 == key);
    }
    assert forall|i: int, j: int|
        0 <= i < before.len() && 0 <= j < before.len() && i != j implies before[i]
        != before[j] by {
        assert(before[i].0 != before[j].0);
    }
    before.lemma_multiset_has_no_duplicates();
    after.lemma_multiset_has_no_duplicates_conv();
    assert forall|i: int, j: int| 0 <= i < j < after.len() implies lex_less(
        #[trigger] after[i].0,
        #[trigger] after[j].0,
    ) by {
        if after[i].0 == after[j].0 {
            assert(map[after[i].0] == after[i].1 && map[after[j].0] == after[j].1);
            assert(after[i] == after[j]);
        }
        lemma_lex_total(after[i].0, after[j].0);
    }
}

} // verus!
