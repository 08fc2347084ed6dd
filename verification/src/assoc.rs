//! Association lists: sequences of keyed entries that write down a map.

use vstd::prelude::*;

verus! {

/// No key occurs twice.
pub open spec fn keys_unique<V>(entries: Seq<(Seq<char>, V)>) -> bool {
    forall|i: int, j: int|
        0 <= i < j < entries.len() ==> (#[trigger] entries[i]).0 != (#[trigger] entries[j]).0
}

/// `key` has an entry.
pub open spec fn has_key<V>(entries: Seq<(Seq<char>, V)>, key: Seq<char>) -> bool {
    exists|i: int| 0 <= i < entries.len() && (#[trigger] entries[i]).0 == key
}

/// The position of the entry of `key`.
pub open spec fn place_of<V>(entries: Seq<(Seq<char>, V)>, key: Seq<char>) -> int {
    choose|i: int| 0 <= i < entries.len() && (#[trigger] entries[i]).0 == key
}

/// The map that the entries write down.
pub open spec fn map_of<V>(entries: Seq<(Seq<char>, V)>) -> Map<Seq<char>, V> {
    Map::new(|k: Seq<char>| has_key(entries, k), |k: Seq<char>| entries[place_of(entries, k)].1)
}

/// The entries after `key` was given `value`: in the place of its former value, or at the end.
pub open spec fn with_entry<V>(
    entries: Seq<(Seq<char>, V)>,
    key: Seq<char>,
    value: V,
) -> Seq<(Seq<char>, V)> {
    if has_key(entries, key) {
        entries.update(place_of(entries, key), (key, value))
    } else {
        entries.push((key, value))
    }
}

/// Where keys are unique, an entry of `key` is the entry of `key`.
pub proof fn lemma_place<V>(entries: Seq<(Seq<char>, V)>, i: int)
    requires
        keys_unique(entries),
        0 <= i < entries.len(),
    ensures
        has_key(entries, entries[i].0),
        place_of(entries, entries[i].0) == i,
        map_of(entries).contains_key(entries[i].0),
        map_of(entries)[entries[i].0] == entries[i].1,
{
    let key = entries[i].0;
    assert(has_key(entries, key));
    let p = place_of(entries, key);
    assert(0 <= p < entries.len() && entries[p].0 == key);
    if p < i {
        assert(entries[p].0 != entries[i].0);
    } else if i < p {
        assert(entries[i].0 != entries[p].0);
    }
}

/// Giving a key a value changes the map at that key alone, and keeps keys unique.
pub proof fn lemma_with_entry<V>(
    entries: Seq<(Seq<char>, V)>,
    key: Seq<char>,
    value: V,
)
    requires
        keys_unique(entries),
    ensures
        keys_unique(with_entry(entries, key, value)),
        map_of(with_entry(entries, key, value)) == map_of(entries).insert(key, value),
{
    let e2 = with_entry(entries, key, value);
    if has_key(entries, key) {
        let p = place_of(entries, key);
        assert(entries[p].0 == key);
    }
    assert forall|k: Seq<char>| has_key(e2, k) == (has_key(entries, k) || k == key) by {
        if has_key(entries, k) {
            let p = place_of(entries, k);
            assert(e2[p].0 == k);
        }
        if has_key(e2, k) {
            let p = place_of(e2, k);
            if p < entries.len() {
                assert(entries[p].0 == k);
            }
        }
        if k == key {
            if has_key(entries, key) {
                assert(e2[place_of(entries, key)].0 == key);
            } else {
                assert(e2[entries.len() as int].0 == key);
            }
        }
    }
    assert(keys_unique(e2)) by {
        assert forall|i: int, j: int| 0 <= i < j < e2.len() implies (#[trigger] e2[i]).0 != (
        #[trigger] e2[j]).0 by {
            if j < entries.len() {
                assert(entries[i].0 != entries[j].0);
            } else {
                assert(entries[i].0 != key);
            }
        }
    }
    assert forall|k: Seq<char>| has_key(e2, k) implies #[trigger] e2[place_of(e2, k)].1 == map_of(
        entries,
    ).insert(key, value)[k] by {
        let p = place_of(e2, k);
        assert(0 <= p < e2.len() && e2[p].0 == k);
        if k == key {
            if has_key(entries, key) {
                let q = place_of(entries, key);
                assert(e2[q].0 == key);
                assert(p == q);
            } else {
                assert(e2[entries.len() as int].0 == key);
                assert(p == entries.len());
            }
        } else {
            let q = place_of(entries, k);
            assert(has_key(entries, k));
            assert(entries[q].0 == k);
            assert(e2[q].0 == k);
            assert(p == q);
        }
    }
    assert(map_of(e2) =~= map_of(entries).insert(key, value));
}

/// Removing the entry of a key removes that key from the map, and keeps keys unique.
pub proof fn lemma_without<V>(entries: Seq<(Seq<char>, V)>, i: int)
    requires
        keys_unique(entries),
        0 <= i < entries.len(),
    ensures
        keys_unique(entries.remove(i)),
        map_of(entries.remove(i)) == map_of(entries).remove(entries[i].0),
{
    let e2 = entries.remove(i);
    let key = entries[i].0;
    assert(keys_unique(e2)) by {
        assert forall|a: int, b: int| 0 <= a < b < e2.len() implies (#[trigger] e2[a]).0 != (
        #[trigger] e2[b]).0 by {
            let a0 = if a < i { a } else { a + 1 };
            let b0 = if b < i { b } else { b + 1 };
            assert(entries[a0].0 != entries[b0].0);
        }
    }
    assert forall|k: Seq<char>| has_key(e2, k) == (has_key(entries, k) && k != key) by {
        if has_key(e2, k) {
            let p = place_of(e2, k);
            let p0 = if p < i { p } else { p + 1 };
            assert(e2[p].0 == k);
            assert(entries[p0].0 == k);
            lemma_place(entries, p0);
            lemma_place(entries, i);
        }
        if has_key(entries, k) && k != key {
            let p = place_of(entries, k);
            assert(entries[p].0 == k);
            let p2 = if p < i { p } else { p - 1 };
            assert(e2[p2].0 == k);
        }
    }
    assert forall|k: Seq<char>| has_key(e2, k) implies #[trigger] map_of(e2)[k] == map_of(
        entries,
    )[k] by {
        let p = place_of(e2, k);
        assert(e2[p].0 == k);
        let p0 = if p < i { p } else { p + 1 };
        assert(entries[p0].0 == k);
        lemma_place(entries, p0);
        lemma_place(e2, p);
    }
    assert(map_of(e2) =~= map_of(entries).remove(key));
}

} // verus!
