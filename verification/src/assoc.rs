//! Association lists keyed by text: the mathematical model shared by the
//! spell book (spell to image path) and the typing progress (spell to the
//! letters still to type). An entry list is a sequence of pairs; it stands
//! for a map when no key occurs twice.

use vstd::prelude::*;

verus! {

/// One entry: a key and its value, both as character sequences.
pub type Entry = (Seq<char>, Seq<char>);

/// Some entry has key `k`.
pub open spec fn has_key(es: Seq<Entry>, k: Seq<char>) -> bool {
    exists|i: int| 0 <= i < es.len() && #[trigger] es[i].0 == k
}

/// No key occurs twice.
pub open spec fn distinct_keys(es: Seq<Entry>) -> bool {
    forall|i: int, j: int|
        0 <= i < es.len() && 0 <= j < es.len() && i != j ==> #[trigger] es[i].0 != #[trigger] es[j].0
}

/// The position of key `k` (meaningful when `has_key(es, k)`).
pub open spec fn index_of(es: Seq<Entry>, k: Seq<char>) -> int {
    choose|i: int| 0 <= i < es.len() && #[trigger] es[i].0 == k
}

/// The value stored under `k`, if any.
pub open spec fn lookup(es: Seq<Entry>, k: Seq<char>) -> Option<Seq<char>> {
    if has_key(es, k) {
        Some(es[index_of(es, k)].1)
    } else {
        None
    }
}

/// The map that an entry list stands for.
pub open spec fn as_map(es: Seq<Entry>) -> Map<Seq<char>, Seq<char>> {
    Map::new(|k: Seq<char>| has_key(es, k), |k: Seq<char>| es[index_of(es, k)].1)
}

/// Stores `v` under `k`: in place where `k` is present, appended otherwise.
pub open spec fn put(es: Seq<Entry>, k: Seq<char>, v: Seq<char>) -> Seq<Entry> {
    if has_key(es, k) {
        es.update(index_of(es, k), (k, v))
    } else {
        es.push((k, v))
    }
}

/// Where keys are distinct, the position of a key is the one where it stands.
pub proof fn lemma_index_of_unique(es: Seq<Entry>, i: int)
    requires
        distinct_keys(es),
        0 <= i < es.len(),
    ensures
        has_key(es, es[i].0),
        index_of(es, es[i].0) == i,
        lookup(es, es[i].0) == Some(es[i].1),
{
    assert(es[i].0 == es[i].0);
    let j = index_of(es, es[i].0);
    assert(0 <= j < es.len() && es[j].0 == es[i].0);
}

/// Storing a value keeps the keys distinct, and a lookup afterwards gives it back.
pub proof fn lemma_put(es: Seq<Entry>, k: Seq<char>, v: Seq<char>)
    requires
        distinct_keys(es),
    ensures
        distinct_keys(put(es, k, v)),
        lookup(put(es, k, v), k) == Some(v),
        forall|k2: Seq<char>| k2 != k ==> lookup(put(es, k, v), k2) == lookup(es, k2),
        as_map(put(es, k, v)) == as_map(es).insert(k, v),
{
    let r = put(es, k, v);
    if has_key(es, k) {
        let i = index_of(es, k);
        assert(r[i].0 == k);
        lemma_index_of_unique(r, i);
        assert forall|k2: Seq<char>| k2 != k implies lookup(r, k2) == lookup(es, k2) by {
            if has_key(es, k2) {
                let j = index_of(es, k2);
                assert(r[j].0 == k2);
                lemma_index_of_unique(r, j);
            }
            if has_key(r, k2) {
                let j = index_of(r, k2);
                assert(es[j].0 == k2);
            }
        }
    } else {
        let i = es.len() as int;
        assert(r[i].0 == k);
        lemma_index_of_unique(r, i);
        assert forall|k2: Seq<char>| k2 != k implies lookup(r, k2) == lookup(es, k2) by {
            if has_key(es, k2) {
                let j = index_of(es, k2);
                assert(r[j].0 == k2);
                lemma_index_of_unique(r, j);
            }
            if has_key(r, k2) {
                let j = index_of(r, k2);
                assert(es[j].0 == k2);
            }
        }
    }
    lemma_lookup_map(es);
    lemma_lookup_map(r);
    assert(as_map(r) =~= as_map(es).insert(k, v));
}

/// The map of an entry list agrees with `lookup`.
pub proof fn lemma_lookup_map(es: Seq<Entry>)
    ensures
        forall|k: Seq<char>|
            #![trigger as_map(es).dom().contains(k)]
            (as_map(es).dom().contains(k) <==> has_key(es, k)) && (has_key(es, k) ==> as_map(es)[k]
                == lookup(es, k)->0),
{
}

} // verus!
