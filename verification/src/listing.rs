//! Entries in a row: the order in which a property list keeps its keys and
//! values, and the mapping that such a row stands for.

use vstd::prelude::*;

verus! {

/// A list of entries as it is kept: key and value, in the order in which the
/// keys first came.
pub type Listing = Seq<(Seq<char>, Seq<char>)>;

/// The mapping that a list of entries stands for: a later entry replaces an
/// earlier one with the same key.
pub open spec fn entries_map(e: Listing) -> Map<Seq<char>, Seq<char>>
    decreases e.len(),
{
    if e.len() == 0 {
        Map::empty()
    } else {
        entries_map(e.drop_last()).insert(e.last().0, e.last().1)
    }
}

/// No key occurs twice in `e`.
pub open spec fn distinct_keys(e: Listing) -> bool {
    forall|i: int, j: int| 0 <= i < j < e.len() ==> (#[trigger] e[i]).0 != (#[trigger] e[j]).0
}

/// Some entry of `e` has the key `k`.
pub open spec fn has_key(e: Listing, k: Seq<char>) -> bool {
    exists|i: int| 0 <= i < e.len() && (#[trigger] e[i]).0 == k
}

/// The place at which the key `k` stands in `e`, where `e` holds it.
pub open spec fn key_index(e: Listing, k: Seq<char>) -> int {
    choose|i: int| 0 <= i < e.len() && (#[trigger] e[i]).0 == k
}

/// `e` with `v` as the value of `k`: in the place where `k` stands, or at
/// the end where `k` is new.
pub open spec fn put(e: Listing, k: Seq<char>, v: Seq<char>) -> Listing {
    if has_key(e, k) {
        e.update(key_index(e, k), (k, v))
    } else {
        e.push((k, v))
    }
}

/// `e` without the entry of `k`; the other entries keep their order.
pub open spec fn without(e: Listing, k: Seq<char>) -> Listing {
    if has_key(e, k) {
        e.remove(key_index(e, k))
    } else {
        e
    }
}

/// A key is in the mapping exactly where the list holds it.
pub proof fn lemma_entries_map_keys(e: Listing, k: Seq<char>)
    ensures
        entries_map(e).contains_key(k) <==> has_key(e, k),
    decreases e.len(),
{
    if e.len() > 0 {
        let p = e.drop_last();
        lemma_entries_map_keys(p, k);
        if has_key(e, k) {
            let i = choose|i: int| 0 <= i < e.len() && (#[trigger] e[i]).0 == k;
            if i < e.len() - 1 {
                assert(p[i].0 == k);
            }
        }
        if has_key(p, k) {
            let i = choose|i: int| 0 <= i < p.len() && (#[trigger] p[i]).0 == k;
            assert(e[i].0 == k);
        }
        if e.last().0 == k {
            assert(e[e.len() - 1].0 == k);
        }
    }
}

/// Where no key occurs twice, the mapping gives each key the value that
/// stands beside it in the list.
pub proof fn lemma_entries_map_value(e: Listing, i: int)
    requires
        distinct_keys(e),
        0 <= i < e.len(),
    ensures
        entries_map(e).contains_key(e[i].0),
        entries_map(e)[e[i].0] == e[i].1,
    decreases e.len(),
{
    let p = e.drop_last();
    if i < e.len() - 1 {
        assert(p[i] == e[i]);
        assert(e[i].0 != e[e.len() - 1].0);
        assert(distinct_keys(p)) by {
            assert forall|a: int, b: int| 0 <= a < b < p.len() implies (#[trigger] p[a]).0 != (
            #[trigger] p[b]).0 by {
                assert(p[a] == e[a] && p[b] == e[b]);
            }
        }
        lemma_entries_map_value(p, i);
    }
}

/// Where no key occurs twice, the mapping has as many keys as the list has
/// entries.
pub proof fn lemma_entries_map_len(e: Listing)
    requires
        distinct_keys(e),
    ensures
        entries_map(e).dom().finite(),
        entries_map(e).len() == e.len(),
    decreases e.len(),
{
    if e.len() > 0 {
        let p = e.drop_last();
        lemma_distinct_drop_last(e);
        lemma_entries_map_len(p);
        lemma_entries_map_keys(p, e.last().0);
        if has_key(p, e.last().0) {
            let i = choose|i: int| 0 <= i < p.len() && (#[trigger] p[i]).0 == e.last().0;
            assert(e[i].0 == e[e.len() - 1].0);
        }
    }
}

/// A list without its last entry still has no key twice.
pub proof fn lemma_distinct_drop_last(e: Listing)
    requires
        distinct_keys(e),
        e.len() > 0,
    ensures
        distinct_keys(e.drop_last()),
{
    let p = e.drop_last();
    assert forall|a: int, b: int| 0 <= a < b < p.len() implies (#[trigger] p[a]).0 != (
    #[trigger] p[b]).0 by {
        assert(p[a] == e[a] && p[b] == e[b]);
    }
}

/// Replacing the value beside a key in the list replaces it in the mapping.
pub proof fn lemma_entries_map_update(e: Listing, i: int, v: Seq<char>)
    requires
        distinct_keys(e),
        0 <= i < e.len(),
    ensures
        entries_map(e.update(i, (e[i].0, v))) == entries_map(e).insert(e[i].0, v),
        distinct_keys(e.update(i, (e[i].0, v))),
    decreases e.len(),
{
    let p = e.drop_last();
    let k = e[i].0;
    let e2 = e.update(i, (k, v));
    assert(distinct_keys(e2)) by {
        assert forall|a: int, b: int| 0 <= a < b < e2.len() implies (#[trigger] e2[a]).0 != (
        #[trigger] e2[b]).0 by {
            assert(e2[a].0 == e[a].0 && e2[b].0 == e[b].0);
        }
    }
    if i == e.len() - 1 {
        assert(e2.drop_last() =~= p);
        assert(entries_map(e2) =~= entries_map(e).insert(k, v));
    } else {
        lemma_distinct_drop_last(e);
        lemma_entries_map_update(p, i, v);
        assert(p[i] == e[i]);
        assert(e2.drop_last() =~= p.update(i, (k, v)));
        assert(e2.last() == e.last());
        assert(e[i].0 != e[e.len() - 1].0);
        assert(entries_map(e2) =~= entries_map(e).insert(k, v));
    }
}

/// Taking an entry out of the list takes its key out of the mapping.
pub proof fn lemma_entries_map_remove(e: Listing, i: int)
    requires
        distinct_keys(e),
        0 <= i < e.len(),
    ensures
        entries_map(e.remove(i)) == entries_map(e).remove(e[i].0),
        distinct_keys(e.remove(i)),
    decreases e.len(),
{
    let p = e.drop_last();
    let k = e[i].0;
    let e2 = e.remove(i);
    assert(distinct_keys(e2)) by {
        assert forall|a: int, b: int| 0 <= a < b < e2.len() implies (#[trigger] e2[a]).0 != (
        #[trigger] e2[b]).0 by {
            let a1 = if a < i { a } else { a + 1 };
            let b1 = if b < i { b } else { b + 1 };
            assert(e2[a] == e[a1] && e2[b] == e[b1]);
        }
    }
    lemma_distinct_drop_last(e);
    if i == e.len() - 1 {
        assert(e2 =~= p);
        lemma_entries_map_keys(p, k);
        if has_key(p, k) {
            let j = choose|j: int| 0 <= j < p.len() && (#[trigger] p[j]).0 == k;
            assert(e[j].0 == e[i].0);
        }
        assert(entries_map(e2) =~= entries_map(e).remove(k));
    } else {
        lemma_entries_map_remove(p, i);
        assert(p[i] == e[i]);
        assert(e2.drop_last() =~= p.remove(i));
        assert(e2.last() == e.last());
        assert(e[i].0 != e[e.len() - 1].0);
        assert(entries_map(e2) =~= entries_map(e).remove(k));
    }
}

/// A new key at the end of the list leaves no key twice.
pub proof fn lemma_distinct_push(e: Listing, k: Seq<char>, v: Seq<char>)
    requires
        distinct_keys(e),
        !has_key(e, k),
    ensures
        distinct_keys(e.push((k, v))),
        entries_map(e.push((k, v))) == entries_map(e).insert(k, v),
{
    let e2 = e.push((k, v));
    assert(e2.drop_last() =~= e);
    assert forall|a: int, b: int| 0 <= a < b < e2.len() implies (#[trigger] e2[a]).0 != (
    #[trigger] e2[b]).0 by {
        assert(e2[a] == e[a]);
        if b < e.len() {
            assert(e2[b] == e[b]);
        }
    }
}

/// Where no key occurs twice, a key stands at one place only.
pub proof fn lemma_key_index(e: Listing, k: Seq<char>, i: int)
    requires
        distinct_keys(e),
        0 <= i < e.len(),
        e[i].0 == k,
    ensures
        has_key(e, k),
        key_index(e, k) == i,
{
    let j = key_index(e, k);
    assert(0 <= j < e.len() && e[j].0 == k);
    if i < j {
        assert(e[i].0 != e[j].0);
    } else if j < i {
        assert(e[j].0 != e[i].0);
    }
}

/// Putting a value into the list is inserting it into the mapping, and
/// leaves no key twice.
pub proof fn lemma_put(e: Listing, k: Seq<char>, v: Seq<char>)
    requires
        distinct_keys(e),
    ensures
        distinct_keys(put(e, k, v)),
        entries_map(put(e, k, v)) == entries_map(e).insert(k, v),
{
    if has_key(e, k) {
        let i = key_index(e, k);
        lemma_entries_map_update(e, i, v);
    } else {
        lemma_distinct_push(e, k, v);
    }
}

/// Taking a key out of the list is removing it from the mapping, and leaves
/// no key twice.
pub proof fn lemma_without(e: Listing, k: Seq<char>)
    requires
        distinct_keys(e),
    ensures
        distinct_keys(without(e, k)),
        entries_map(without(e, k)) == entries_map(e).remove(k),
{
    if has_key(e, k) {
        lemma_entries_map_remove(e, key_index(e, k));
    } else {
        lemma_entries_map_keys(e, k);
        assert(entries_map(e).remove(k) =~= entries_map(e));
    }
}

} // verus!
