//! Grouping a sequence of keyed items: one group per key, groups in the order
//! in which their keys first occur, members in the order in which they came.

use vstd::prelude::*;
use vstd::seq_lib::*;

verus! {

/// The keys of a sequence of keyed items, item by item.
pub open spec fn keys_of<K, V>(items: Seq<(K, V)>) -> Seq<K> {
    items.map_values(|item: (K, V)| item.0)
}

/// The distinct values of `keys`, each at the place of its first occurrence.
pub open spec fn first_keys<K>(keys: Seq<K>) -> Seq<K>
    decreases keys.len(),
{
    if keys.len() == 0 {
        Seq::empty()
    } else {
        let earlier = first_keys(keys.drop_last());
        if earlier.contains(keys.last()) {
            earlier
        } else {
            earlier.push(keys.last())
        }
    }
}

/// The values filed under `key`, in the order in which they came.
pub open spec fn members<K, V>(items: Seq<(K, V)>, key: K) -> Seq<V> {
    items.filter(|item: (K, V)| item.0 == key).map_values(|item: (K, V)| item.1)
}

/// The items grouped by key.
pub open spec fn grouped<K, V>(items: Seq<(K, V)>) -> Seq<(K, Seq<V>)> {
    first_keys(keys_of(items)).map_values(|key: K| (key, members(items, key)))
}

/// `first_keys` keeps every key once.
pub proof fn lemma_first_keys<K>(keys: Seq<K>)
    ensures
        first_keys(keys).no_duplicates(),
        first_keys(keys).len() <= keys.len(),
        forall|key: K| first_keys(keys).contains(key) <==> keys.contains(key),
    decreases keys.len(),
{
    if keys.len() > 0 {
        let front = keys.drop_last();
        lemma_first_keys(front);
        assert forall|key: K| first_keys(keys).contains(key) <==> keys.contains(key) by {
            lemma_seq_contains_after_push(first_keys(front), keys.last(), key);
            lemma_seq_contains_after_push(front, keys.last(), key);
            assert(front.push(keys.last()) =~= keys);
        }
    }
}

/// What a key's group holds after one more item has come.
pub proof fn lemma_members_push<K, V>(items: Seq<(K, V)>, item: (K, V), key: K)
    ensures
        item.0 == key ==> members(items.push(item), key) == members(items, key).push(item.1),
        item.0 != key ==> members(items.push(item), key) == members(items, key),
{
    let under_key = |it: (K, V)| it.0 == key;
    let value = |it: (K, V)| it.1;
    items.lemma_filter_push(item, under_key);
    if item.0 == key {
        items.filter(under_key).lemma_push_map_commute(value, item);
    }
}

/// A key that no item carries has an empty group, and conversely.
pub proof fn lemma_members_empty<K, V>(items: Seq<(K, V)>, key: K)
    ensures
        members(items, key).len() == 0 <==> !keys_of(items).contains(key),
    decreases items.len(),
{
    if items.len() == 0 {
        reveal(Seq::filter);
    } else {
        let front = items.drop_last();
        let item = items.last();
        assert(front.push(item) =~= items);
        lemma_members_empty(front, key);
        lemma_members_push(front, item, key);
        assert(keys_of(front).push(item.0) =~= keys_of(items));
        lemma_seq_contains_after_push(keys_of(front), item.0, key);
    }
}

/// Every member of a key's group came with that key.
pub proof fn lemma_members_come_from_items<K, V>(items: Seq<(K, V)>, key: K, i: int)
    requires
        0 <= i < members(items, key).len(),
    ensures
        items.contains((key, members(items, key)[i])),
{
    let under_key = |item: (K, V)| item.0 == key;
    let kept = items.filter(under_key);
    items.lemma_filter_pred(under_key, i);
    items.lemma_filter_contains_rev(under_key, kept[i]);
}

/// A key's group holds exactly the values that came with that key.
pub proof fn lemma_members_contains<K, V>(items: Seq<(K, V)>, key: K, value: V)
    ensures
        members(items, key).contains(value) <==> items.contains((key, value)),
{
    let under_key = |item: (K, V)| item.0 == key;
    let kept = items.filter(under_key);
    if members(items, key).contains(value) {
        let i = members(items, key).index_of(value);
        lemma_members_come_from_items(items, key, i);
    }
    if items.contains((key, value)) {
        let at = items.index_of((key, value));
        items.lemma_filter_contains(under_key, at);
        let i = kept.index_of((key, value));
        assert(members(items, key)[i] == value);
    }
}

/// A key that two items carry has a group of two or more.
pub proof fn lemma_members_of_shared_key<K, V>(items: Seq<(K, V)>, key: K, a: int, b: int)
    requires
        0 <= a < b < items.len(),
        items[a].0 == key,
        items[b].0 == key,
    ensures
        members(items, key).len() >= 2,
    decreases items.len(),
{
    let front = items.drop_last();
    let last = items.last();
    assert(front.push(last) =~= items);
    lemma_members_push(front, last, key);
    if b == items.len() - 1 {
        lemma_members_empty(front, key);
        assert(keys_of(front)[a] == key);
    } else {
        lemma_members_of_shared_key(front, key, a, b);
    }
}

/// Grouping one more item: it joins the group of its key where there is one,
/// and opens a new group at the end where there is none.
pub proof fn lemma_grouped_push<K, V>(items: Seq<(K, V)>, key: K, value: V)
    ensures
        forall|i: int|
            0 <= i < grouped(items).len() && grouped(items)[i].0 == key ==> grouped(
                items.push((key, value)),
            ) == grouped(items).update(i, (key, grouped(items)[i].1.push(value))),
        (forall|i: int| 0 <= i < grouped(items).len() ==> grouped(items)[i].0 != key) ==> grouped(
            items.push((key, value)),
        ) == grouped(items).push((key, seq![value])),
{
    let more = items.push((key, value));
    let known = first_keys(keys_of(items));
    let before = grouped(items);
    let after = grouped(more);
    lemma_first_keys(keys_of(items));
    assert(keys_of(more).drop_last() =~= keys_of(items));
    assert forall|k: K| members(more, k) == if k == key {
        members(items, k).push(value)
    } else {
        members(items, k)
    } by {
        lemma_members_push(items, (key, value), k);
    }
    if known.contains(key) {
        let at = known.index_of(key);
        assert(before[at].0 == key);
        assert forall|i: int| 0 <= i < before.len() && before[i].0 == key implies after
            =~= before.update(i, (key, before[i].1.push(value))) by {
            assert(known[i] == key);
        }
    } else {
        lemma_members_empty(items, key);
        assert(members(items, key).push(value) =~= seq![value]);
    }
}

} // verus!
