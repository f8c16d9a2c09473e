//! The groups of a sequence of key-value pairs.

use vstd::prelude::*;

verus! {

/// The values that `items` pairs with `key`, in the order in which they occur.
pub open spec fn group_values<K, V>(items: Seq<(K, V)>, key: K) -> Seq<V> {
    items.filter_map(
        |item: (K, V)|
            if item.0 == key {
                Some(item.1)
            } else {
                None
            },
    )
}

/// The keys that occur in `items`.
pub open spec fn key_set<K, V>(items: Seq<(K, V)>) -> Set<K> {
    Set::new(|key: K| exists|i: int| 0 <= i < items.len() && (#[trigger] items[i]).0 == key)
}

/// No key has a value before the first item.
pub proof fn lemma_group_values_empty<K, V>(key: K)
    ensures
        group_values(Seq::<(K, V)>::empty(), key) == Seq::<V>::empty(),
{
}

/// Item `i` joins the group of its own key and leaves every other group as it was.
pub proof fn lemma_group_values_step<K, V>(items: Seq<(K, V)>, i: int, key: K)
    requires
        0 <= i < items.len(),
    ensures
        items[i].0 == key ==> group_values(items.take(i + 1), key) == group_values(
            items.take(i),
            key,
        ).push(items[i].1),
        items[i].0 != key ==> group_values(items.take(i + 1), key) == group_values(
            items.take(i),
            key,
        ),
{
    let pick = |item: (K, V)|
        if item.0 == key {
            Some(item.1)
        } else {
            None
        };
    items.lemma_filter_map_take_succ(pick, i);
    if items[i].0 == key {
        assert(group_values(items.take(i), key) + seq![items[i].1] =~= group_values(
            items.take(i),
            key,
        ).push(items[i].1));
    } else {
        assert(group_values(items.take(i), key) + Seq::<V>::empty() =~= group_values(
            items.take(i),
            key,
        ));
    }
}

/// A group only grows as more of the sequence is taken.
pub proof fn lemma_group_values_prefix<K, V>(items: Seq<(K, V)>, i: int, j: int, key: K)
    requires
        0 <= i <= j <= items.len(),
    ensures
        group_values(items.take(i), key).len() <= group_values(items.take(j), key).len(),
    decreases j - i,
{
    if i < j {
        lemma_group_values_prefix(items, i, j - 1, key);
        lemma_group_values_step(items, j - 1, key);
    }
}

/// A group has at most as many values as there are items.
pub proof fn lemma_group_values_len<K, V>(items: Seq<(K, V)>, key: K)
    ensures
        group_values(items, key).len() <= items.len(),
    decreases items.len(),
{
    if items.len() > 0 {
        let n = items.len() - 1;
        lemma_group_values_len(items.take(n), key);
        lemma_group_values_step(items, n, key);
        assert(items.take(n + 1) =~= items);
    }
}

/// A group has as many values as there are items with its key.
pub proof fn lemma_group_values_counts_items<K, V>(items: Seq<(K, V)>, key: K)
    ensures
        group_values(items, key).len() == items.filter(|item: (K, V)| item.0 == key).len(),
    decreases items.len(),
{
    reveal(Seq::filter);
    if items.len() > 0 {
        let n = items.len() - 1;
        lemma_group_values_counts_items(items.drop_last(), key);
        lemma_group_values_step(items, n, key);
        assert(items.take(n + 1) =~= items);
        assert(items.take(n) =~= items.drop_last());
    }
}

/// A key occurs in `items` exactly if its group is not empty.
pub proof fn lemma_key_set_is_nonempty_groups<K, V>(items: Seq<(K, V)>, key: K)
    ensures
        key_set(items).contains(key) <==> group_values(items, key).len() > 0,
    decreases items.len(),
{
    if items.len() > 0 {
        let n = items.len() - 1;
        let front = items.take(n);
        lemma_key_set_is_nonempty_groups(front, key);
        lemma_group_values_step(items, n, key);
        assert(items.take(n + 1) =~= items);
        if key_set(items).contains(key) {
            let i = choose|i: int| 0 <= i < items.len() && (#[trigger] items[i]).0 == key;
            if i < n {
                assert(front[i].0 == key);
                assert(key_set(front).contains(key));
            }
        }
        if group_values(items, key).len() > 0 {
            if items[n].0 != key {
                let i = choose|i: int| 0 <= i < front.len() && (#[trigger] front[i]).0 == key;
                assert(items[i].0 == key);
            } else {
                assert(items[n].0 == key);
            }
        }
    }
}

} // verus!
