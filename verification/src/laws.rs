//! Laws of the operations.
//!
//! Each law takes a map of which a contract of [`crate::grouping_map::GroupingMap`]
//! holds, and concludes from the contract alone. The first laws hold of every
//! operation. The last three are for an operation whose contract says what it
//! returns: then the accumulator of a group is a left fold in the sense of
//! `Seq::fold_left`.

use crate::groups::{
    group_values, key_set, lemma_group_values_counts_items, lemma_group_values_len,
    lemma_group_values_step, lemma_key_set_is_nonempty_groups,
};
use crate::outcome::{
    aggregated, aggregates, counts, first_folded, folded, folds, folds_first,
};
use vstd::pervasive::strictly_cloned;
use vstd::prelude::*;

verus! {

/// Where no item after item `i` has the key of item `i`, the group of that key
/// ends with the value of item `i`.
pub proof fn lemma_group_values_last<K, V>(items: Seq<(K, V)>, i: int)
    requires
        0 <= i < items.len(),
        forall|j: int| i < j < items.len() ==> (#[trigger] items[j]).0 != items[i].0,
    ensures
        group_values(items, items[i].0) == group_values(items.take(i), items[i].0).push(
            items[i].1,
        ),
{
    lemma_group_values_tail(items, i, items.len() as int);
    assert(items.take(items.len() as int) =~= items);
}

proof fn lemma_group_values_tail<K, V>(items: Seq<(K, V)>, i: int, upto: int)
    requires
        0 <= i < upto <= items.len(),
        forall|j: int| i < j < items.len() ==> (#[trigger] items[j]).0 != items[i].0,
    ensures
        group_values(items.take(upto), items[i].0) == group_values(items.take(i), items[i].0).push(
            items[i].1,
        ),
    decreases upto - i,
{
    lemma_group_values_step(items, upto - 1, items[i].0);
    if upto - 1 > i {
        lemma_group_values_tail(items, i, upto - 1);
        assert(items[upto - 1].0 != items[i].0);
    }
}

/// The last item of a key decides its entry: the map holds for that key what
/// `operation` returned for that item, whatever came before.
pub proof fn law_last_item_decides<K, V, R, FO>(
    operation: FO,
    items: Seq<(K, V)>,
    map: Map<K, R>,
    i: int,
)
    where FO: FnMut(Option<R>, &K, V) -> Option<R>,
    requires
        aggregates(operation, items, map),
        0 <= i < items.len(),
        forall|j: int| i < j < items.len() ==> (#[trigger] items[j]).0 != items[i].0,
    ensures
        exists|before: Option<R>| #[trigger]
            call_ensures(operation, (before, &items[i].0, items[i].1), map.get(items[i].0)),
{
    let key = items[i].0;
    let group = group_values(items, key);
    lemma_group_values_last(items, i);
    assert(aggregated(operation, key, group, map.get(key)));
    let before = choose|before: Option<R>|
        aggregated(operation, key, group.drop_last(), before) && #[trigger] call_ensures(
            operation,
            (before, &key, group.last()),
            map.get(key),
        );
    assert(call_ensures(operation, (before, &items[i].0, items[i].1), map.get(items[i].0)));
}

/// If `operation` returns nothing for the last item of a key, whatever accumulator
/// it is given, the key has no entry: what was accumulated before is discarded.
pub proof fn law_reset_discards<K, V, R, FO>(
    operation: FO,
    items: Seq<(K, V)>,
    map: Map<K, R>,
    i: int,
)
    where FO: FnMut(Option<R>, &K, V) -> Option<R>,
    requires
        aggregates(operation, items, map),
        0 <= i < items.len(),
        forall|j: int| i < j < items.len() ==> (#[trigger] items[j]).0 != items[i].0,
        forall|before: Option<R>, out: Option<R>| #[trigger]
            call_ensures(operation, (before, &items[i].0, items[i].1), out) ==> out is None,
    ensures
        !map.contains_key(items[i].0),
{
    law_last_item_decides(operation, items, map, i);
}

/// If `operation` returns an accumulator for the last item of a key, whatever
/// accumulator it is given, the key has an entry, also where an earlier item of
/// the key had its accumulator discarded.
pub proof fn law_later_item_restores<K, V, R, FO>(
    operation: FO,
    items: Seq<(K, V)>,
    map: Map<K, R>,
    i: int,
)
    where FO: FnMut(Option<R>, &K, V) -> Option<R>,
    requires
        aggregates(operation, items, map),
        0 <= i < items.len(),
        forall|j: int| i < j < items.len() ==> (#[trigger] items[j]).0 != items[i].0,
        forall|before: Option<R>, out: Option<R>| #[trigger]
            call_ensures(operation, (before, &items[i].0, items[i].1), out) ==> out is Some,
    ensures
        map.contains_key(items[i].0),
{
    law_last_item_decides(operation, items, map, i);
}

/// A fold by an operation that hands its accumulator back gives every key of the
/// items a clone of `init`.
pub proof fn law_fold_identity<K, V, R, FO>(
    init: R,
    operation: FO,
    items: Seq<(K, V)>,
    map: Map<K, R>,
    key: K,
)
    where R: Clone, FO: FnMut(R, &K, V) -> R,
    requires
        folds(init, operation, items, map),
        forall|acc: R, k: K, val: V, out: R| #[trigger]
            call_ensures(operation, (acc, &k, val), out) ==> out == acc,
        key_set(items).contains(key),
    ensures
        map.contains_key(key),
        strictly_cloned(init, map[key]),
{
    lemma_folded_identity(init, operation, key, group_values(items, key), map[key]);
}

proof fn lemma_folded_identity<K, V, R, FO>(init: R, operation: FO, key: K, vals: Seq<V>, acc: R)
    where R: Clone, FO: FnMut(R, &K, V) -> R,
    requires
        folded(init, operation, key, vals, acc),
        forall|held: R, k: K, val: V, out: R| #[trigger]
            call_ensures(operation, (held, &k, val), out) ==> out == held,
    ensures
        strictly_cloned(init, acc),
    decreases vals.len(),
{
    if vals.len() > 0 {
        let before = choose|before: R|
            folded(init, operation, key, vals.drop_last(), before) && #[trigger] call_ensures(
                operation,
                (before, &key, vals.last()),
                acc,
            );
        lemma_folded_identity(init, operation, key, vals.drop_last(), before);
    }
}

/// A key with exactly one value is mapped to that value by `fold_first`.
pub proof fn law_fold_first_singleton<K, V, FO>(
    operation: FO,
    items: Seq<(K, V)>,
    map: Map<K, V>,
    key: K,
    val: V,
)
    where FO: FnMut(V, &K, V) -> V,
    requires
        folds_first(operation, items, map),
        group_values(items, key) == seq![val],
    ensures
        map.contains_key(key),
        map[key] == val,
{
    lemma_key_set_is_nonempty_groups(items, key);
}

/// A count is the number of items that have the key.
pub proof fn law_count_is_number_of_items<K, V>(items: Seq<(K, V)>, map: Map<K, usize>, key: K)
    requires
        counts(items, map),
    ensures
        map.contains_key(key) ==> map[key] == items.filter(|item: (K, V)| item.0 == key).len(),
        !map.contains_key(key) ==> items.filter(|item: (K, V)| item.0 == key).len() == 0,
{
    lemma_group_values_counts_items(items, key);
    lemma_key_set_is_nonempty_groups(items, key);
}

/// A sequence that is no longer than `usize::MAX` can be counted: no group of it
/// has more values than a `usize` can say.
pub proof fn law_short_sources_can_be_counted<K, V>(items: Seq<(K, V)>)
    requires
        items.len() <= usize::MAX,
    ensures
        forall|key: K| #[trigger] group_values(items, key).len() <= usize::MAX,
{
    assert forall|key: K| #[trigger] group_values(items, key).len() <= usize::MAX by {
        lemma_group_values_len(items, key);
    }
}

/// The contract of `operation` says what it returns: `result` of its arguments.
pub open spec fn returns_only<K, V, A, B, FO>(operation: FO, result: spec_fn(A, K, V) -> B) -> bool
    where FO: FnMut(A, &K, V) -> B,
{
    forall|acc: A, key: K, val: V, out: B| #[trigger]
        call_ensures(operation, (acc, &key, val), out) ==> out == result(acc, key, val)
}

/// Where `operation` returns `result`, what is held for a key is the left fold of
/// its values by `result`, begun with nothing.
pub proof fn law_aggregate_is_fold_left<K, V, R, FO>(
    operation: FO,
    result: spec_fn(Option<R>, K, V) -> Option<R>,
    key: K,
    vals: Seq<V>,
    acc: Option<R>,
)
    where FO: FnMut(Option<R>, &K, V) -> Option<R>,
    requires
        returns_only(operation, result),
        aggregated(operation, key, vals, acc),
    ensures
        acc == vals.fold_left(None, |held: Option<R>, val: V| result(held, key, val)),
    decreases vals.len(),
{
    if vals.len() > 0 {
        let before = choose|before: Option<R>|
            aggregated(operation, key, vals.drop_last(), before) && #[trigger] call_ensures(
                operation,
                (before, &key, vals.last()),
                acc,
            );
        law_aggregate_is_fold_left(operation, result, key, vals.drop_last(), before);
    }
}

/// Where `operation` returns `result` and a clone of `init` is `init`, the fold of
/// a group is the left fold of its values by `result`, begun with `init`.
pub proof fn law_fold_is_fold_left<K, V, R, FO>(
    init: R,
    operation: FO,
    result: spec_fn(R, K, V) -> R,
    key: K,
    vals: Seq<V>,
    acc: R,
)
    where R: Clone, FO: FnMut(R, &K, V) -> R,
    requires
        returns_only(operation, result),
        forall|seed: R| #[trigger] strictly_cloned(init, seed) ==> seed == init,
        folded(init, operation, key, vals, acc),
    ensures
        acc == vals.fold_left(init, |held: R, val: V| result(held, key, val)),
    decreases vals.len(),
{
    if vals.len() > 0 {
        let before = choose|before: R|
            folded(init, operation, key, vals.drop_last(), before) && #[trigger] call_ensures(
                operation,
                (before, &key, vals.last()),
                acc,
            );
        law_fold_is_fold_left(init, operation, result, key, vals.drop_last(), before);
    }
}

/// Where `operation` returns `result`, the fold of a group from its first value is
/// the left fold of the values after the first by `result`, begun with the first.
pub proof fn law_fold_first_is_fold_left<K, V, FO>(
    operation: FO,
    result: spec_fn(V, K, V) -> V,
    key: K,
    vals: Seq<V>,
    acc: V,
)
    where FO: FnMut(V, &K, V) -> V,
    requires
        returns_only(operation, result),
        first_folded(operation, key, vals, acc),
    ensures
        vals.len() > 0,
        acc == vals.drop_first().fold_left(vals[0], |held: V, val: V| result(held, key, val)),
    decreases vals.len(),
{
    if vals.len() > 1 {
        let before = choose|before: V|
            first_folded(operation, key, vals.drop_last(), before) && #[trigger] call_ensures(
                operation,
                (before, &key, vals.last()),
                acc,
            );
        law_fold_first_is_fold_left(operation, result, key, vals.drop_last(), before);
        assert(vals.drop_first().drop_last() =~= vals.drop_last().drop_first());
        assert(vals.drop_first().last() == vals.last());
        assert(vals.drop_last()[0] == vals[0]);
    }
}

} // verus!
