//! What a pass over the items can leave in the map.
//!
//! An operation is an executable function, so all that is known of a call is what
//! its own contract says: `call_ensures(operation, arguments, result)`. The
//! accumulator of a group is therefore described as the end of a chain of such
//! calls, one for each value of the group, in order. Each predicate below comes in
//! two forms: one for a single group, and one for the whole map.

use crate::groups::{group_values, key_set};
use vstd::pervasive::strictly_cloned;
use vstd::prelude::*;

verus! {

/// `acc` can be what is held for `key` once `operation` has been called on each of
/// `vals` in turn.
///
/// Nothing is held before the first value. Each call gets what the call before it
/// returned, and what it returns is held, also where that is nothing.
pub open spec fn aggregated<K, V, R, FO>(operation: FO, key: K, vals: Seq<V>, acc: Option<R>) -> bool
    where FO: FnMut(Option<R>, &K, V) -> Option<R>,
    decreases vals.len(),
{
    if vals.len() == 0 {
        acc is None
    } else {
        exists|before: Option<R>|
            aggregated(operation, key, vals.drop_last(), before) && #[trigger] call_ensures(
                operation,
                (before, &key, vals.last()),
                acc,
            )
    }
}

/// `map` can be the result of aggregating `items` with `operation`.
pub open spec fn aggregates<K, V, R, FO>(operation: FO, items: Seq<(K, V)>, map: Map<K, R>) -> bool
    where FO: FnMut(Option<R>, &K, V) -> Option<R>,
{
    forall|key: K|
        #![trigger group_values(items, key)]
        #![trigger map.contains_key(key)]
        aggregated(operation, key, group_values(items, key), map.get(key))
}

/// `operation` may be called on every item of `items`, with every accumulator that
/// the items before it can have left for its key.
pub open spec fn admits_aggregate<K, V, R, FO>(operation: FO, items: Seq<(K, V)>) -> bool
    where FO: FnMut(Option<R>, &K, V) -> Option<R>,
{
    forall|i: int, acc: Option<R>|
        0 <= i < items.len() && #[trigger] aggregated(
            operation,
            items[i].0,
            group_values(items.take(i), items[i].0),
            acc,
        ) ==> call_requires(operation, (acc, &items[i].0, items[i].1))
}

/// `acc` can be the left fold of `vals` by `operation`, begun with a clone of `init`.
pub open spec fn folded<K, V, R, FO>(init: R, operation: FO, key: K, vals: Seq<V>, acc: R) -> bool
    where R: Clone, FO: FnMut(R, &K, V) -> R,
    decreases vals.len(),
{
    if vals.len() == 0 {
        strictly_cloned(init, acc)
    } else {
        exists|before: R|
            folded(init, operation, key, vals.drop_last(), before) && #[trigger] call_ensures(
                operation,
                (before, &key, vals.last()),
                acc,
            )
    }
}

/// `map` can be the result of folding `items` with `operation`, from `init`.
pub open spec fn folds<K, V, R, FO>(init: R, operation: FO, items: Seq<(K, V)>, map: Map<K, R>) -> bool
    where R: Clone, FO: FnMut(R, &K, V) -> R,
{
    &&& map.dom() == key_set(items)
    &&& forall|key: K| #[trigger]
        map.contains_key(key) ==> folded(init, operation, key, group_values(items, key), map[key])
}

/// `operation` may be called on every item of `items`, with every accumulator that
/// a fold from `init` over the items before it can have reached for its key.
pub open spec fn admits_fold<K, V, R, FO>(init: R, operation: FO, items: Seq<(K, V)>) -> bool
    where R: Clone, FO: FnMut(R, &K, V) -> R,
{
    forall|i: int, acc: R|
        0 <= i < items.len() && #[trigger] folded(
            init,
            operation,
            items[i].0,
            group_values(items.take(i), items[i].0),
            acc,
        ) ==> call_requires(operation, (acc, &items[i].0, items[i].1))
}

/// `acc` can be the left fold of the values after the first by `operation`, begun
/// with the first value. No accumulator comes of no values.
pub open spec fn first_folded<K, V, FO>(operation: FO, key: K, vals: Seq<V>, acc: V) -> bool
    where FO: FnMut(V, &K, V) -> V,
    decreases vals.len(),
{
    if vals.len() == 0 {
        false
    } else if vals.len() == 1 {
        acc == vals[0]
    } else {
        exists|before: V|
            first_folded(operation, key, vals.drop_last(), before) && #[trigger] call_ensures(
                operation,
                (before, &key, vals.last()),
                acc,
            )
    }
}

/// `map` can be the result of folding each group of `items` from its first value.
pub open spec fn folds_first<K, V, FO>(operation: FO, items: Seq<(K, V)>, map: Map<K, V>) -> bool
    where FO: FnMut(V, &K, V) -> V,
{
    &&& map.dom() == key_set(items)
    &&& forall|key: K| #[trigger]
        map.contains_key(key) ==> first_folded(operation, key, group_values(items, key), map[key])
}

/// `operation` may be called on every item of `items` but the first of each group,
/// with every accumulator that the items before it can have left for its key.
pub open spec fn admits_fold_first<K, V, FO>(operation: FO, items: Seq<(K, V)>) -> bool
    where FO: FnMut(V, &K, V) -> V,
{
    forall|i: int, acc: V|
        0 <= i < items.len() && #[trigger] first_folded(
            operation,
            items[i].0,
            group_values(items.take(i), items[i].0),
            acc,
        ) ==> call_requires(operation, (acc, &items[i].0, items[i].1))
}

/// Puts one value into a container.
///
/// This is `Extend::extend` of std, called with the one value. `Extend` promises
/// nothing that holds of every container, and so neither does this: all that is
/// known of `grown` is that this call returned it.
#[verifier::external_body]
pub(crate) fn extend_one<C, V>(container: C, val: V) -> (grown: C)
    where C: Extend<V>,
{
    let mut grown = container;
    grown.extend(Some(val));
    grown
}

/// `container` can be what comes of `C::default()` by extending it with each of
/// `vals` in turn.
pub closed spec fn collected<C, V>(vals: Seq<V>, container: C) -> bool
    where C: Default + Extend<V>,
    decreases vals.len(),
{
    if vals.len() == 0 {
        call_ensures(C::default, (), container)
    } else {
        exists|before: C|
            collected(vals.drop_last(), before) && #[trigger] call_ensures(
                extend_one::<C, V>,
                (before, vals.last()),
                container,
            )
    }
}

/// Extending a container of all values but the last with the last value gives a
/// container of all of them. For one value, the container before is an empty one.
pub(crate) proof fn lemma_collected_push<C, V>(vals: Seq<V>, before: C, container: C)
    where C: Default + Extend<V>,
    requires
        vals.len() > 0,
        vals.len() == 1 ==> call_ensures(C::default, (), before),
        vals.len() > 1 ==> collected(vals.drop_last(), before),
        call_ensures(extend_one::<C, V>, (before, vals.last()), container),
    ensures
        collected(vals, container),
{
    assert(collected(vals.drop_last(), before));
}

/// `map` can be the result of collecting each group of `items` into a container.
pub open spec fn collects<K, V, C>(items: Seq<(K, V)>, map: Map<K, C>) -> bool
    where C: Default + Extend<V>,
{
    &&& map.dom() == key_set(items)
    &&& forall|key: K| #[trigger]
        map.contains_key(key) ==> collected(group_values(items, key), map[key])
}

/// `map` holds, for each key of `items`, how many items have that key.
pub open spec fn counts<K, V>(items: Seq<(K, V)>, map: Map<K, usize>) -> bool {
    &&& map.dom() == key_set(items)
    &&& forall|key: K| #[trigger]
        map.contains_key(key) ==> map[key] == group_values(items, key).len()
}

} // verus!
