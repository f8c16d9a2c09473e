//! The adapter and its operations.

use crate::groups::{
    group_values, key_set, lemma_group_values_empty, lemma_group_values_prefix,
    lemma_group_values_step, lemma_key_set_is_nonempty_groups,
};
use crate::outcome::{
    admits_aggregate, admits_fold, admits_fold_first, aggregated, aggregates, collected, collects,
    counts, extend_one, first_folded, folded, folds, folds_first, lemma_collected_push,
};
use crate::step::{
    lemma_stepped_by_fold, lemma_stepped_by_fold_first, lemma_stepped_by_operation, stepped,
    ByFold, ByFoldFirst, ByOperation, Step,
};
use std::collections::HashMap;
use std::hash::Hash;
use vstd::pervasive::strictly_cloned;
use vstd::prelude::*;
use vstd::std_specs::hash::obeys_key_model;
use vstd::std_specs::iter::IteratorSpec;

verus! {

/// Creates a new `GroupingMap` from `iter`.
pub fn new<I, K, V>(iter: I) -> (grouping: GroupingMap<I>)
    where I: Iterator<Item = (K, V)>, K: Hash + Eq,
    ensures
        grouping.source() == iter,
{
    GroupingMap { iter }
}

/// A source of key-value pairs, ready to be grouped by key and folded group by
/// group in one pass.
///
/// Every operation takes the adapter by value, so it is used once. What the
/// operations will see is `self.source().remaining()`: the items that the source
/// is going to yield, in order.
pub struct GroupingMap<I> {
    iter: I,
}

impl<I> GroupingMap<I> {
    /// The source that the adapter was made from.
    pub closed spec fn source(self) -> I {
        self.iter
    }
}

/// Walks the source once. For each item it takes what the map holds for the item's
/// key out of the map, applies `step`, and puts back what the step returned, if
/// anything.
fn pass<I, K, V, R, S>(iter: I, step: S) -> (map: HashMap<K, R>)
    where I: Iterator<Item = (K, V)>, K: Hash + Eq, S: Step<K, V, R>,
    requires
        obeys_key_model::<K>(),
        iter.obeys_prophetic_iter_laws(),
        iter.decrease() is Some,
        forall|i: int, acc: Option<R>|
            0 <= i < iter.remaining().len() && #[trigger] stepped(
                step,
                iter.remaining()[i].0,
                group_values(iter.remaining().take(i), iter.remaining()[i].0),
                acc,
            ) ==> step.accepts(acc, iter.remaining()[i].0, iter.remaining()[i].1),
    ensures
        forall|key: K|
            #![trigger group_values(iter.remaining(), key)]
            #![trigger map@.contains_key(key)]
            stepped(step, key, group_values(iter.remaining(), key), map@.get(key)),
{
    let ghost items = iter.remaining();
    let ghost first_step = step;
    let ghost mut seen: int = 0;
    let mut iter = iter;
    let mut step = step;
    let mut map: HashMap<K, R> = HashMap::new();
    proof {
        assert forall|key: K| stepped(step, key, group_values(items.take(0), key), map@.get(key)) by {
            assert(items.take(0) =~= Seq::<(K, V)>::empty());
            lemma_group_values_empty::<K, V>(key);
        }
    }
    loop
        invariant
            obeys_key_model::<K>(),
            iter.obeys_prophetic_iter_laws(),
            iter.decrease() is Some,
            step == first_step,
            0 <= seen <= items.len(),
            iter.remaining() == items.skip(seen),
            forall|i: int, acc: Option<R>|
                0 <= i < items.len() && #[trigger] stepped(
                    step,
                    items[i].0,
                    group_values(items.take(i), items[i].0),
                    acc,
                ) ==> step.accepts(acc, items[i].0, items[i].1),
            forall|key: K|
                stepped(step, key, group_values(items.take(seen), key), map@.get(key)),
        ensures
            seen == items.len(),
            forall|key: K|
                stepped(first_step, key, group_values(items.take(seen), key), map@.get(key)),
        decreases iter.decrease()->0,
    {
        let ghost held = map@;
        match iter.next() {
            Some((key, val)) => {
                let acc = map.remove(&key);
                proof {
                    assert(items[seen] == (key, val));
                    assert(acc == held.get(key));
                    assert(stepped(step, key, group_values(items.take(seen), key), acc));
                }
                let out = step.apply(acc, &key, val);
                let ghost key_seen = key;
                if let Some(next) = out {
                    map.insert(key, next);
                }
                proof {
                    assert forall|other: K|
                        stepped(
                            step,
                            other,
                            group_values(items.take(seen + 1), other),
                            map@.get(other),
                        ) by {
                        lemma_group_values_step(items, seen, other);
                        let before = group_values(items.take(seen), other);
                        assert(stepped(step, other, before, held.get(other)));
                        if other == key_seen {
                            assert(before.push(val).drop_last() =~= before);
                            assert(map@.get(other) == out);
                            assert(step.yields(held.get(other), other, before.push(val).last(), out));
                        } else {
                            assert(map@.get(other) == held.get(other));
                        }
                    }
                    seen = seen + 1;
                }
            },
            None => {
                break ;
            },
        }
    }
    proof {
        assert(items.take(seen) =~= items);
    }
    map
}

impl<I, K, V> GroupingMap<I>
    where I: Iterator<Item = (K, V)>, K: Hash + Eq,
{
    /// The adapter can be run: keys that are equal hash alike, and the source
    /// yields its items and then ends.
    pub open spec fn wf(self) -> bool {
        &&& obeys_key_model::<K>()
        &&& self.source().obeys_prophetic_iter_laws()
        &&& self.source().decrease() is Some
    }

    /// Groups the items by key and applies `operation` to the items of each group
    /// in turn. A call gets what the call before it returned for the same key
    /// (nothing, for the first item of a group), a reference to the key, and the
    /// value. What it returns becomes the accumulator of the group; if it returns
    /// nothing, the group has no accumulator until a later item gives it one.
    ///
    /// The map holds, for each key, the accumulator that its group ended with, and
    /// no entry for a group that ended without one.
    pub fn aggregate<FO, R>(self, operation: FO) -> (map: HashMap<K, R>)
        where FO: FnMut(Option<R>, &K, V) -> Option<R>,
        requires
            self.wf(),
            admits_aggregate(operation, self.source().remaining()),
        ensures
            aggregates(operation, self.source().remaining(), map@),
            map@.dom().subset_of(key_set(self.source().remaining())),
            self.source().remaining().len() == 0 ==> map@ == Map::<K, R>::empty(),
    {
        let ghost items = self.source().remaining();
        let step = ByOperation { operation };
        proof {
            assert forall|i: int, acc: Option<R>|
                0 <= i < items.len() && #[trigger] stepped(
                    step,
                    items[i].0,
                    group_values(items.take(i), items[i].0),
                    acc,
                ) implies step.accepts(acc, items[i].0, items[i].1) by {
                lemma_stepped_by_operation(
                    operation,
                    items[i].0,
                    group_values(items.take(i), items[i].0),
                    acc,
                );
            }
        }
        let map = pass(self.iter, step);
        proof {
            assert forall|key: K|
                #![trigger group_values(items, key)]
                #![trigger map@.contains_key(key)]
                aggregated(operation, key, group_values(items, key), map@.get(key)) by {
                lemma_stepped_by_operation(operation, key, group_values(items, key), map@.get(key));
            }
            assert forall|key: K| map@.contains_key(key) implies key_set(items).contains(key) by {
                assert(aggregated(operation, key, group_values(items, key), map@.get(key)));
                lemma_key_set_is_nonempty_groups(items, key);
            }
            assert(items.len() == 0 ==> map@ =~= Map::<K, R>::empty());
        }
        map
    }

    /// Groups the items by key and folds each group from the left with
    /// `operation`. The first call for a key gets a clone of `init`, each later
    /// call gets what the call before it returned for that key.
    ///
    /// The map holds an entry for every key of the source: the fold of its group.
    pub fn fold<FO, R>(self, init: R, operation: FO) -> (map: HashMap<K, R>)
        where R: Clone, FO: FnMut(R, &K, V) -> R,
        requires
            self.wf(),
            admits_fold(init, operation, self.source().remaining()),
        ensures
            folds(init, operation, self.source().remaining(), map@),
            self.source().remaining().len() == 0 ==> map@ == Map::<K, R>::empty(),
    {
        let ghost items = self.source().remaining();
        let step = ByFold { init, operation };
        proof {
            assert forall|i: int, acc: Option<R>|
                0 <= i < items.len() && #[trigger] stepped(
                    step,
                    items[i].0,
                    group_values(items.take(i), items[i].0),
                    acc,
                ) implies step.accepts(acc, items[i].0, items[i].1) by {
                let group = group_values(items.take(i), items[i].0);
                lemma_stepped_by_fold(init, operation, items[i].0, group, acc);
                assert forall|seed: R| acc is None && #[trigger] strictly_cloned(init, seed) implies folded(
                    init,
                    operation,
                    items[i].0,
                    group,
                    seed,
                ) by {}
            }
        }
        let map = pass(self.iter, step);
        proof {
            assert forall|key: K|
                map@.contains_key(key) == key_set(items).contains(key) && (map@.contains_key(key)
                    ==> folded(init, operation, key, group_values(items, key), map@[key])) by {
                assert(stepped(step, key, group_values(items, key), map@.get(key)));
                lemma_stepped_by_fold(init, operation, key, group_values(items, key), map@.get(key));
                lemma_key_set_is_nonempty_groups(items, key);
            }
            assert(map@.dom() =~= key_set(items));
            assert(items.len() == 0 ==> map@ =~= Map::<K, R>::empty());
        }
        map
    }

    /// Groups the items by key and folds each group from the left with
    /// `operation`, beginning with the first value of the group.
    ///
    /// The map holds an entry for every key of the source: the fold of its group.
    /// For a group of one value that is the value itself.
    pub fn fold_first<FO>(self, operation: FO) -> (map: HashMap<K, V>)
        where FO: FnMut(V, &K, V) -> V,
        requires
            self.wf(),
            admits_fold_first(operation, self.source().remaining()),
        ensures
            folds_first(operation, self.source().remaining(), map@),
            self.source().remaining().len() == 0 ==> map@ == Map::<K, V>::empty(),
    {
        let ghost items = self.source().remaining();
        let step = ByFoldFirst { operation };
        proof {
            assert forall|i: int, acc: Option<V>|
                0 <= i < items.len() && #[trigger] stepped(
                    step,
                    items[i].0,
                    group_values(items.take(i), items[i].0),
                    acc,
                ) implies step.accepts(acc, items[i].0, items[i].1) by {
                lemma_stepped_by_fold_first(
                    operation,
                    items[i].0,
                    group_values(items.take(i), items[i].0),
                    acc,
                );
            }
        }
        let map = pass(self.iter, step);
        proof {
            assert forall|key: K|
                map@.contains_key(key) == key_set(items).contains(key) && (map@.contains_key(key)
                    ==> first_folded(operation, key, group_values(items, key), map@[key])) by {
                assert(stepped(step, key, group_values(items, key), map@.get(key)));
                lemma_stepped_by_fold_first(
                    operation,
                    key,
                    group_values(items, key),
                    map@.get(key),
                );
                lemma_key_set_is_nonempty_groups(items, key);
            }
            assert(map@.dom() =~= key_set(items));
            assert(items.len() == 0 ==> map@ =~= Map::<K, V>::empty());
        }
        map
    }

    /// Groups the items by key and collects the values of each group in a
    /// container of type `C`: an empty one, made by `C::default()`, is extended
    /// with the values one by one, in the order of the source.
    ///
    /// The map holds an entry for every key of the source: the container of its
    /// group.
    pub fn collect<C>(self) -> (map: HashMap<K, C>)
        where C: Default + Extend<V>,
        requires
            self.wf(),
        ensures
            collects(self.source().remaining(), map@),
            self.source().remaining().len() == 0 ==> map@ == Map::<K, C>::empty(),
    {
        let ghost items = self.source().remaining();
        let map = self.aggregate(collect_step::<C, K, V>);
        proof {
            assert forall|key: K|
                map@.contains_key(key) == key_set(items).contains(key) && (map@.contains_key(key)
                    ==> collected(group_values(items, key), map@[key])) by {
                assert(aggregated(
                    collect_step::<C, K, V>,
                    key,
                    group_values(items, key),
                    map@.get(key),
                ));
                lemma_aggregated_by_collect_step(
                    collect_step::<C, K, V>,
                    key,
                    group_values(items, key),
                    map@.get(key),
                );
                lemma_key_set_is_nonempty_groups(items, key);
            }
            assert(map@.dom() =~= key_set(items));
        }
        map
    }

    /// Groups the items by key and counts the items of each group.
    ///
    /// The map holds an entry for every key of the source: the number of items
    /// with that key. No count is zero.
    pub fn count(self) -> (map: HashMap<K, usize>)
        requires
            self.wf(),
            forall|key: K| group_values(self.source().remaining(), key).len() <= usize::MAX,
        ensures
            counts(self.source().remaining(), map@),
            forall|key: K| #[trigger] map@.contains_key(key) ==> map@[key] >= 1,
            self.source().remaining().len() == 0 ==> map@ == Map::<K, usize>::empty(),
    {
        let ghost items = self.source().remaining();
        let one_more = |acc: usize, _key: &K, _val: V| -> (next: usize)
            requires
                acc < usize::MAX,
            ensures
                next == acc + 1,
            { acc + 1 };
        proof {
            assert forall|i: int, acc: usize|
                0 <= i < items.len() && #[trigger] folded(
                    0usize,
                    one_more,
                    items[i].0,
                    group_values(items.take(i), items[i].0),
                    acc,
                ) implies call_requires(one_more, (acc, &items[i].0, items[i].1)) by {
                let key = items[i].0;
                lemma_folded_by_one_more(one_more, key, group_values(items.take(i), key), acc);
                lemma_group_values_step(items, i, key);
                lemma_group_values_prefix(items, i + 1, items.len() as int, key);
                assert(items.take(items.len() as int) =~= items);
            }
        }
        let map = self.fold(0usize, one_more);
        proof {
            assert forall|key: K| #[trigger]
                map@.contains_key(key) implies map@[key] == group_values(items, key).len()
                && map@[key] >= 1 by {
                lemma_folded_by_one_more(one_more, key, group_values(items, key), map@[key]);
                lemma_key_set_is_nonempty_groups(items, key);
            }
        }
        map
    }
}

/// The step of `collect`: extends the container of the group, or an empty one, with
/// the value.
fn collect_step<C, K, V>(acc: Option<C>, key: &K, val: V) -> (out: Option<C>)
    where C: Default + Extend<V>,
    ensures
        collect_yields(acc, val, out),
{
    let container = match acc {
        Some(held) => held,
        None => C::default(),
    };
    let grown = extend_one(container, val);
    proof {
        if acc is None {
            lemma_collected_push(seq![val], container, grown);
        }
    }
    Some(grown)
}

/// What `collect_step` returns: a container, one value on from the one it was given.
spec fn collect_yields<C, V>(acc: Option<C>, val: V, out: Option<C>) -> bool
    where C: Default + Extend<V>,
{
    &&& out is Some
    &&& match acc {
        Some(held) => call_ensures(extend_one::<C, V>, (held, val), out->0),
        None => collected(seq![val], out->0),
    }
}

/// A chain of calls of an operation that does what `collect_step` does holds
/// nothing before the first value, and from then on a container of the values.
proof fn lemma_aggregated_by_collect_step<C, K, V, FO>(
    operation: FO,
    key: K,
    vals: Seq<V>,
    acc: Option<C>,
)
    where C: Default + Extend<V>, FO: FnMut(Option<C>, &K, V) -> Option<C>,
    requires
        aggregated(operation, key, vals, acc),
        forall|held: Option<C>, k: K, val: V, out: Option<C>| #[trigger]
            call_ensures(operation, (held, &k, val), out) ==> collect_yields(held, val, out),
    ensures
        vals.len() == 0 ==> acc is None,
        vals.len() > 0 ==> acc is Some && collected(vals, acc->0),
    decreases vals.len(),
{
    if vals.len() > 0 {
        let before = choose|before: Option<C>|
            aggregated(operation, key, vals.drop_last(), before) && #[trigger] call_ensures(
                operation,
                (before, &key, vals.last()),
                acc,
            );
        lemma_aggregated_by_collect_step(operation, key, vals.drop_last(), before);
        match before {
            Some(held) => {
                lemma_collected_push(vals, held, acc->0);
            },
            None => {
                assert(vals =~= seq![vals.last()]);
            },
        }
    }
}

/// A fold from zero by an operation that adds one ends at the number of values.
proof fn lemma_folded_by_one_more<K, V, FO>(operation: FO, key: K, vals: Seq<V>, acc: usize)
    where FO: FnMut(usize, &K, V) -> usize,
    requires
        folded(0usize, operation, key, vals, acc),
        forall|held: usize, k: K, val: V, next: usize| #[trigger]
            call_ensures(operation, (held, &k, val), next) ==> next == held + 1,
    ensures
        acc == vals.len(),
    decreases vals.len(),
{
    if vals.len() > 0 {
        let before = choose|before: usize|
            folded(0usize, operation, key, vals.drop_last(), before) && #[trigger] call_ensures(
                operation,
                (before, &key, vals.last()),
                acc,
            );
        lemma_folded_by_one_more(operation, key, vals.drop_last(), before);
    }
}

} // verus!
