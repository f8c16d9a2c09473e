//! The step that a pass takes for each item.
//!
//! Verified code cannot yet hold a closure that calls an `FnMut` which it has
//! captured: the call borrows the captured operation mutably. So the pass does not
//! take a closure. It takes a [`Step`]: a value that owns the caller's operation
//! and applies it. There is one kind of step for each way of starting and
//! continuing an accumulator with an operation of the caller.

use crate::outcome::{aggregated, first_folded, folded};
use vstd::pervasive::strictly_cloned;
use vstd::prelude::*;

verus! {

/// Makes the next accumulator of a group from the one before it and a value.
pub(crate) trait Step<K, V, R>: Sized {
    /// The step may be applied to these arguments.
    spec fn accepts(self, acc: Option<R>, key: K, val: V) -> bool;

    /// The step can return `out` for these arguments.
    spec fn yields(self, acc: Option<R>, key: K, val: V, out: Option<R>) -> bool;

    fn apply(&mut self, acc: Option<R>, key: &K, val: V) -> (out: Option<R>)
        requires
            old(self).accepts(acc, *key, val),
        ensures
            old(self).yields(acc, *key, val, out),
            *final(self) == *old(self),
    ;
}

/// `acc` can be what is held for `key` once `step` has been applied to each of
/// `vals` in turn, beginning with nothing.
pub(crate) open spec fn stepped<K, V, R, S>(step: S, key: K, vals: Seq<V>, acc: Option<R>) -> bool
    where S: Step<K, V, R>,
    decreases vals.len(),
{
    if vals.len() == 0 {
        acc is None
    } else {
        exists|before: Option<R>|
            stepped(step, key, vals.drop_last(), before) && #[trigger] step.yields(
                before,
                key,
                vals.last(),
                acc,
            )
    }
}

/// The step of `aggregate`: the operation itself.
pub(crate) struct ByOperation<FO> {
    pub operation: FO,
}

impl<K, V, R, FO> Step<K, V, R> for ByOperation<FO>
    where FO: FnMut(Option<R>, &K, V) -> Option<R>,
{
    open spec fn accepts(self, acc: Option<R>, key: K, val: V) -> bool {
        call_requires(self.operation, (acc, &key, val))
    }

    open spec fn yields(self, acc: Option<R>, key: K, val: V, out: Option<R>) -> bool {
        call_ensures(self.operation, (acc, &key, val), out)
    }

    fn apply(&mut self, acc: Option<R>, key: &K, val: V) -> (out: Option<R>) {
        (self.operation)(acc, key, val)
    }
}

/// The step of `fold`: the first value of a group meets a clone of `init`.
pub(crate) struct ByFold<R, FO> {
    pub init: R,
    pub operation: FO,
}

impl<K, V, R, FO> Step<K, V, R> for ByFold<R, FO>
    where R: Clone, FO: FnMut(R, &K, V) -> R,
{
    open spec fn accepts(self, acc: Option<R>, key: K, val: V) -> bool {
        match acc {
            Some(held) => call_requires(self.operation, (held, &key, val)),
            None => forall|seed: R| #[trigger]
                strictly_cloned(self.init, seed) ==> call_requires(self.operation, (seed, &key, val)),
        }
    }

    open spec fn yields(self, acc: Option<R>, key: K, val: V, out: Option<R>) -> bool {
        &&& out is Some
        &&& match acc {
            Some(held) => call_ensures(self.operation, (held, &key, val), out->0),
            None => exists|seed: R|
                strictly_cloned(self.init, seed) && #[trigger] call_ensures(
                    self.operation,
                    (seed, &key, val),
                    out->0,
                ),
        }
    }

    fn apply(&mut self, acc: Option<R>, key: &K, val: V) -> (out: Option<R>) {
        let start = match acc {
            Some(held) => held,
            None => {
                let seed = self.init.clone();
                assert(strictly_cloned(self.init, seed));
                seed
            },
        };
        let next = (self.operation)(start, key, val);
        let out = Some(next);
        proof {
            let step = *old(self);
            if acc is None {
                assert(strictly_cloned(step.init, start) && call_ensures(
                    step.operation,
                    (start, &*key, val),
                    out->0,
                ));
            }
            assert(step.yields(acc, *key, val, out));
        }
        out
    }
}

/// The step of `fold_first`: the first value of a group is its first accumulator.
pub(crate) struct ByFoldFirst<FO> {
    pub operation: FO,
}

impl<K, V, FO> Step<K, V, V> for ByFoldFirst<FO>
    where FO: FnMut(V, &K, V) -> V,
{
    open spec fn accepts(self, acc: Option<V>, key: K, val: V) -> bool {
        acc matches Some(held) ==> call_requires(self.operation, (held, &key, val))
    }

    open spec fn yields(self, acc: Option<V>, key: K, val: V, out: Option<V>) -> bool {
        &&& out is Some
        &&& match acc {
            Some(held) => call_ensures(self.operation, (held, &key, val), out->0),
            None => out->0 == val,
        }
    }

    fn apply(&mut self, acc: Option<V>, key: &K, val: V) -> (out: Option<V>) {
        Some(
            match acc {
                Some(held) => (self.operation)(held, key, val),
                None => val,
            },
        )
    }
}

/// A chain of steps by the operation itself is a chain of calls of the operation.
pub(crate) proof fn lemma_stepped_by_operation<K, V, R, FO>(
    operation: FO,
    key: K,
    vals: Seq<V>,
    acc: Option<R>,
)
    where FO: FnMut(Option<R>, &K, V) -> Option<R>,
    requires
        stepped(ByOperation { operation }, key, vals, acc),
    ensures
        aggregated(operation, key, vals, acc),
    decreases vals.len(),
{
    if vals.len() > 0 {
        let step = ByOperation { operation };
        let before = choose|before: Option<R>|
            stepped(step, key, vals.drop_last(), before) && #[trigger] step.yields(
                before,
                key,
                vals.last(),
                acc,
            );
        lemma_stepped_by_operation(operation, key, vals.drop_last(), before);
        assert(call_ensures(operation, (before, &key, vals.last()), acc));
    }
}

/// A chain of fold steps holds nothing before the first value, and a fold of the
/// values from then on.
pub(crate) proof fn lemma_stepped_by_fold<K, V, R, FO>(
    init: R,
    operation: FO,
    key: K,
    vals: Seq<V>,
    acc: Option<R>,
)
    where R: Clone, FO: FnMut(R, &K, V) -> R,
    requires
        stepped(ByFold { init, operation }, key, vals, acc),
    ensures
        vals.len() == 0 ==> acc is None,
        vals.len() > 0 ==> acc is Some && folded(init, operation, key, vals, acc->0),
    decreases vals.len(),
{
    if vals.len() > 0 {
        let step = ByFold { init, operation };
        let before = choose|before: Option<R>|
            stepped(step, key, vals.drop_last(), before) && #[trigger] step.yields(
                before,
                key,
                vals.last(),
                acc,
            );
        lemma_stepped_by_fold(init, operation, key, vals.drop_last(), before);
        match before {
            Some(held) => {
                assert(call_ensures(operation, (held, &key, vals.last()), acc->0));
            },
            None => {
                let seed = choose|seed: R|
                    strictly_cloned(init, seed) && #[trigger] call_ensures(
                        operation,
                        (seed, &key, vals.last()),
                        acc->0,
                    );
                assert(folded(init, operation, key, vals.drop_last(), seed));
            },
        }
    }
}

/// A chain of first-value steps holds nothing before the first value, and from then
/// on what was made of the first value by the values after it.
pub(crate) proof fn lemma_stepped_by_fold_first<K, V, FO>(
    operation: FO,
    key: K,
    vals: Seq<V>,
    acc: Option<V>,
)
    where FO: FnMut(V, &K, V) -> V,
    requires
        stepped(ByFoldFirst { operation }, key, vals, acc),
    ensures
        vals.len() == 0 ==> acc is None,
        vals.len() > 0 ==> acc is Some && first_folded(operation, key, vals, acc->0),
    decreases vals.len(),
{
    if vals.len() > 0 {
        let step = ByFoldFirst { operation };
        let before = choose|before: Option<V>|
            stepped(step, key, vals.drop_last(), before) && #[trigger] step.yields(
                before,
                key,
                vals.last(),
                acc,
            );
        lemma_stepped_by_fold_first(operation, key, vals.drop_last(), before);
        if let Some(held) = before {
            assert(call_ensures(operation, (held, &key, vals.last()), acc->0));
        }
    }
}

} // verus!
