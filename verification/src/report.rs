//! Per-key outcomes of batched router operations.

use vstd::prelude::*;

use crate::error;
use crate::error::{Failure, TierFailure};

verus! {

/// What a batched read found out about one key.
#[derive(Debug, Clone, PartialEq, Eq)]
pub enum KeyStatus<V> {
    /// A tier answered with the value.
    Hit {
        /// Tier that answered.
        tier: usize,
        /// The value.
        value: V,
    },
    /// Every tier answered and none held the key.
    Miss,
    /// A failing tier left the key unresolved.
    Inconclusive,
}

impl<V> KeyStatus<V> {
    /// The value, if the key was found.
    pub open spec fn found(self) -> Option<V> {
        match self {
            KeyStatus::Hit { value, .. } => Some(value),
            _ => None,
        }
    }

    /// The value, if the key was found.
    #[must_use]
    pub fn value(&self) -> (value: Option<&V>)
        ensures
            value == match self.found() {
                Some(value) => Some(&value),
                None => None,
            },
    {
        match self {
            KeyStatus::Hit { value, .. } => Some(value),
            _ => None,
        }
    }
}

/// Outcome of a batched read: one status per key, and the tiers that failed
/// on the way.
#[derive(Debug)]
pub struct ReadReport<V, E> {
    /// One status per requested key, in the same order.
    pub statuses: Vec<KeyStatus<V>>,
    /// The tiers that failed, topmost first.
    pub failures: Vec<TierFailure<E>>,
}

impl<V, E> View for ReadReport<V, E> {
    type V = (Seq<KeyStatus<V>>, Seq<Failure<E>>);

    open spec fn view(&self) -> (Seq<KeyStatus<V>>, Seq<Failure<E>>) {
        (self.statuses@, error::failures_in(self.failures@))
    }
}

impl<V, E> ReadReport<V, E> {
    /// Whether no tier failed, so that every status is confirmed.
    #[must_use]
    pub fn is_complete(&self) -> (complete: bool)
        ensures
            complete == (self.failures@.len() == 0),
    {
        self.failures.len() == 0
    }

    /// The values alone, in key order.
    #[must_use]
    pub fn into_values(self) -> (values: Vec<Option<V>>)
        ensures
            values@ == self.statuses@.map_values(|status: KeyStatus<V>| status.found()),
    {
        let mut values: Vec<Option<V>> = Vec::with_capacity(self.statuses.len());
        let ghost all = self.statuses@;
        for status in rest: self.statuses.into_iter()
            invariant
                rest.seq() == all,
                values@ == all.take(rest.index() as int).map_values(
                    |status: KeyStatus<V>| status.found(),
                ),
        {
            let ghost index = values@.len() as int;
            values.push(
                match status {
                    KeyStatus::Hit { value, .. } => Some(value),
                    _ => None,
                },
            );
            assert(all.take(index + 1) =~= all.take(index).push(all[index]));
            assert(values@ =~= all.take(index + 1).map_values(
                |status: KeyStatus<V>| status.found(),
            ));
        }
        assert(all.take(all.len() as int) =~= all);
        values
    }
}

/// Outcome of a batched delete.
#[derive(Debug)]
pub struct DeleteReport<E> {
    /// One flag per requested key: was it present in any tier that answered?
    pub removed: Vec<bool>,
    /// The tiers that failed, topmost first.
    pub failures: Vec<TierFailure<E>>,
}

impl<E> View for DeleteReport<E> {
    type V = (Seq<bool>, Seq<Failure<E>>);

    open spec fn view(&self) -> (Seq<bool>, Seq<Failure<E>>) {
        (self.removed@, error::failures_in(self.failures@))
    }
}

impl<E> DeleteReport<E> {
    /// Whether every tier answered, so that no copy can have survived.
    #[must_use]
    pub fn is_complete(&self) -> (complete: bool)
        ensures
            complete == (self.failures@.len() == 0),
    {
        self.failures.len() == 0
    }
}

/// Only a hit has a value, and it is the value that was found.
pub proof fn law_only_hits_have_values<V>(status: KeyStatus<V>, value: V)
    ensures
        status.found() == Some(value) <==> (status matches KeyStatus::Hit { value: v, .. } && v
            == value),
        status.found() is None <==> status is Miss || status is Inconclusive,
{
}

} // verus!
