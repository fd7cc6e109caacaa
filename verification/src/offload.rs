//! The handoff between a worker thread and the task that awaits its result.

use core::task::Waker;
use vstd::prelude::*;

use crate::wake;

verus! {

/// The task of `waker` will be notified: it is known to be the one that was
/// registered `before`, or a clone of `waker` was registered in its place.
pub open spec fn registered(before: Option<Waker>, waker: Waker, after: Option<Waker>) -> bool {
    match before {
        Some(known) => {
            ||| after == before && wake::told(known, waker, true)
            ||| after is Some && cloned::<Waker>(waker, after->0) && wake::told(known, waker, false)
        },
        None => after is Some && cloned::<Waker>(waker, after->0),
    }
}

/// No wakeup is lost: a task that found no result is registered, and the waker
/// that the result then comes with wakes it.
pub proof fn law_no_wakeup_is_lost(before: Option<Waker>, waker: Waker, after: Option<Waker>)
    requires
        registered(before, waker, after),
    ensures
        after matches Some(woken) && wake::reaches(seq![woken], waker),
{
    let woken = seq![after->0];
    assert(woken[0] == after->0);
}

/// A result that a worker hands over once, and the task that waits for it.
pub struct OneshotState<R> {
    outcome: Option<R>,
    waker: Option<Waker>,
}

impl<R> OneshotState<R> {
    /// The result, if it is there and was not taken yet.
    pub closed spec fn outcome(&self) -> Option<R> {
        self.outcome
    }

    /// The waker of the task that waits for the result.
    pub closed spec fn awaited(&self) -> Option<Waker> {
        self.waker
    }

    /// Nothing handed over, nobody waiting.
    #[must_use]
    pub fn new() -> (state: Self)
        ensures
            state.outcome() is None,
            state.awaited() is None,
    {
        OneshotState { outcome: None, waker: None }
    }

    /// Hands the result over, and returns the waker of the task that waits for
    /// it.
    pub fn complete(&mut self, outcome: R) -> (waker: Option<Waker>)
        ensures
            final(self).outcome() == Some(outcome),
            final(self).awaited() is None,
            waker == old(self).awaited(),
    {
        self.outcome = Some(outcome);
        self.waker.take()
    }

    /// Takes the finished outcome, or registers `waker` to be notified.
    pub fn take_or_register(&mut self, waker: &Waker) -> (outcome: Option<R>)
        ensures
            outcome == old(self).outcome(),
            final(self).outcome() is None,
            outcome is Some ==> final(self).awaited() == old(self).awaited(),
            outcome is None ==> registered(old(self).awaited(), *waker, final(self).awaited()),
    {
        let outcome = self.outcome.take();
        if outcome.is_none() {
            let known = match &self.waker {
                Some(current) => current.will_wake(waker),
                None => false,
            };
            if !known {
                self.waker = Some(waker.clone());
            }
        }
        outcome
    }
}

} // verus!
