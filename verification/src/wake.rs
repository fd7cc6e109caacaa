//! Wakers of suspended tasks, as opaque tokens.
//!
//! The state machines of this library decide *which* tasks are to be woken;
//! waking them is left to whoever drives the tasks.

use core::task::Waker;
use vstd::prelude::*;

verus! {

/// [`core::task::Waker`], a handle for waking a task. Nothing is assumed of
/// its contents.
#[verifier::external_type_specification]
#[verifier::external_body]
pub struct ExWaker(core::task::Waker);

/// [`core::task::Waker::will_wake`] is a best-effort test: it may deny that two
/// wakers wake the same task although they do. Nothing is assumed of its
/// answer.
pub assume_specification[ core::task::Waker::will_wake ](
    waker: &core::task::Waker,
    other: &core::task::Waker,
) -> bool
;

/// Cloning a [`core::task::Waker`] gives another handle for the same task.
/// Which task that is cannot be told from the handle, so nothing is assumed of
/// the clone.
pub assume_specification[ <core::task::Waker as Clone>::clone ](
    waker: &core::task::Waker,
) -> core::task::Waker
;

/// `known` said that it wakes the same task as `waker`, or denied it.
pub open spec fn told(known: Waker, waker: Waker, same: bool) -> bool {
    call_ensures(core::task::Waker::will_wake, (&known, &waker), same)
}

/// The task of `waker` is sure to be woken: one of `before` said that it wakes
/// the same task, or all denied it and a clone of `waker` was appended.
pub open spec fn enlisted(before: Seq<Waker>, waker: Waker, after: Seq<Waker>) -> bool {
    ||| after == before && exists|i: int|
        0 <= i < before.len() && #[trigger] told(before[i], waker, true)
    ||| {
        &&& after.len() == before.len() + 1
        &&& after.drop_last() == before
        &&& cloned::<Waker>(waker, after.last())
        &&& forall|i: int| 0 <= i < before.len() ==> #[trigger] told(before[i], waker, false)
    }
}

/// One of `wakers` wakes the task of `waker`: it said so, or is a clone.
pub open spec fn reaches(wakers: Seq<Waker>, waker: Waker) -> bool {
    exists|i: int|
        0 <= i < wakers.len() && (told(#[trigger] wakers[i], waker, true) || cloned::<Waker>(
            waker,
            wakers[i],
        ))
}

/// Wakeups cannot be lost: a task that waits is reached by those that a release
/// wakes, whichever tasks start to wait after it.
pub proof fn law_wakeups_cannot_be_lost(before: Seq<Waker>, waker: Waker, after: Seq<Waker>)
    requires
        enlisted(before, waker, after),
    ensures
        reaches(after, waker),
        forall|earlier: Waker| #[trigger] reaches(before, earlier) ==> reaches(after, earlier),
{
    if after == before {
        let i = choose|i: int|
            0 <= i < before.len() && #[trigger] told(before[i], waker, true);
        assert(told(after[i], waker, true));
    } else {
        assert(cloned::<Waker>(waker, after[after.len() - 1]));
    }
    assert forall|earlier: Waker| #[trigger] reaches(before, earlier) implies reaches(
        after,
        earlier,
    ) by {
        let i = choose|i: int|
            0 <= i < before.len() && (told(#[trigger] before[i], earlier, true) || cloned::<Waker>(
                earlier,
                before[i],
            ));
        assert(after[i] == before[i]) by {
            if after != before {
                assert(after.drop_last()[i] == after[i]);
            }
        }
    }
}

/// Adds `waker` unless one of `wakers` is known to wake the same task.
pub fn enlist(wakers: &mut Vec<Waker>, waker: &Waker)
    ensures
        enlisted(old(wakers)@, *waker, final(wakers)@),
{
    let mut i: usize = 0;
    while i < wakers.len()
        invariant
            i <= wakers@.len(),
            wakers@ == old(wakers)@,
            forall|j: int| 0 <= j < i ==> #[trigger] told(wakers@[j], *waker, false),
        decreases wakers@.len() - i,
    {
        if wakers[i].will_wake(waker) {
            assert(told(wakers@[i as int], *waker, true));
            return ;
        }
        i += 1;
    }
    let ghost before = wakers@;
    wakers.push(waker.clone());
    assert(wakers@.drop_last() =~= before);
}

/// Takes all of `wakers` out.
pub fn drain(wakers: &mut Vec<Waker>) -> (drained: Vec<Waker>)
    ensures
        drained@ == old(wakers)@,
        final(wakers)@ == Seq::<Waker>::empty(),
{
    let mut drained: Vec<Waker> = Vec::new();
    core::mem::swap(wakers, &mut drained);
    drained
}

} // verus!
