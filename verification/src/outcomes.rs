//! What the outcome of an operation tells about the tiers.
//!
//! The laws of this module hold whatever the tiers answer. They relate what the
//! caller is told, call by call, to what was asked of the tiers and to what
//! each of them answered: who is asked, in which order, what is made of every
//! single answer, and which failures are reported.

use vstd::prelude::*;

use crate::conduct;
use crate::error;
use crate::error::{Failure, Fault, RouterError};
use crate::policy::{OnReadError, OnWriteError, Promote, WriteMode};
use crate::read;
use crate::replay;
use crate::replay::{Over, Shape, Write};
use crate::report::KeyStatus;
use crate::router::Router;
use crate::stack::Event;
use crate::tier::{Call, Tier, TierRead, TierWrite};

verus! {

/// Whether tier `tier` exists and is not read-only.
pub open spec fn open_to(shape: Shape, tier: nat) -> bool {
    tier < shape.read_only.len() && !shape.read_only[tier as int]
}

/// The error with which a call was answered.
pub open spec fn error_in<K, V, E>(call: Call<K, V, E>) -> Option<E> {
    match call {
        Call::Get { found: Err(error), .. } => Some(error),
        Call::Exists { present: Err(error), .. } => Some(error),
        Call::GetMany { values: Err(error), .. } => Some(error),
        Call::Put { displaced: Err(error), .. } => Some(error),
        Call::PutMany { displaced: Err(error), .. } => Some(error),
        Call::Delete { removed: Err(error), .. } => Some(error),
        Call::DeleteMany { flags: Err(error), .. } => Some(error),
        _ => None,
    }
}

/// The failures in `trace`, in order, each with its tier and the tier's name.
pub open spec fn troubles<K, V, E>(shape: Shape, trace: Seq<Event<K, V, E>>) -> Seq<Failure<E>>
    decreases trace.len(),
{
    if trace.len() == 0 {
        Seq::empty()
    } else {
        let later = troubles(shape, trace.skip(1));
        match error_in(trace[0].call) {
            Some(source) => seq![
                Failure { tier: trace[0].tier, name: shape.names[trace[0].tier as int], source },
            ] + later,
            None => later,
        }
    }
}

/// Whether the calls of `trace` go down the tiers, each to another one.
pub open spec fn going_down<K, V, E>(trace: Seq<Event<K, V, E>>) -> bool {
    forall|i: int, j: int|
        0 <= i < j < trace.len() ==> (#[trigger] trace[i]).tier < (#[trigger] trace[j]).tier
}

/// Whether the calls of `trace` go up the tiers, each to another one.
pub open spec fn going_up<K, V, E>(trace: Seq<Event<K, V, E>>) -> bool {
    forall|i: int, j: int|
        0 <= i < j < trace.len() ==> (#[trigger] trace[i]).tier > (#[trigger] trace[j]).tier
}

/// Whether every call of `trace` is served by an open tier.
pub open spec fn only_open<K, V, E>(shape: Shape, trace: Seq<Event<K, V, E>>) -> bool {
    forall|i: int| 0 <= i < trace.len() ==> open_to(shape, (#[trigger] trace[i]).tier)
}

/// Whether tier `tier` is asked something in `trace`.
pub open spec fn asked<K, V, E>(trace: Seq<Event<K, V, E>>, tier: nat) -> bool {
    exists|i: int| 0 <= i < trace.len() && (#[trigger] trace[i]).tier == tier
}

proof fn lemma_asked_first<K, V, E>(trace: Seq<Event<K, V, E>>, tier: nat)
    requires
        trace.len() > 0,
    ensures
        asked(trace, tier) <==> trace[0].tier == tier || asked(trace.skip(1), tier),
{
    let tail = trace.skip(1);
    if asked(tail, tier) {
        let i = choose|i: int| 0 <= i < tail.len() && (#[trigger] tail[i]).tier == tier;
        assert(trace[i + 1].tier == tier);
    }
    if asked(trace, tier) && trace[0].tier != tier {
        let i = choose|i: int| 0 <= i < trace.len() && (#[trigger] trace[i]).tier == tier;
        assert(tail[i - 1].tier == tier);
    }
}

/// The calls of a removal that has come to tier `tier`.
spec fn removes<K, V, E>(shape: Shape, tier: nat, key: K, trace: Seq<Event<K, V, E>>) -> bool {
    &&& only_open(shape, trace)
    &&& going_down(trace)
    &&& forall|i: int| 0 <= i < trace.len() ==> (#[trigger] trace[i]).tier >= tier
    &&& forall|i: int|
        0 <= i < trace.len() ==> ((#[trigger] trace[i]).call matches Call::Delete { key: k, .. }
            && k == key)
    &&& forall|t: nat| tier <= t && #[trigger] open_to(shape, t) ==> asked(trace, t)
}

/// Whether one of the calls said that the key was present.
pub open spec fn said_present<K, V, E>(trace: Seq<Event<K, V, E>>) -> bool {
    exists|i: int|
        0 <= i < trace.len() && ((#[trigger] trace[i]).call matches Call::Delete {
            removed: Ok(true),
            ..
        })
}

proof fn lemma_removal<K, V, E>(
    shape: Shape,
    key: K,
    tier: nat,
    existed: bool,
    failures: Seq<Failure<E>>,
    trace: Seq<Event<K, V, E>>,
    result: Result<bool, Fault<E>>,
)
    requires
        replay::removed_from(shape, key, tier, existed, failures, trace) == Some(
            (Seq::<Event<K, V, E>>::empty(), result),
        ),
    ensures
        removes(shape, tier, key, trace),
        result == if (failures + troubles(shape, trace)).len() > 0 {
            Err::<bool, _>(Fault::Partial(failures + troubles(shape, trace)))
        } else {
            Ok(existed || said_present(trace))
        },
    decreases shape.tiers() - tier,
{
    if tier >= shape.tiers() {
        assert(failures + troubles(shape, trace) =~= failures);
    } else if !shape.writable(tier) {
        lemma_removal(shape, key, tier + 1, existed, failures, trace, result);
    } else {
        let tail = trace.skip(1);
        let answer = trace[0].call->Delete_removed;
        let present = answer == Ok::<bool, E>(true);
        let more = match answer {
            Ok(_) => failures,
            Err(source) => failures.push(shape.failure(tier, source)),
        };
        lemma_removal(shape, key, tier + 1, existed || present, more, tail, result);
        assert forall|i: int| 0 < i < trace.len() implies #[trigger] trace[i] == tail[i - 1] by {}
        assert forall|t: nat| tier <= t && #[trigger] open_to(shape, t) implies asked(trace, t) by {
            lemma_asked_first(trace, t);
        }
        if said_present(tail) {
            let i = choose|i: int|
                0 <= i < tail.len() && ((#[trigger] tail[i]).call matches Call::Delete {
                    removed: Ok(true),
                    ..
                });
            assert(trace[i + 1] == tail[i]);
        }
        assert(said_present(trace) == (present || said_present(tail)));
        assert(failures + troubles(shape, trace) =~= more + troubles(shape, tail));
    }
}

/// What a removal tells: every tier that is not read-only is asked once,
/// topmost first, to remove this key, and nothing else is asked. Where none of
/// them fails, the caller learns whether one of them had the key; otherwise
/// exactly the failures, in order.
pub proof fn law_removals_tell_what_the_tiers_said<K, V, E>(
    shape: Shape,
    key: K,
    trace: Seq<Event<K, V, E>>,
    result: Result<bool, Fault<E>>,
)
    requires
        replay::removed_from(shape, key, 0, false, Seq::empty(), trace) == Some(
            (Seq::<Event<K, V, E>>::empty(), result),
        ),
    ensures
        only_open(shape, trace),
        going_down(trace),
        forall|t: nat| #[trigger] open_to(shape, t) ==> asked(trace, t),
        forall|i: int|
            0 <= i < trace.len() ==> ((#[trigger] trace[i]).call matches Call::Delete { key: k, .. }
                && k == key),
        match result {
            Ok(existed) => troubles(shape, trace).len() == 0 && (existed <==> exists|i: int|
                0 <= i < trace.len() && (#[trigger] trace[i]).call == (Call::<K, V, E>::Delete {
                    key,
                    removed: Ok(true),
                })),
            Err(fault) => troubles(shape, trace).len() > 0 && fault == Fault::Partial(
                troubles(shape, trace),
            ),
        },
{
    lemma_removal(shape, key, 0, false, Seq::empty(), trace, result);
    assert(Seq::<Failure<E>>::empty() + troubles(shape, trace) =~= troubles(shape, trace));
    assert(said_present(trace) <==> exists|i: int|
        0 <= i < trace.len() && (#[trigger] trace[i]).call == (Call::<K, V, E>::Delete {
            key,
            removed: Ok(true),
        })) by {
        if said_present(trace) {
            let i = choose|i: int|
                0 <= i < trace.len() && ((#[trigger] trace[i]).call matches Call::Delete {
                    removed: Ok(true),
                    ..
                });
            assert(trace[i].call == (Call::<K, V, E>::Delete { key, removed: Ok(true) }));
        }
    }
}

/// Whether one of the calls removed a batch and set flag `i` in its answer.
pub open spec fn flagged<K, V, E>(trace: Seq<Event<K, V, E>>, i: int) -> bool {
    exists|n: int|
        0 <= n < trace.len() && ((#[trigger] trace[n]).call matches Call::DeleteMany {
            flags: Ok(flags),
            ..
        } && i < flags.len() && flags[i])
}

proof fn lemma_flagged_first<K, V, E>(trace: Seq<Event<K, V, E>>, i: int)
    requires
        trace.len() > 0,
    ensures
        flagged(trace, i) <==> flagged(trace.skip(1), i) || (trace[0].call matches Call::DeleteMany {
            flags: Ok(flags),
            ..
        } && i < flags.len() && flags[i]),
{
    let tail = trace.skip(1);
    if flagged(tail, i) {
        let n = choose|n: int|
            0 <= n < tail.len() && ((#[trigger] tail[n]).call matches Call::DeleteMany {
                flags: Ok(flags),
                ..
            } && i < flags.len() && flags[i]);
        assert(trace[n + 1] == tail[n]);
    }
    if flagged(trace, i) {
        let n = choose|n: int|
            0 <= n < trace.len() && ((#[trigger] trace[n]).call matches Call::DeleteMany {
                flags: Ok(flags),
                ..
            } && i < flags.len() && flags[i]);
        if n > 0 {
            assert(tail[n - 1] == trace[n]);
        }
    }
}

proof fn lemma_clearing<K, V, E>(
    shape: Shape,
    keys: Seq<K>,
    tier: nat,
    removed: Seq<bool>,
    failures: Seq<Failure<E>>,
    trace: Seq<Event<K, V, E>>,
    report: (Seq<bool>, Seq<Failure<E>>),
)
    requires
        replay::cleared_from(shape, keys, tier, removed, failures, trace) == Some(
            (Seq::<Event<K, V, E>>::empty(), report),
        ),
    ensures
        only_open(shape, trace),
        going_down(trace),
        forall|i: int| 0 <= i < trace.len() ==> (#[trigger] trace[i]).tier >= tier,
        forall|i: int|
            0 <= i < trace.len() ==> ((#[trigger] trace[i]).call matches Call::DeleteMany {
                keys: k,
                ..
            } && k == keys),
        forall|t: nat| tier <= t && #[trigger] open_to(shape, t) ==> asked(trace, t),
        report.0.len() == removed.len(),
        forall|i: int|
            0 <= i < removed.len() ==> #[trigger] report.0[i] == (removed[i] || flagged(trace, i)),
        report.1 == failures + troubles(shape, trace),
    decreases shape.tiers() - tier,
{
    if tier >= shape.tiers() {
        assert(failures + troubles(shape, trace) =~= failures);
        assert forall|i: int| 0 <= i < removed.len() implies #[trigger] report.0[i] == (removed[i]
            || flagged(trace, i)) by {
            assert(!flagged(trace, i));
        }
    } else if !shape.writable(tier) {
        lemma_clearing(shape, keys, tier + 1, removed, failures, trace, report);
    } else {
        let tail = trace.skip(1);
        let (now, more) = match trace[0].call->DeleteMany_flags {
            Ok(flags) => (replay::joined(removed, flags), failures),
            Err(source) => (removed, failures.push(shape.failure(tier, source))),
        };
        lemma_clearing(shape, keys, tier + 1, now, more, tail, report);
        assert forall|i: int| 0 < i < trace.len() implies #[trigger] trace[i] == tail[i - 1] by {}
        assert forall|t: nat| tier <= t && #[trigger] open_to(shape, t) implies asked(trace, t) by {
            lemma_asked_first(trace, t);
        }
        assert forall|i: int| 0 <= i < removed.len() implies #[trigger] report.0[i] == (removed[i]
            || flagged(trace, i)) by {
            lemma_flagged_first(trace, i);
        }
        assert(failures + troubles(shape, trace) =~= more + troubles(shape, tail));
    }
}

/// What a batched removal tells: every tier that is not read-only is asked once,
/// topmost first, to remove all of the keys, and nothing else is asked. The flag
/// of a key is set exactly where one of the tiers that answered set it, and the
/// failures are exactly those of the tiers that did not answer, in order.
pub proof fn law_removal_flags_join_all_answers<K, V, E>(
    shape: Shape,
    keys: Seq<K>,
    trace: Seq<Event<K, V, E>>,
    removed: Seq<bool>,
    failures: Seq<Failure<E>>,
)
    requires
        replay::cleared(shape, keys, trace) == Some(
            (Seq::<Event<K, V, E>>::empty(), (removed, failures)),
        ),
    ensures
        only_open(shape, trace),
        going_down(trace),
        forall|t: nat| #[trigger] open_to(shape, t) ==> asked(trace, t),
        forall|n: int|
            0 <= n < trace.len() ==> ((#[trigger] trace[n]).call matches Call::DeleteMany {
                keys: k,
                ..
            } && k == keys),
        removed.len() == keys.len(),
        forall|i: int|
            0 <= i < keys.len() ==> (#[trigger] removed[i] <==> exists|n: int|
                0 <= n < trace.len() && ((#[trigger] trace[n]).call matches Call::DeleteMany {
                    flags: Ok(flags),
                    ..
                } && i < flags.len() && flags[i])),
        failures == troubles(shape, trace),
{
    let none = Seq::new(keys.len(), |i: int| false);
    lemma_clearing(shape, keys, 0, none, Seq::empty(), trace, (removed, failures));
    assert forall|i: int| 0 <= i < keys.len() implies (#[trigger] removed[i] <==> flagged(
        trace,
        i,
    )) by {
        assert(!none[i]);
    }
    assert(failures =~= troubles(shape, trace));
}

/// Whether the calls of `trace` ask the tiers from `tier` on one after the
/// other.
pub open spec fn in_turn<K, V, E>(tier: nat, trace: Seq<Event<K, V, E>>) -> bool {
    forall|i: int| 0 <= i < trace.len() ==> (#[trigger] trace[i]).tier == tier + i
}

proof fn lemma_in_turn<K, V, E>(tier: nat, trace: Seq<Event<K, V, E>>)
    requires
        trace.len() > 0,
        trace[0].tier == tier,
        in_turn(tier + 1, trace.skip(1)),
    ensures
        in_turn(tier, trace),
{
    assert forall|i: int| 0 < i < trace.len() implies (#[trigger] trace[i]).tier == tier + i by {
        assert(trace[i] == trace.skip(1)[i - 1]);
    }
}

/// What an existence check from tier `tier` down tells.
spec fn seeks<K, V, E>(
    shape: Shape,
    key: K,
    tier: nat,
    failures: Seq<Failure<E>>,
    trace: Seq<Event<K, V, E>>,
    result: Result<bool, Fault<E>>,
) -> bool {
    let told = failures + troubles(shape, trace);
    &&& in_turn(tier, trace)
    &&& forall|i: int|
        0 <= i < trace.len() ==> ((#[trigger] trace[i]).call matches Call::Exists { key: k, .. }
            && k == key)
    &&& forall|i: int|
        0 <= i < trace.len() - 1 ==> {
            &&& (#[trigger] trace[i]).call->Exists_present != Ok::<bool, E>(true)
            &&& shape.policy.read.on_error == OnReadError::FailFast ==> trace[i].call->Exists_present
                is Ok
        }
    &&& match result {
        Ok(true) => trace.len() > 0 && trace.last().call->Exists_present == Ok::<bool, E>(true),
        Ok(false) => told.len() == 0 && tier + trace.len() == shape.read_only.len() && forall|i: int|
            0 <= i < trace.len() ==> (#[trigger] trace[i]).call->Exists_present == Ok::<bool, E>(
                false,
            ),
        Err(Fault::Tier(failure)) => shape.policy.read.on_error == OnReadError::FailFast
            && trace.len() > 0 && trace.last().call->Exists_present == Err::<bool, E>(
            failure.source,
        ) && failure.tier == trace.last().tier && failure.name
            == shape.names[trace.last().tier as int],
        Err(Fault::Inconclusive(all)) => all == told && told.len() > 0 && tier + trace.len()
            == shape.read_only.len() && forall|i: int|
            0 <= i < trace.len() ==> (#[trigger] trace[i]).call->Exists_present != Ok::<bool, E>(
                true,
            ),
        _ => false,
    }
}

proof fn lemma_seeking<K, V, E>(
    shape: Shape,
    key: K,
    tier: nat,
    failures: Seq<Failure<E>>,
    trace: Seq<Event<K, V, E>>,
    result: Result<bool, Fault<E>>,
)
    requires
        tier <= shape.tiers(),
        replay::sought_from(shape, key, tier, failures, trace) == Some(
            (Seq::<Event<K, V, E>>::empty(), result),
        ),
    ensures
        seeks(shape, key, tier, failures, trace, result),
    decreases shape.tiers() - tier,
{
    if tier >= shape.tiers() {
        assert(failures + troubles(shape, trace) =~= failures);
    } else {
        let tail = trace.skip(1);
        let answer = trace[0].call->Exists_present;
        if answer == Ok::<bool, E>(true) || (answer is Err && shape.policy.read.on_error
            == OnReadError::FailFast) {
            assert(tail.len() == 0);
        } else {
            let more = match answer {
                Ok(_) => failures,
                Err(source) => failures.push(shape.failure(tier, source)),
            };
            lemma_seeking(shape, key, tier + 1, more, tail, result);
            lemma_in_turn(tier, trace);
            assert forall|i: int| 0 < i < trace.len() implies #[trigger] trace[i] == tail[i - 1] by {
            }
            assert(failures + troubles(shape, trace) =~= more + troubles(shape, tail));
            if tail.len() > 0 {
                assert(trace.last() == tail.last());
            }
        }
    }
}

/// What an existence check tells. The tiers are asked from the top, one after
/// the other, for this key; nothing else is asked. The first that has it ends
/// the check. Only where all of them deny it is the answer no. A failing tier
/// ends the check where reads fail fast, and is named; otherwise the check goes
/// on, and if no tier has the key, exactly the failures are told.
pub proof fn law_existence_checks_tell_what_the_tiers_said<K, V, E>(
    shape: Shape,
    key: K,
    trace: Seq<Event<K, V, E>>,
    result: Result<bool, Fault<E>>,
)
    requires
        replay::sought_from(shape, key, 0, Seq::empty(), trace) == Some(
            (Seq::<Event<K, V, E>>::empty(), result),
        ),
    ensures
        forall|i: int|
            0 <= i < trace.len() ==> (#[trigger] trace[i]).tier == i && (
            trace[i].call matches Call::Exists { key: k, .. } && k == key),
        forall|i: int|
            0 <= i < trace.len() - 1 ==> {
                &&& (#[trigger] trace[i]).call->Exists_present != Ok::<bool, E>(true)
                &&& shape.policy.read.on_error == OnReadError::FailFast
                    ==> trace[i].call->Exists_present is Ok
            },
        match result {
            Ok(true) => trace.len() > 0 && trace.last().call->Exists_present == Ok::<bool, E>(true),
            Ok(false) => trace.len() == shape.read_only.len() && forall|i: int|
                0 <= i < trace.len() ==> (#[trigger] trace[i]).call->Exists_present == Ok::<
                    bool,
                    E,
                >(false),
            Err(Fault::Tier(failure)) => {
                &&& shape.policy.read.on_error == OnReadError::FailFast
                &&& trace.len() > 0
                &&& trace.last().call->Exists_present == Err::<bool, E>(failure.source)
                &&& failure.tier == trace.last().tier
                &&& failure.name == shape.names[trace.last().tier as int]
            },
            Err(Fault::Inconclusive(failures)) => {
                &&& trace.len() == shape.read_only.len()
                &&& failures == troubles(shape, trace)
                &&& failures.len() > 0
                &&& forall|i: int|
                    0 <= i < trace.len() ==> (#[trigger] trace[i]).call->Exists_present != Ok::<
                        bool,
                        E,
                    >(true)
            },
            _ => false,
        },
{
    lemma_seeking(shape, key, 0, Seq::empty(), trace, result);
    assert(Seq::<Failure<E>>::empty() + troubles(shape, trace) =~= troubles(shape, trace));
}

/// Whether `call` inserts a copy of the entry of `key` and `value`.
pub open spec fn inserts<K: Clone, V: Clone, E>(call: Call<K, V, E>, key: K, value: V) -> bool {
    match call {
        Call::Put { key: k, value: v, .. } => cloned(key, k) && cloned(value, v),
        Call::PutMany { entries, .. } => exists|slot: int|
            0 <= slot < entries.len() && cloned(key, (#[trigger] entries[slot]).0) && cloned(
                value,
                entries[slot].1,
            ),
        _ => false,
    }
}

/// Whether tier `tier` is offered a copy of the entry of `key` and `value` by a
/// call of `trace` from number `from` on.
pub open spec fn offered<K: Clone, V: Clone, E>(
    trace: Seq<Event<K, V, E>>,
    from: int,
    tier: nat,
    key: K,
    value: V,
) -> bool {
    exists|i: int|
        from <= i < trace.len() && (#[trigger] trace[i]).tier == tier && inserts(
            trace[i].call,
            key,
            value,
        )
}

/// Offers in a part of a trace are offers in all of it.
proof fn lemma_offered_part<K: Clone, V: Clone, E>(
    part: Seq<Event<K, V, E>>,
    trace: Seq<Event<K, V, E>>,
    from: int,
    shift: int,
    tier: nat,
    key: K,
    value: V,
)
    requires
        offered(part, from, tier, key, value),
        0 <= from,
        0 <= shift,
        part.len() + shift <= trace.len(),
        forall|i: int| 0 <= i < part.len() ==> #[trigger] part[i] == trace[i + shift],
    ensures
        offered(trace, from + shift, tier, key, value),
{
    let i = choose|i: int|
        from <= i < part.len() && (#[trigger] part[i]).tier == tier && inserts(
            part[i].call,
            key,
            value,
        );
    assert(trace[i + shift] == part[i]);
}

/// The entries that `call` displaced.
pub open spec fn pushed_out<K, V, E>(call: Call<K, V, E>) -> Seq<(K, V)> {
    match call {
        Call::Put { displaced: Ok(displaced), .. } => displaced,
        Call::PutMany { displaced: Ok(displaced), .. } => displaced,
        _ => Seq::empty(),
    }
}

/// Whether tier `below` is the first open one below tier `tier`.
pub open spec fn next_open(shape: Shape, tier: nat, below: nat) -> bool {
    &&& tier < below
    &&& open_to(shape, below)
    &&& forall|t: nat| tier < t < below ==> !#[trigger] open_to(shape, t)
}

/// Whether everything that a call of `trace` displaces is offered, later on, to
/// the first open tier below.
pub open spec fn rolls_over<K: Clone, V: Clone, E>(
    shape: Shape,
    trace: Seq<Event<K, V, E>>,
) -> bool {
    forall|i: int, j: int, below: nat|
        0 <= i < trace.len() && 0 <= j < pushed_out(trace[i].call).len() && #[trigger] next_open(
            shape,
            trace[i].tier,
            below,
        ) ==> offered(
            trace,
            i + 1,
            below,
            (#[trigger] pushed_out(trace[i].call)[j]).0,
            pushed_out(trace[i].call)[j].1,
        )
}

/// Whether `call` inserts exactly the entry of `key` and `value`.
pub open spec fn carries<K, V, E>(call: Call<K, V, E>, key: K, value: V) -> bool {
    match call {
        Call::Put { key: k, value: v, .. } => k == key && v == value,
        Call::PutMany { entries, .. } => entries.contains((key, value)),
        _ => false,
    }
}

/// Whether `entry` is one of `own`, or was displaced by one of the first `n`
/// calls of `trace`.
pub open spec fn known<K, V, E>(
    trace: Seq<Event<K, V, E>>,
    n: int,
    own: Seq<(K, V)>,
    entry: (K, V),
) -> bool {
    ||| own.contains(entry)
    ||| exists|j: int| 0 <= j < n && pushed_out((#[trigger] trace[j]).call).contains(entry)
}

/// Whether `key` and `value` are copies of an entry that is `known`.
pub open spec fn copied_from<K: Clone, V: Clone, E>(
    trace: Seq<Event<K, V, E>>,
    n: int,
    own: Seq<(K, V)>,
    key: K,
    value: V,
) -> bool {
    exists|entry: (K, V)| #[trigger]
        known(trace, n, own, entry) && cloned(entry.0, key) && cloned(entry.1, value)
}

/// Whether nothing is made up: all that the calls of `trace` insert are copies
/// of `own`, or of what an earlier call displaced.
pub open spec fn nothing_made_up<K: Clone, V: Clone, E>(
    trace: Seq<Event<K, V, E>>,
    own: Seq<(K, V)>,
) -> bool {
    forall|n: int, key: K, value: V|
        0 <= n < trace.len() && #[trigger] carries(trace[n].call, key, value) ==> copied_from(
            trace,
            n,
            own,
            key,
            value,
        )
}

/// Whether `trace` only inserts, into open tiers, and makes nothing up.
spec fn moves<K: Clone, V: Clone, E>(
    shape: Shape,
    own: Seq<(K, V)>,
    trace: Seq<Event<K, V, E>>,
) -> bool {
    &&& only_open(shape, trace)
    &&& forall|i: int|
        0 <= i < trace.len() ==> (#[trigger] trace[i]).call is Put || trace[i].call is PutMany
    &&& nothing_made_up(trace, own)
}

/// Whether all of `entries` are known once `trace` is over.
pub open spec fn all_known<K, V, E>(
    trace: Seq<Event<K, V, E>>,
    own: Seq<(K, V)>,
    entries: Seq<(K, V)>,
) -> bool {
    forall|entry: (K, V)| #[trigger]
        entries.contains(entry) ==> known(trace, trace.len() as int, own, entry)
}

proof fn lemma_known_join<K, V, E>(
    a: Seq<Event<K, V, E>>,
    b: Seq<Event<K, V, E>>,
    own: Seq<(K, V)>,
    mid: Seq<(K, V)>,
    n: int,
    entry: (K, V),
)
    requires
        all_known(a, own, mid),
        0 <= n <= b.len(),
        known(b, n, mid, entry),
    ensures
        known(a + b, a.len() + n, own, entry),
{
    let all = a + b;
    if mid.contains(entry) {
        assert(known(a, a.len() as int, own, entry));
        if !own.contains(entry) {
            let j = choose|j: int|
                0 <= j < a.len() && pushed_out((#[trigger] a[j]).call).contains(entry);
            assert(all[j] == a[j]);
        }
    } else {
        let j = choose|j: int| 0 <= j < n && pushed_out((#[trigger] b[j]).call).contains(entry);
        assert(all[a.len() + j] == b[j]);
    }
}

proof fn lemma_all_known_join<K, V, E>(
    a: Seq<Event<K, V, E>>,
    b: Seq<Event<K, V, E>>,
    own: Seq<(K, V)>,
    mid: Seq<(K, V)>,
    entries: Seq<(K, V)>,
)
    requires
        all_known(a, own, mid),
        all_known(b, mid, entries),
    ensures
        all_known(a + b, own, entries),
{
    assert forall|entry: (K, V)| #[trigger] entries.contains(entry) implies known(
        a + b,
        (a + b).len() as int,
        own,
        entry,
    ) by {
        lemma_known_join(a, b, own, mid, b.len() as int, entry);
    }
}

proof fn lemma_moves_join<K: Clone, V: Clone, E>(
    shape: Shape,
    a: Seq<Event<K, V, E>>,
    b: Seq<Event<K, V, E>>,
    own: Seq<(K, V)>,
    mid: Seq<(K, V)>,
)
    requires
        moves(shape, own, a),
        moves(shape, mid, b),
        all_known(a, own, mid),
    ensures
        moves(shape, own, a + b),
{
    let all = a + b;
    assert forall|i: int| 0 <= i < all.len() implies (#[trigger] all[i] == a[i] && i < a.len())
        || all[i] == b[i - a.len()] by {}
    assert forall|n: int, key: K, value: V|
        0 <= n < all.len() && #[trigger] carries(all[n].call, key, value) implies copied_from(
        all,
        n,
        own,
        key,
        value,
    ) by {
        if n < a.len() {
            assert(all[n] == a[n]);
            assert(carries(a[n].call, key, value));
            let entry = choose|entry: (K, V)| #[trigger]
                known(a, n, own, entry) && cloned(entry.0, key) && cloned(entry.1, value);
            if !own.contains(entry) {
                let j = choose|j: int|
                    0 <= j < n && pushed_out((#[trigger] a[j]).call).contains(entry);
                assert(all[j] == a[j]);
            }
            assert(known(all, n, own, entry));
        } else {
            let m = n - a.len();
            assert(all[n] == b[m]);
            assert(carries(b[m].call, key, value));
            let entry = choose|entry: (K, V)| #[trigger]
                known(b, m, mid, entry) && cloned(entry.0, key) && cloned(entry.1, value);
            lemma_known_join(a, b, own, mid, m, entry);
            assert(known(all, n, own, entry));
        }
    }
}

/// Whether what `a` displaces is offered below in `a` itself or in `b`.
spec fn hands_over<K: Clone, V: Clone, E>(
    shape: Shape,
    a: Seq<Event<K, V, E>>,
    b: Seq<Event<K, V, E>>,
) -> bool {
    forall|i: int, j: int, below: nat|
        0 <= i < a.len() && 0 <= j < pushed_out(a[i].call).len() && #[trigger] next_open(
            shape,
            a[i].tier,
            below,
        ) ==> {
            let entry = #[trigger] pushed_out(a[i].call)[j];
            offered(a, i + 1, below, entry.0, entry.1) || offered(b, 0, below, entry.0, entry.1)
        }
}

proof fn lemma_rolls_join<K: Clone, V: Clone, E>(
    shape: Shape,
    a: Seq<Event<K, V, E>>,
    b: Seq<Event<K, V, E>>,
)
    requires
        hands_over(shape, a, b),
        rolls_over(shape, b),
    ensures
        rolls_over(shape, a + b),
{
    let all = a + b;
    assert forall|i: int, j: int, below: nat|
        0 <= i < all.len() && 0 <= j < pushed_out(all[i].call).len() && #[trigger] next_open(
            shape,
            all[i].tier,
            below,
        ) implies offered(
        all,
        i + 1,
        below,
        (#[trigger] pushed_out(all[i].call)[j]).0,
        pushed_out(all[i].call)[j].1,
    ) by {
        let entry = pushed_out(all[i].call)[j];
        if i < a.len() {
            assert(all[i] == a[i]);
            assert(next_open(shape, a[i].tier, below));
            assert(pushed_out(a[i].call)[j] == entry);
            if offered(a, i + 1, below, entry.0, entry.1) {
                lemma_offered_part(a, all, i + 1, 0, below, entry.0, entry.1);
            } else {
                lemma_offered_part(b, all, 0, a.len() as int, below, entry.0, entry.1);
                let k = choose|k: int|
                    a.len() <= k < all.len() && (#[trigger] all[k]).tier == below && inserts(
                        all[k].call,
                        entry.0,
                        entry.1,
                    );
                assert(all[k].tier == below);
            }
        } else {
            let m = i - a.len();
            assert(all[i] == b[m]);
            assert(next_open(shape, b[m].tier, below));
            assert(pushed_out(b[m].call)[j] == entry);
            lemma_offered_part(b, all, m + 1, a.len() as int, below, entry.0, entry.1);
        }
    }
}

/// Whether call number `n` of `trace` hands one entry down: it inserts, alone, a
/// copy of an entry that an earlier call displaced from a tier above.
pub open spec fn rolled<K: Clone, V: Clone, E>(trace: Seq<Event<K, V, E>>, n: int) -> bool {
    &&& trace[n].call matches Call::Put { key, value, .. }
    &&& exists|j: int, entry: (K, V)|
        0 <= j < n && #[trigger] pushed_out(trace[j].call).contains(entry) && trace[j].tier
            < trace[n].tier && cloned(entry.0, key) && cloned(entry.1, value)
}

/// Whether `call` inserts, alone, a copy of one of `entries`.
spec fn copies_one<K: Clone, V: Clone, E>(entries: Seq<(K, V)>, call: Call<K, V, E>) -> bool {
    &&& call matches Call::Put { key, value, .. }
    &&& exists|entry: (K, V)| #[trigger]
        entries.contains(entry) && cloned(entry.0, key) && cloned(entry.1, value)
}

proof fn lemma_rolled_front<K: Clone, V: Clone, E>(
    a: Seq<Event<K, V, E>>,
    b: Seq<Event<K, V, E>>,
    n: int,
)
    requires
        0 <= n < a.len(),
        rolled(a, n),
    ensures
        rolled(a + b, n),
{
    let key = a[n].call->Put_key;
    let value = a[n].call->Put_value;
    let (j, entry) = choose|j: int, entry: (K, V)|
        0 <= j < n && #[trigger] pushed_out(a[j].call).contains(entry) && a[j].tier < a[n].tier
            && cloned(entry.0, key) && cloned(entry.1, value);
    assert((a + b)[n] == a[n]);
    assert((a + b)[j] == a[j]);
    assert(pushed_out((a + b)[j].call).contains(entry));
}

proof fn lemma_rolled_back<K: Clone, V: Clone, E>(
    a: Seq<Event<K, V, E>>,
    b: Seq<Event<K, V, E>>,
    n: int,
)
    requires
        0 <= n < b.len(),
        rolled(b, n),
    ensures
        rolled(a + b, a.len() + n),
{
    let key = b[n].call->Put_key;
    let value = b[n].call->Put_value;
    let (j, entry) = choose|j: int, entry: (K, V)|
        0 <= j < n && #[trigger] pushed_out(b[j].call).contains(entry) && b[j].tier < b[n].tier
            && cloned(entry.0, key) && cloned(entry.1, value);
    assert((a + b)[a.len() + n] == b[n]);
    assert((a + b)[a.len() + j] == b[j]);
    assert(pushed_out((a + b)[a.len() + j].call).contains(entry));
}

/// A copy of what an earlier call displaced from a tier above is rolled over.
proof fn lemma_copy_rolled<K: Clone, V: Clone, E>(
    trace: Seq<Event<K, V, E>>,
    entries: Seq<(K, V)>,
    upto: int,
    n: int,
)
    requires
        0 <= upto <= n < trace.len(),
        copies_one(entries, trace[n].call),
        forall|entry: (K, V)| #[trigger]
            entries.contains(entry) ==> exists|j: int|
                0 <= j < upto && pushed_out((#[trigger] trace[j]).call).contains(entry)
                    && trace[j].tier < trace[n].tier,
    ensures
        rolled(trace, n),
{
    let key = trace[n].call->Put_key;
    let value = trace[n].call->Put_value;
    let entry = choose|entry: (K, V)| #[trigger]
        entries.contains(entry) && cloned(entry.0, key) && cloned(entry.1, value);
    let j = choose|j: int|
        0 <= j < upto && pushed_out((#[trigger] trace[j]).call).contains(entry) && trace[j].tier
            < trace[n].tier;
    assert(pushed_out(trace[j].call).contains(entry));
}

/// Whether every call of `trace` hands on `write` to a tier from `low` up to
/// `end`, or, where `demote` says so, hands one displaced entry down.
#[verifier::opaque]
spec fn placed_or_rolled<K: Clone, V: Clone, E>(
    write: Write<K, V>,
    low: nat,
    end: nat,
    demote: bool,
    trace: Seq<Event<K, V, E>>,
) -> bool {
    forall|i: int|
        0 <= i < trace.len() ==> (demote && rolled(trace, i)) || (low <= (#[trigger] trace[i]).tier
            < end && hands_on(write, trace[i].call))
}

proof fn lemma_placed_join<K: Clone, V: Clone, E>(
    write: Write<K, V>,
    low: nat,
    end: nat,
    demote: bool,
    a: Seq<Event<K, V, E>>,
    b: Seq<Event<K, V, E>>,
    inner_low: nat,
    inner_end: nat,
)
    requires
        a.len() > 0,
        low <= a[0].tier < end,
        hands_on(write, a[0].call),
        !demote ==> a.len() == 1,
        forall|i: int| 0 < i < a.len() ==> #[trigger] rolled(a, i),
        low <= inner_low,
        inner_end <= end,
        placed_or_rolled(write, inner_low, inner_end, demote, b),
    ensures
        placed_or_rolled(write, low, end, demote, a + b),
{
    let trace = a + b;
    assert forall|i: int| 0 <= i < trace.len() implies (demote && rolled(trace, i)) || (low <= (
    #[trigger] trace[i]).tier < end && hands_on(write, trace[i].call)) by {
        if i == 0 {
            assert(trace[0] == a[0]);
        } else if i < a.len() {
            assert(rolled(a, i));
            lemma_rolled_front(a, b, i);
        } else {
            let m = i - a.len();
            assert(trace[i] == b[m]);
            assert((demote && rolled(b, m)) || (inner_low <= b[m].tier < inner_end && hands_on(
                write,
                b[m].call,
            ))) by {
                reveal(placed_or_rolled);
            }
            if demote && rolled(b, m) {
                lemma_rolled_back(a, b, m);
            }
        }
    }
    assert(placed_or_rolled(write, low, end, demote, trace)) by {
        reveal(placed_or_rolled);
    }
}

/// The calls that pour `entries` into tier `target`: one for each, in order.
proof fn lemma_pouring<K: Clone, V: Clone, E>(
    shape: Shape,
    target: nat,
    entries: Seq<(K, V)>,
    over: Over<K, V>,
    trace: Seq<Event<K, V, E>>,
) -> (part: Seq<Event<K, V, E>>)
    requires
        open_to(shape, target),
        replay::poured(target, entries, over, trace) is Some,
    ensures
        ({
            let (rest, out) = replay::poured(target, entries, over, trace)->0;
            &&& trace == part + rest
            &&& part.len() == entries.len()
            &&& moves(shape, entries, part)
            &&& forall|i: int|
                0 <= i < part.len() ==> {
                    &&& (#[trigger] part[i]).tier == target
                    &&& part[i].call is Put
                    &&& inserts(part[i].call, entries[i].0, entries[i].1)
                }
            &&& forall|entry: (K, V)| #[trigger]
                out.displaced.contains(entry) <==> over.displaced.contains(entry) || exists|i: int|
                    0 <= i < part.len() && pushed_out((#[trigger] part[i]).call).contains(entry)
            &&& forall|entry: (K, V)| #[trigger]
                out.refused.contains(entry) <==> over.refused.contains(entry) || exists|i: int|
                    0 <= i < part.len() && error_in((#[trigger] part[i]).call) is Some && entries[i]
                        == entry
        }),
    decreases entries.len(),
{
    if entries.len() == 0 {
        let part = Seq::<Event<K, V, E>>::empty();
        assert(part + trace =~= trace);
        part
    } else {
        let event = trace[0];
        let answer = event.call->Put_displaced;
        let more = over.after(entries[0], answer);
        let later = lemma_pouring(shape, target, entries.skip(1), more, trace.skip(1));
        let (rest, out) = replay::poured(target, entries, over, trace)->0;
        let part = seq![event] + later;
        assert(trace.skip(1) == later + rest);
        assert(trace =~= seq![event] + trace.skip(1));
        assert(trace =~= part + rest);
        assert forall|i: int| 0 <= i < part.len() implies {
            &&& (#[trigger] part[i]).tier == target
            &&& part[i].call is Put
            &&& inserts(part[i].call, entries[i].0, entries[i].1)
        } by {
            if i > 0 {
                assert(part[i] == later[i - 1]);
                assert(entries[i] == entries.skip(1)[i - 1]);
            }
        }
        assert forall|n: int, key: K, value: V|
            0 <= n < part.len() && #[trigger] carries(part[n].call, key, value) implies copied_from(
            part,
            n,
            entries,
            key,
            value,
        ) by {
            assert(part[n].tier == target);
            assert(entries.contains(entries[n]));
            assert(known(part, n, entries, entries[n]));
        }
        assert forall|entry: (K, V)| #[trigger]
            out.displaced.contains(entry) <==> over.displaced.contains(entry) || exists|i: int|
                0 <= i < part.len() && pushed_out((#[trigger] part[i]).call).contains(entry) by {
            assert(more.displaced.contains(entry) <==> over.displaced.contains(entry) || pushed_out(
                event.call,
            ).contains(entry)) by {
                match answer {
                    Ok(displaced) => {
                        lemma_concat_contains(over.displaced, displaced, entry);
                    },
                    Err(_) => {},
                }
            }
            if exists|i: int|
                0 <= i < later.len() && pushed_out((#[trigger] later[i]).call).contains(entry) {
                let i = choose|i: int|
                    0 <= i < later.len() && pushed_out((#[trigger] later[i]).call).contains(entry);
                assert(part[i + 1] == later[i]);
            }
            if exists|i: int|
                0 <= i < part.len() && pushed_out((#[trigger] part[i]).call).contains(entry) {
                let i = choose|i: int|
                    0 <= i < part.len() && pushed_out((#[trigger] part[i]).call).contains(entry);
                if i > 0 {
                    assert(later[i - 1] == part[i]);
                }
            }
            if pushed_out(event.call).contains(entry) {
                assert(part[0] == event);
            }
        }
        assert forall|entry: (K, V)| #[trigger]
            out.refused.contains(entry) <==> over.refused.contains(entry) || exists|i: int|
                0 <= i < part.len() && error_in((#[trigger] part[i]).call) is Some && entries[i]
                    == entry by {
            let rest_entries = entries.skip(1);
            assert(more.refused.contains(entry) <==> over.refused.contains(entry) || (error_in(
                event.call,
            ) is Some && entries[0] == entry)) by {
                match answer {
                    Ok(_) => {},
                    Err(_) => {
                        vstd::seq_lib::lemma_seq_contains_after_push(
                            over.refused,
                            entries[0],
                            entry,
                        );
                    },
                }
            }
            if exists|i: int|
                0 <= i < later.len() && error_in((#[trigger] later[i]).call) is Some
                    && rest_entries[i] == entry {
                let i = choose|i: int|
                    0 <= i < later.len() && error_in((#[trigger] later[i]).call) is Some
                        && rest_entries[i] == entry;
                assert(part[i + 1] == later[i]);
            }
            if exists|i: int|
                0 <= i < part.len() && error_in((#[trigger] part[i]).call) is Some && entries[i]
                    == entry {
                let i = choose|i: int|
                    0 <= i < part.len() && error_in((#[trigger] part[i]).call) is Some && entries[i]
                        == entry;
                if i > 0 {
                    assert(later[i - 1] == part[i]);
                    assert(rest_entries[i - 1] == entry);
                } else {
                    assert(part[0] == event);
                }
            }
            if error_in(event.call) is Some && entries[0] == entry {
                assert(part[0] == event);
            }
        }
        part
    }
}

proof fn lemma_concat_contains<A>(a: Seq<A>, b: Seq<A>, item: A)
    ensures
        (a + b).contains(item) <==> a.contains(item) || b.contains(item),
{
    let all = a + b;
    if a.contains(item) {
        assert(all[a.index_of(item)] == item);
    }
    if b.contains(item) {
        assert(all[a.len() + b.index_of(item)] == item);
    }
    if all.contains(item) {
        let i = all.index_of(item);
        if i < a.len() {
            assert(a[i] == item);
        } else {
            assert(b[i - a.len()] == item);
        }
    }
}

/// The calls that demote `entries` into the tiers from `target` down.
proof fn lemma_demoting<K: Clone, V: Clone, E>(
    shape: Shape,
    target: nat,
    entries: Seq<(K, V)>,
    trace: Seq<Event<K, V, E>>,
) -> (part: Seq<Event<K, V, E>>)
    requires
        replay::demoted(shape, target, entries, trace) is Some,
    ensures
        ({
            let (rest, out) = replay::demoted(shape, target, entries, trace)->0;
            &&& trace == part + rest
            &&& moves(shape, entries, part)
            &&& rolls_over(shape, part)
            &&& all_known(part, entries, out)
            &&& forall|i: int|
                0 <= i < part.len() ==> (#[trigger] part[i]).tier >= target && part[i].call is Put
            &&& forall|i: int|
                0 <= i < part.len() ==> copies_one(entries, (#[trigger] part[i]).call) || rolled(
                    part,
                    i,
                )
            &&& forall|j: int, below: nat|
                0 <= j < entries.len() && target <= below && open_to(shape, below) && (forall|
                    t: nat,
                |
                    target <= t < below ==> !#[trigger] open_to(shape, t)) ==> #[trigger] offered(
                    part,
                    0,
                    below,
                    entries[j].0,
                    entries[j].1,
                )
        }),
    decreases shape.tiers() - target,
{
    if target >= shape.tiers() || entries.len() == 0 {
        let part = Seq::<Event<K, V, E>>::empty();
        assert(part + trace =~= trace);
        part
    } else if !shape.writable(target) {
        let part = lemma_demoting(shape, target + 1, entries, trace);
        assert forall|j: int, below: nat|
            0 <= j < entries.len() && target <= below && open_to(shape, below) && (forall|t: nat|
                target <= t < below ==> !#[trigger] open_to(shape, t)) implies #[trigger] offered(
            part,
            0,
            below,
            entries[j].0,
            entries[j].1,
        ) by {
            assert(target < below);
            assert(forall|t: nat| target + 1 <= t < below ==> !#[trigger] open_to(shape, t));
        }
        part
    } else {
        let none = Over::<K, V>::none();
        let (mid, over) = replay::poured(target, entries, none, trace)->0;
        let a = lemma_pouring(shape, target, entries, none, trace);
        let b = lemma_demoting(shape, target + 1, over.displaced, mid);
        let (rest, fallen) = replay::demoted(shape, target + 1, over.displaced, mid)->0;
        let part = a + b;
        let out = over.refused + fallen;
        assert(mid == b + rest);
        assert(trace =~= part + rest);
        assert forall|entry: (K, V)| #[trigger] over.displaced.contains(entry) implies known(
            a,
            a.len() as int,
            entries,
            entry,
        ) by {
            assert(!none.displaced.contains(entry));
        }
        lemma_moves_join(shape, a, b, entries, over.displaced);
        lemma_all_known_join(a, b, entries, over.displaced, fallen);
        assert forall|entry: (K, V)| #[trigger] out.contains(entry) implies known(
            part,
            part.len() as int,
            entries,
            entry,
        ) by {
            lemma_concat_contains(over.refused, fallen, entry);
            if over.refused.contains(entry) {
                assert(!none.refused.contains(entry));
                let i = choose|i: int|
                    0 <= i < a.len() && error_in((#[trigger] a[i]).call) is Some && entries[i]
                        == entry;
                assert(entries.contains(entry));
            }
        }
        assert forall|i: int, j: int, below: nat|
            0 <= i < a.len() && 0 <= j < pushed_out(a[i].call).len() && #[trigger] next_open(
                shape,
                a[i].tier,
                below,
            ) implies {
            let entry = #[trigger] pushed_out(a[i].call)[j];
            offered(a, i + 1, below, entry.0, entry.1) || offered(b, 0, below, entry.0, entry.1)
        } by {
            let entry = pushed_out(a[i].call)[j];
            assert(pushed_out(a[i].call).contains(entry));
            assert(over.displaced.contains(entry));
            let k = over.displaced.index_of(entry);
            assert(a[i].tier == target);
            assert(forall|t: nat| target + 1 <= t < below ==> !#[trigger] open_to(shape, t));
            assert(offered(b, 0, below, over.displaced[k].0, over.displaced[k].1));
        }
        lemma_rolls_join(shape, a, b);
        assert forall|i: int| 0 <= i < part.len() implies (#[trigger] part[i]).tier >= target
            && part[i].call is Put by {
            if i < a.len() {
                assert(part[i] == a[i]);
            } else {
                assert(part[i] == b[i - a.len()]);
            }
        }
        assert forall|i: int| 0 <= i < part.len() implies copies_one(
            entries,
            (#[trigger] part[i]).call,
        ) || rolled(part, i) by {
            if i < a.len() {
                assert(part[i] == a[i]);
                assert(entries.contains(entries[i]));
                assert(copies_one(entries, part[i].call));
            } else {
                let m = i - a.len();
                assert(part[i] == b[m]);
                if rolled(b, m) {
                    lemma_rolled_back(a, b, m);
                } else {
                    assert(copies_one(over.displaced, b[m].call));
                    assert forall|entry: (K, V)| #[trigger]
                        over.displaced.contains(entry) implies exists|j: int|
                        0 <= j < a.len() && pushed_out((#[trigger] part[j]).call).contains(entry)
                            && part[j].tier < part[i].tier by {
                        assert(!none.displaced.contains(entry));
                        let j = choose|j: int|
                            0 <= j < a.len() && pushed_out((#[trigger] a[j]).call).contains(entry);
                        assert(part[j] == a[j]);
                    }
                    lemma_copy_rolled(part, over.displaced, a.len() as int, i);
                }
            }
        }
        assert forall|j: int, below: nat|
            0 <= j < entries.len() && target <= below && open_to(shape, below) && (forall|t: nat|
                target <= t < below ==> !#[trigger] open_to(shape, t)) implies #[trigger] offered(
            part,
            0,
            below,
            entries[j].0,
            entries[j].1,
        ) by {
            assert(open_to(shape, target));
            assert(below == target);
            assert(part[j] == a[j]);
        }
        part
    }
}

/// The entries that `write` is about.
pub open spec fn carried<K, V>(write: Write<K, V>) -> Seq<(K, V)> {
    match write {
        Write::One { key, value } => seq![(key, value)],
        Write::Many { entries } => entries,
    }
}

/// Whether `call` inserts copies of exactly the entries of `write`: one alone as
/// one, a batch as a batch, in order.
pub open spec fn hands_on<K: Clone, V: Clone, E>(write: Write<K, V>, call: Call<K, V, E>) -> bool {
    match (write, call) {
        (Write::One { key, value }, Call::Put { key: k, value: v, .. }) => cloned(key, k) && cloned(
            value,
            v,
        ),
        (Write::Many { entries }, Call::PutMany { entries: copies, .. }) => {
            &&& copies.len() == entries.len()
            &&& forall|i: int|
                0 <= i < entries.len() ==> cloned((#[trigger] entries[i]).0, copies[i].0) && cloned(
                    entries[i].1,
                    copies[i].1,
                )
        },
        _ => false,
    }
}

/// Whether tier `tier` is handed copies of `write` by a call of `trace`.
pub open spec fn handed<K: Clone, V: Clone, E>(
    trace: Seq<Event<K, V, E>>,
    tier: nat,
    write: Write<K, V>,
) -> bool {
    exists|i: int|
        0 <= i < trace.len() && (#[trigger] trace[i]).tier == tier && hands_on(write, trace[i].call)
}

proof fn lemma_handed_part<K: Clone, V: Clone, E>(
    part: Seq<Event<K, V, E>>,
    trace: Seq<Event<K, V, E>>,
    shift: int,
    tier: nat,
    write: Write<K, V>,
)
    requires
        handed(part, tier, write),
        0 <= shift,
        part.len() + shift <= trace.len(),
        forall|i: int| 0 <= i < part.len() ==> #[trigger] part[i] == trace[i + shift],
    ensures
        handed(trace, tier, write),
{
    let i = choose|i: int|
        0 <= i < part.len() && (#[trigger] part[i]).tier == tier && hands_on(write, part[i].call);
    assert(trace[i + shift] == part[i]);
}

/// A tier that is handed a write is offered each of its entries.
proof fn lemma_handed_offers<K: Clone, V: Clone, E>(
    trace: Seq<Event<K, V, E>>,
    tier: nat,
    write: Write<K, V>,
    j: int,
)
    requires
        handed(trace, tier, write),
        0 <= j < carried(write).len(),
    ensures
        offered(trace, 0, tier, carried(write)[j].0, carried(write)[j].1),
{
    let i = choose|i: int|
        0 <= i < trace.len() && (#[trigger] trace[i]).tier == tier && hands_on(
            write,
            trace[i].call,
        );
    let (key, value) = carried(write)[j];
    match trace[i].call {
        Call::PutMany { entries, .. } => {
            assert(cloned(key, entries[j].0) && cloned(value, entries[j].1));
        },
        _ => {},
    }
    assert(inserts(trace[i].call, key, value));
}

proof fn lemma_direct<K: Clone, V: Clone, E>(
    shape: Shape,
    write: Write<K, V>,
    event: Event<K, V, E>,
)
    requires
        open_to(shape, event.tier),
        replay::accepted(write, event.call) is Some,
    ensures
        hands_on(write, event.call),
        moves(shape, carried(write), seq![event]),
        pushed_out(event.call) == (match replay::accepted(write, event.call)->0 {
            Ok(displaced) => displaced,
            Err(_) => Seq::empty(),
        }),
        error_in(event.call) == (match replay::accepted(write, event.call)->0 {
            Ok(_) => None,
            Err(source) => Some(source),
        }),
{
    let one = seq![event];
    let own = carried(write);
    assert forall|n: int, key: K, value: V|
        0 <= n < one.len() && #[trigger] carries(one[n].call, key, value) implies copied_from(
        one,
        n,
        own,
        key,
        value,
    ) by {
        match event.call {
            Call::PutMany { entries, .. } => {
                let slot = entries.index_of((key, value));
                assert(own.contains(own[slot]));
                assert(known(one, n, own, own[slot]));
            },
            _ => {
                assert(own.contains(own[0]));
                assert(known(one, n, own, own[0]));
            },
        }
    }
}

/// The calls with which `event`, which hands on `write`, begins: it and the
/// demotion of what it displaced.
proof fn lemma_direct_and_demoted<K: Clone, V: Clone, E>(
    shape: Shape,
    write: Write<K, V>,
    event: Event<K, V, E>,
    trace: Seq<Event<K, V, E>>,
) -> (part: Seq<Event<K, V, E>>)
    requires
        open_to(shape, event.tier),
        replay::accepted(write, event.call) is Some,
        replay::demoted(shape, event.tier + 1, pushed_out(event.call), trace) is Some,
    ensures
        ({
            let (rest, out) = replay::demoted(
                shape,
                event.tier + 1,
                pushed_out(event.call),
                trace,
            )->0;
            &&& seq![event] + trace == part + rest
            &&& part.len() > 0
            &&& part[0] == event
            &&& moves(shape, carried(write), part)
            &&& rolls_over(shape, part)
            &&& all_known(part, carried(write), out)
            &&& forall|i: int| 0 < i < part.len() ==> #[trigger] rolled(part, i)
            &&& forall|entry: (K, V)| #[trigger]
                out.contains(entry) ==> exists|j: int|
                    0 <= j < part.len() && pushed_out((#[trigger] part[j]).call).contains(entry)
        }),
{
    let displaced = pushed_out(event.call);
    let a = seq![event];
    let b = lemma_demoting(shape, event.tier + 1, displaced, trace);
    let (rest, out) = replay::demoted(shape, event.tier + 1, displaced, trace)->0;
    let part = a + b;
    lemma_direct(shape, write, event);
    assert(seq![event] + trace =~= part + rest);
    assert forall|entry: (K, V)| #[trigger] displaced.contains(entry) implies known(
        a,
        a.len() as int,
        carried(write),
        entry,
    ) by {
        assert(pushed_out(a[0].call).contains(entry));
    }
    lemma_moves_join(shape, a, b, carried(write), displaced);
    lemma_all_known_join(a, b, carried(write), displaced, out);
    assert forall|i: int, j: int, below: nat|
        0 <= i < a.len() && 0 <= j < pushed_out(a[i].call).len() && #[trigger] next_open(
            shape,
            a[i].tier,
            below,
        ) implies {
        let entry = #[trigger] pushed_out(a[i].call)[j];
        offered(a, i + 1, below, entry.0, entry.1) || offered(b, 0, below, entry.0, entry.1)
    } by {
        assert(forall|t: nat| event.tier + 1 <= t < below ==> !#[trigger] open_to(shape, t));
        assert(offered(b, 0, below, displaced[j].0, displaced[j].1));
    }
    lemma_rolls_join(shape, a, b);
    assert forall|i: int| 0 < i < part.len() implies #[trigger] rolled(part, i) by {
        let m = i - 1;
        assert(part[i] == b[m]);
        if rolled(b, m) {
            lemma_rolled_back(a, b, m);
        } else {
            assert forall|entry: (K, V)| #[trigger] displaced.contains(entry) implies exists|j: int|
                0 <= j < 1 && pushed_out((#[trigger] part[j]).call).contains(entry) && part[j].tier
                    < part[i].tier by {
                assert(part[0] == event);
            }
            lemma_copy_rolled(part, displaced, 1, i);
        }
    }
    assert forall|entry: (K, V)| #[trigger] out.contains(entry) implies exists|j: int|
        0 <= j < part.len() && pushed_out((#[trigger] part[j]).call).contains(entry) by {
        assert(known(b, b.len() as int, displaced, entry));
        if displaced.contains(entry) {
            assert(part[0] == event);
        } else {
            let j = choose|j: int|
                0 <= j < b.len() && pushed_out((#[trigger] b[j]).call).contains(entry);
            assert(part[j + 1] == b[j]);
        }
    }
    part
}

/// Whether the calls of `trace` hand on `write` to tiers from `from` up to (not
/// including) `end`, one after the other, and do nothing else.
spec fn only_hands_on<K: Clone, V: Clone, E>(
    from: nat,
    end: nat,
    write: Write<K, V>,
    trace: Seq<Event<K, V, E>>,
) -> bool {
    &&& going_down(trace)
    &&& forall|i: int|
        0 <= i < trace.len() ==> from <= (#[trigger] trace[i]).tier < end && hands_on(
            write,
            trace[i].call,
        )
}

/// The calls that copy `write` into the tiers from `target` up to (not
/// including) `end`.
proof fn lemma_filling<K: Clone, V: Clone, E>(
    shape: Shape,
    write: Write<K, V>,
    target: nat,
    end: nat,
    trace: Seq<Event<K, V, E>>,
) -> (part: Seq<Event<K, V, E>>)
    requires
        replay::filled(shape, write, target, end, trace) is Some,
    ensures
        ({
            let rest = replay::filled(shape, write, target, end, trace)->0;
            &&& trace == part + rest
            &&& moves(shape, carried(write), part)
            &&& shape.policy.demote_displaced ==> rolls_over(shape, part)
            &&& !shape.policy.demote_displaced ==> only_hands_on(target, end, write, part)
            &&& placed_or_rolled(write, target, end, shape.policy.demote_displaced, part)
            &&& forall|u: nat|
                target <= u < end && #[trigger] open_to(shape, u) ==> handed(part, u, write)
        }),
    decreases end - target,
{
    if target >= end {
        let part = Seq::<Event<K, V, E>>::empty();
        assert(part + trace =~= trace);
        reveal(placed_or_rolled);
        part
    } else if !shape.writable(target) {
        let part = lemma_filling(shape, write, target + 1, end, trace);
        reveal(placed_or_rolled);
        part
    } else {
        let own = carried(write);
        let event = trace[0];
        lemma_direct(shape, write, event);
        let displaced = pushed_out(event.call);
        let demotes = shape.policy.demote_displaced && displaced.len() > 0;
        let a = if demotes {
            lemma_direct_and_demoted(shape, write, event, trace.skip(1))
        } else {
            seq![event]
        };
        let mid = if demotes {
            (replay::demoted(shape, target + 1, displaced, trace.skip(1))->0).0
        } else {
            trace.skip(1)
        };
        assert(trace =~= seq![event] + trace.skip(1));
        let b = lemma_filling(shape, write, target + 1, end, mid);
        let rest = replay::filled(shape, write, target, end, trace)->0;
        let part = a + b;
        assert(mid == b + rest);
        assert(trace =~= part + rest);
        assert(all_known(a, own, own));
        lemma_moves_join(shape, a, b, own, own);
        if shape.policy.demote_displaced {
            if !demotes {
                assert forall|i: int, j: int, below: nat|
                    0 <= i < a.len() && 0 <= j < pushed_out(a[i].call).len() && #[trigger] next_open(
                        shape,
                        a[i].tier,
                        below,
                    ) implies {
                    let entry = #[trigger] pushed_out(a[i].call)[j];
                    offered(a, i + 1, below, entry.0, entry.1) || offered(
                        b,
                        0,
                        below,
                        entry.0,
                        entry.1,
                    )
                } by {
                    assert(a[i] == event);
                }
            } else {
                assert forall|i: int, j: int, below: nat|
                    0 <= i < a.len() && 0 <= j < pushed_out(a[i].call).len() && #[trigger] next_open(
                        shape,
                        a[i].tier,
                        below,
                    ) implies {
                    let entry = #[trigger] pushed_out(a[i].call)[j];
                    offered(a, i + 1, below, entry.0, entry.1) || offered(
                        b,
                        0,
                        below,
                        entry.0,
                        entry.1,
                    )
                } by {
                    let entry = pushed_out(a[i].call)[j];
                    assert(offered(a, i + 1, below, entry.0, entry.1));
                }
            }
            lemma_rolls_join(shape, a, b);
        } else {
            assert forall|i: int| 0 < i < part.len() implies #[trigger] part[i] == b[i - 1] by {}
            assert(part[0] == event);
        }
        lemma_placed_join(
            write,
            target,
            end,
            shape.policy.demote_displaced,
            a,
            b,
            target + 1,
            end,
        );
        assert forall|u: nat| target <= u < end && #[trigger] open_to(shape, u) implies handed(
            part,
            u,
            write,
        ) by {
            if u == target {
                assert(part[0] == event);
            } else {
                lemma_handed_part(b, part, a.len() as int, u, write);
            }
        }
        part
    }
}

/// What is done with `write` once it was found in tier `hit`. Nothing, if the
/// policy does not promote or it was found at the top. Otherwise every open tier
/// above is handed a copy, or the topmost one alone, as the policy says; what
/// that displaces rolls over into the tiers below, if the policy says so, and
/// else no other call is made.
pub open spec fn promoted<K: Clone, V: Clone, E>(
    shape: Shape,
    write: Write<K, V>,
    hit: nat,
    trace: Seq<Event<K, V, E>>,
) -> bool {
    &&& only_open(shape, trace)
    &&& forall|i: int|
        0 <= i < trace.len() ==> (#[trigger] trace[i]).call is Put || trace[i].call is PutMany
    &&& nothing_made_up(trace, carried(write))
    &&& shape.policy.read.promote == Promote::Never || hit == 0 ==> trace.len() == 0
    &&& shape.policy.read.promote == Promote::AllAbove ==> forall|u: nat|
        u < hit && #[trigger] open_to(shape, u) ==> handed(trace, u, write)
    &&& shape.policy.read.promote == Promote::TopOnly && hit > 0 && open_to(shape, 0) ==> handed(
        trace,
        0,
        write,
    )
    &&& shape.policy.demote_displaced ==> rolls_over(shape, trace)
    &&& !shape.policy.demote_displaced ==> {
        &&& going_down(trace)
        &&& forall|i: int| 0 <= i < trace.len() ==> hands_on(write, (#[trigger] trace[i]).call)
    }
    &&& forall|i: int|
        0 <= i < trace.len() ==> (shape.policy.demote_displaced && rolled(trace, i)) || {
            &&& (#[trigger] trace[i]).tier < hit
            &&& hands_on(write, trace[i].call)
            &&& shape.policy.read.promote == Promote::TopOnly ==> trace[i].tier == 0
        }
}

proof fn lemma_promoting<K: Clone, V: Clone, E>(
    shape: Shape,
    write: Write<K, V>,
    hit: nat,
    trace: Seq<Event<K, V, E>>,
) -> (part: Seq<Event<K, V, E>>)
    requires
        replay::filled(shape, write, 0, read::promotions(shape.policy.read, hit), trace) is Some,
    ensures
        ({
            let end = read::promotions(shape.policy.read, hit);
            trace == part + replay::filled(shape, write, 0, end, trace)->0
        }),
        promoted(shape, write, hit, part),
{
    let end = read::promotions(shape.policy.read, hit);
    let part = lemma_filling(shape, write, 0, end, trace);
    reveal(placed_or_rolled);
    if end == 0 {
        assert(part.len() == 0) by {
            let rest = replay::filled(shape, write, 0, end, trace)->0;
            assert(rest == trace);
            assert((part + rest).len() == rest.len());
        }
    }
    part
}

/// What a read tells that has come to tier `tier`, past the tiers that failed as
/// `failures` say. The first `probes` calls of `trace` ask for the key.
spec fn reads<K: Clone, V: Clone, E>(
    shape: Shape,
    key: K,
    tier: nat,
    failures: Seq<Failure<E>>,
    trace: Seq<Event<K, V, E>>,
    found: Result<Option<V>, Fault<E>>,
    probes: int,
) -> bool {
    let asking = trace.take(probes);
    let told = failures + troubles(shape, asking);
    &&& 0 <= probes <= trace.len()
    &&& in_turn(tier, asking)
    &&& forall|i: int|
        0 <= i < probes ==> ((#[trigger] asking[i]).call matches Call::Get { key: k, .. } && k
            == key)
    &&& forall|i: int|
        0 <= i < probes - 1 ==> {
            &&& !((#[trigger] asking[i]).call->Get_found matches Ok(Some(_)))
            &&& shape.policy.read.on_error == OnReadError::FailFast ==> asking[i].call->Get_found
                is Ok
        }
    &&& match found {
        Ok(Some(value)) => {
            &&& probes > 0
            &&& asking.last().call->Get_found == Ok::<Option<V>, E>(Some(value))
            &&& promoted(
                shape,
                Write::One { key, value },
                (tier + probes - 1) as nat,
                trace.skip(probes),
            )
        },
        Ok(None) => {
            &&& probes == trace.len()
            &&& tier + probes == shape.read_only.len()
            &&& told.len() == 0
            &&& forall|i: int|
                0 <= i < probes ==> (#[trigger] asking[i]).call->Get_found == Ok::<Option<V>, E>(
                    None,
                )
        },
        Err(Fault::Tier(failure)) => {
            &&& shape.policy.read.on_error == OnReadError::FailFast
            &&& probes == trace.len()
            &&& probes > 0
            &&& asking.last().call->Get_found == Err::<Option<V>, E>(failure.source)
            &&& failure.tier == asking.last().tier
            &&& failure.name == shape.names[failure.tier as int]
        },
        Err(Fault::Inconclusive(all)) => {
            &&& probes == trace.len()
            &&& tier + probes == shape.read_only.len()
            &&& all == told
            &&& told.len() > 0
            &&& forall|i: int|
                0 <= i < probes ==> !((#[trigger] asking[i]).call->Get_found matches Ok(Some(_)))
        },
        _ => false,
    }
}

proof fn lemma_reading<K: Clone, V: Clone, E>(
    shape: Shape,
    key: K,
    tier: nat,
    failures: Seq<Failure<E>>,
    trace: Seq<Event<K, V, E>>,
    found: Result<Option<V>, Fault<E>>,
) -> (probes: int)
    requires
        tier <= shape.tiers(),
        replay::read_from(shape, key, tier, failures, trace) == Some(
            (Seq::<Event<K, V, E>>::empty(), found),
        ),
    ensures
        reads(shape, key, tier, failures, trace, found, probes),
    decreases shape.tiers() - tier,
{
    if tier >= shape.tiers() {
        assert(failures + troubles(shape, trace.take(0)) =~= failures);
        0
    } else {
        let tail = trace.skip(1);
        let answer = trace[0].call->Get_found;
        match answer {
            Ok(Some(value)) => {
                let write = Write::One { key, value };
                let part = lemma_promoting(shape, write, tier, tail);
                assert(part =~= tail);
                1
            },
            _ => {
                if answer is Err && shape.policy.read.on_error == OnReadError::FailFast {
                    assert(tail.len() == 0);
                    1
                } else {
                    let more = match answer {
                        Ok(_) => failures,
                        Err(source) => failures.push(shape.failure(tier, source)),
                    };
                    let after = lemma_reading(shape, key, tier + 1, more, tail, found);
                    let probes = after + 1;
                    let asking = trace.take(probes);
                    assert(asking.skip(1) =~= tail.take(after));
                    lemma_in_turn(tier, asking);
                    assert forall|i: int| 0 < i < asking.len() implies #[trigger] asking[i]
                        == tail.take(after)[i - 1] by {}
                    assert(failures + troubles(shape, asking) =~= more + troubles(
                        shape,
                        tail.take(after),
                    ));
                    assert(trace.skip(probes) =~= tail.skip(after));
                    if after > 0 {
                        assert(asking.last() == tail.take(after).last());
                    }
                    probes
                }
            },
        }
    }
}

/// What a read tells. The tiers are asked from the top, one after the other, for
/// this key, by the first `probes` calls. The first value found ends the asking;
/// it is what the caller gets, and it is promoted. Only where all tiers deny the
/// key is it missing. A failing tier ends the read where reads fail fast, and is
/// named; otherwise the read goes on, and if no tier has the key, exactly the
/// failures are told. Where nothing is found, nothing else is done.
pub proof fn law_reads_tell_what_the_tiers_said<K: Clone, V: Clone, E>(
    shape: Shape,
    key: K,
    trace: Seq<Event<K, V, E>>,
    found: Result<Option<V>, Fault<E>>,
) -> (probes: int)
    requires
        replay::read_from(shape, key, 0, Seq::empty(), trace) == Some(
            (Seq::<Event<K, V, E>>::empty(), found),
        ),
    ensures
        0 <= probes <= trace.len(),
        forall|i: int|
            0 <= i < probes ==> (#[trigger] trace[i]).tier == i && (trace[i].call matches Call::Get {
                key: k,
                ..
            } && k == key),
        forall|i: int|
            0 <= i < probes - 1 ==> {
                &&& !((#[trigger] trace[i]).call->Get_found matches Ok(Some(_)))
                &&& shape.policy.read.on_error == OnReadError::FailFast ==> trace[i].call->Get_found
                    is Ok
            },
        match found {
            Ok(Some(value)) => {
                &&& probes > 0
                &&& trace[probes - 1].call->Get_found == Ok::<Option<V>, E>(Some(value))
                &&& promoted(
                    shape,
                    Write::One { key, value },
                    (probes - 1) as nat,
                    trace.skip(probes),
                )
            },
            Ok(None) => {
                &&& probes == trace.len() == shape.read_only.len()
                &&& forall|i: int|
                    0 <= i < probes ==> (#[trigger] trace[i]).call->Get_found == Ok::<
                        Option<V>,
                        E,
                    >(None)
            },
            Err(Fault::Tier(failure)) => {
                &&& shape.policy.read.on_error == OnReadError::FailFast
                &&& probes == trace.len()
                &&& probes > 0
                &&& trace[probes - 1].call->Get_found == Err::<Option<V>, E>(failure.source)
                &&& failure.tier == probes - 1
                &&& failure.name == shape.names[probes - 1]
            },
            Err(Fault::Inconclusive(failures)) => {
                &&& probes == trace.len() == shape.read_only.len()
                &&& failures == troubles(shape, trace)
                &&& failures.len() > 0
                &&& forall|i: int|
                    0 <= i < probes ==> !((#[trigger] trace[i]).call->Get_found matches Ok(Some(_)))
            },
            _ => false,
        },
{
    let probes = lemma_reading(shape, key, 0, Seq::empty(), trace, found);
    let asking = trace.take(probes);
    assert(Seq::<Failure<E>>::empty() + troubles(shape, asking) =~= troubles(shape, asking));
    assert forall|i: int| 0 <= i < probes implies #[trigger] trace[i] == asking[i] by {}
    if probes == trace.len() {
        assert(asking =~= trace);
    }
    probes
}

/// The entries among the first `count` keys that were found below the top.
pub open spec fn finds<K, V>(keys: Seq<K>, statuses: Seq<KeyStatus<V>>, count: nat) -> Seq<(K, V)>
    decreases count,
{
    if count == 0 {
        Seq::empty()
    } else {
        let before = finds(keys, statuses, (count - 1) as nat);
        match statuses[count - 1] {
            KeyStatus::Hit { tier, value } => if tier > 0 {
                before.push((keys[count - 1], value))
            } else {
                before
            },
            _ => before,
        }
    }
}

proof fn lemma_finds<K, V>(keys: Seq<K>, statuses: Seq<KeyStatus<V>>, count: nat, i: int)
    requires
        0 <= i < count,
        statuses[i] matches KeyStatus::Hit { tier, .. } && tier > 0,
    ensures
        finds(keys, statuses, count).contains((keys[i], statuses[i]->value)),
    decreases count,
{
    let before = finds(keys, statuses, (count - 1) as nat);
    let all = finds(keys, statuses, count);
    if i == count - 1 {
        assert(all[before.len() as int] == (keys[i], statuses[i]->value));
    } else {
        lemma_finds(keys, statuses, (count - 1) as nat, i);
        let entry = (keys[i], statuses[i]->value);
        assert(all[before.index_of(entry)] == entry);
    }
}

/// The entries that tier `tier` answered for are those with its number.
proof fn lemma_hits<K, V>(keys: Seq<K>, statuses: Seq<KeyStatus<V>>, tier: nat, count: nat)
    ensures
        forall|j: int|
            0 <= j < replay::hits_of(keys, statuses, tier, count).len() ==> exists|i: int|
                0 <= i < count && #[trigger] statuses[i] is Hit && statuses[i]->tier == tier
                    && #[trigger] replay::hits_of(keys, statuses, tier, count)[j] == (
                    keys[i],
                    statuses[i]->value,
                ),
        forall|i: int|
            0 <= i < count && #[trigger] statuses[i] is Hit && statuses[i]->tier == tier
                ==> replay::hits_of(keys, statuses, tier, count).contains(
                (keys[i], statuses[i]->value),
            ),
    decreases count,
{
    if count > 0 {
        lemma_hits(keys, statuses, tier, (count - 1) as nat);
        let before = replay::hits_of(keys, statuses, tier, (count - 1) as nat);
        let all = replay::hits_of(keys, statuses, tier, count);
        let last = count - 1;
        let hit = statuses[last] is Hit && statuses[last]->tier == tier;
        assert forall|j: int| 0 <= j < all.len() implies exists|i: int|
            0 <= i < count && #[trigger] statuses[i] is Hit && statuses[i]->tier == tier
                && #[trigger] all[j] == (keys[i], statuses[i]->value) by {
            if j < before.len() {
                assert(all[j] == before[j]);
                let i = choose|i: int|
                    0 <= i < last && #[trigger] statuses[i] is Hit && statuses[i]->tier == tier
                        && before[j] == (keys[i], statuses[i]->value);
                assert(statuses[i] is Hit);
            } else {
                assert(hit);
                assert(statuses[last] is Hit);
            }
        }
        assert forall|i: int|
            0 <= i < count && #[trigger] statuses[i] is Hit && statuses[i]->tier
                == tier implies all.contains((keys[i], statuses[i]->value)) by {
            let entry = (keys[i], statuses[i]->value);
            if i < last {
                assert(before.contains(entry));
                assert(all[before.index_of(entry)] == entry);
            } else {
                assert(all[before.len() as int] == entry);
            }
        }
    }
}

/// Whether `key` and `value` are copies of what was found below tier `above`.
pub open spec fn found_below<K: Clone, V: Clone>(
    keys: Seq<K>,
    statuses: Seq<KeyStatus<V>>,
    above: nat,
    key: K,
    value: V,
) -> bool {
    exists|i: int|
        0 <= i < keys.len() && #[trigger] statuses[i] is Hit && statuses[i]->tier > above && cloned(
            keys[i],
            key,
        ) && cloned(statuses[i]->value, value)
}

/// What is done with what a batched read found in the tiers from `from` down.
/// Nothing, if the policy does not promote. Otherwise every open tier above the
/// one where a key was found is offered a copy of its entry, or the topmost one
/// alone, as the policy says; what that displaces rolls over into the tiers
/// below, if the policy says so, and else no other call is made.
pub open spec fn promoted_batch<K: Clone, V: Clone, E>(
    shape: Shape,
    keys: Seq<K>,
    statuses: Seq<KeyStatus<V>>,
    from: nat,
    trace: Seq<Event<K, V, E>>,
) -> bool {
    &&& only_open(shape, trace)
    &&& forall|i: int|
        0 <= i < trace.len() ==> (#[trigger] trace[i]).call is Put || trace[i].call is PutMany
    &&& nothing_made_up(trace, finds(keys, statuses, keys.len()))
    &&& shape.policy.read.promote == Promote::Never ==> trace.len() == 0
    &&& shape.policy.read.promote == Promote::AllAbove ==> forall|i: int, u: nat|
        0 <= i < keys.len() && #[trigger] statuses[i] is Hit && from <= statuses[i]->tier
            < shape.read_only.len() && u < statuses[i]->tier && #[trigger] open_to(shape, u)
            ==> offered(trace, 0, u, keys[i], statuses[i]->value)
    &&& shape.policy.read.promote == Promote::TopOnly && open_to(shape, 0) ==> forall|i: int|
        0 <= i < keys.len() && #[trigger] statuses[i] is Hit && from <= statuses[i]->tier
            < shape.read_only.len() && 0 < statuses[i]->tier ==> offered(
            trace,
            0,
            0,
            keys[i],
            statuses[i]->value,
        )
    &&& shape.policy.demote_displaced ==> rolls_over(shape, trace)
    &&& forall|n: int|
        0 <= n < trace.len() ==> (shape.policy.demote_displaced && rolled(trace, n)) || {
            &&& (#[trigger] trace[n]).call is PutMany
            &&& shape.policy.read.promote == Promote::TopOnly ==> trace[n].tier == 0
        }
    &&& forall|n: int, key: K, value: V|
        0 <= n < trace.len() && trace[n].call is PutMany && #[trigger] carries(
            trace[n].call,
            key,
            value,
        ) ==> found_below(keys, statuses, trace[n].tier, key, value)
}

proof fn lemma_batch_promoting<K: Clone, V: Clone, E>(
    shape: Shape,
    keys: Seq<K>,
    statuses: Seq<KeyStatus<V>>,
    tier: nat,
    trace: Seq<Event<K, V, E>>,
) -> (part: Seq<Event<K, V, E>>)
    requires
        tier > 0,
        replay::promoted_from(shape, keys, statuses, tier, trace) is Some,
    ensures
        trace == part + replay::promoted_from(shape, keys, statuses, tier, trace)->0,
        promoted_batch(shape, keys, statuses, tier, part),
    decreases shape.tiers() - tier,
{
    if tier >= shape.tiers() || shape.policy.read.promote == Promote::Never {
        let part = Seq::<Event<K, V, E>>::empty();
        assert(part + trace =~= trace);
        part
    } else {
        let entries = replay::hits_of(keys, statuses, tier, keys.len());
        lemma_hits(keys, statuses, tier, keys.len());
        if entries.len() == 0 {
            let part = lemma_batch_promoting(shape, keys, statuses, tier + 1, trace);
            assert forall|i: int|
                0 <= i < keys.len() && #[trigger] statuses[i] is Hit implies statuses[i]->tier
                != tier by {
                if statuses[i]->tier == tier {
                    assert(entries.contains((keys[i], statuses[i]->value)));
                }
            }
            part
        } else {
            let own = finds(keys, statuses, keys.len());
            let write = Write::Many { entries };
            let end = read::promotions(shape.policy.read, tier);
            let mid = replay::filled(shape, write, 0, end, trace)->0;
            let a = lemma_promoting(shape, write, tier, trace);
            let b = lemma_batch_promoting(shape, keys, statuses, tier + 1, mid);
            let rest = replay::promoted_from(shape, keys, statuses, tier + 1, mid)->0;
            let part = a + b;
            assert(trace =~= part + rest);
            assert forall|entry: (K, V)| #[trigger] entries.contains(entry) implies own.contains(
                entry,
            ) by {
                let j = entries.index_of(entry);
                let i = choose|i: int|
                    0 <= i < keys.len() && #[trigger] statuses[i] is Hit && statuses[i]->tier
                        == tier && entries[j] == (keys[i], statuses[i]->value);
                lemma_finds(keys, statuses, keys.len(), i);
            }
            let none = Seq::<Event<K, V, E>>::empty();
            assert(moves(shape, own, none));
            assert(all_known(none, own, entries)) by {
                assert forall|entry: (K, V)| #[trigger] entries.contains(entry) implies known(
                    none,
                    0,
                    own,
                    entry,
                ) by {}
            }
            lemma_moves_join(shape, none, a, own, entries);
            assert(none + a =~= a);
            assert(all_known(a, own, own));
            lemma_moves_join(shape, a, b, own, own);
            assert forall|i: int| 0 <= i < part.len() implies (#[trigger] part[i] == a[i] && i
                < a.len()) || part[i] == b[i - a.len()] by {}
            assert forall|i: int, u: nat|
                0 <= i < keys.len() && #[trigger] statuses[i] is Hit && tier <= statuses[i]->tier
                    < shape.read_only.len() && #[trigger] open_to(shape, u) && (if statuses[i]->tier
                    == tier {
                    handed(a, u, write)
                } else {
                    offered(b, 0, u, keys[i], statuses[i]->value)
                }) implies offered(part, 0, u, keys[i], statuses[i]->value) by {
                let entry = (keys[i], statuses[i]->value);
                if statuses[i]->tier == tier {
                    assert(entries.contains(entry));
                    lemma_handed_offers(a, u, write, entries.index_of(entry));
                    lemma_offered_part(a, part, 0, 0, u, entry.0, entry.1);
                } else {
                    lemma_offered_part(b, part, 0, a.len() as int, u, entry.0, entry.1);
                    let k = choose|k: int|
                        a.len() <= k < part.len() && (#[trigger] part[k]).tier == u && inserts(
                            part[k].call,
                            entry.0,
                            entry.1,
                        );
                    assert(part[k].tier == u);
                }
            }
            if shape.policy.demote_displaced {
                assert forall|i: int, j: int, below: nat|
                    0 <= i < a.len() && 0 <= j < pushed_out(a[i].call).len() && #[trigger] next_open(
                        shape,
                        a[i].tier,
                        below,
                    ) implies {
                    let entry = #[trigger] pushed_out(a[i].call)[j];
                    offered(a, i + 1, below, entry.0, entry.1) || offered(
                        b,
                        0,
                        below,
                        entry.0,
                        entry.1,
                    )
                } by {
                    let entry = pushed_out(a[i].call)[j];
                    assert(offered(a, i + 1, below, entry.0, entry.1));
                }
                lemma_rolls_join(shape, a, b);
            }
            assert forall|n: int| 0 <= n < part.len() implies (shape.policy.demote_displaced
                && rolled(part, n)) || {
                &&& (#[trigger] part[n]).call is PutMany
                &&& shape.policy.read.promote == Promote::TopOnly ==> part[n].tier == 0
            } by {
                if n < a.len() {
                    assert(part[n] == a[n]);
                    if rolled(a, n) {
                        lemma_rolled_front(a, b, n);
                    }
                } else {
                    let m = n - a.len();
                    assert(part[n] == b[m]);
                    if rolled(b, m) {
                        lemma_rolled_back(a, b, m);
                    }
                }
            }
            assert forall|n: int, key: K, value: V|
                0 <= n < part.len() && part[n].call is PutMany && #[trigger] carries(
                    part[n].call,
                    key,
                    value,
                ) implies found_below(keys, statuses, part[n].tier, key, value) by {
                if n < a.len() {
                    assert(part[n] == a[n]);
                    assert(hands_on(write, a[n].call));
                    let copies = a[n].call->PutMany_entries;
                    let slot = copies.index_of((key, value));
                    assert(cloned(entries[slot].0, key) && cloned(entries[slot].1, value));
                    let i = choose|i: int|
                        0 <= i < keys.len() && #[trigger] statuses[i] is Hit && statuses[i]->tier
                            == tier && entries[slot] == (keys[i], statuses[i]->value);
                    assert(statuses[i] is Hit);
                } else {
                    assert(part[n] == b[n - a.len()]);
                    assert(carries(b[n - a.len()].call, key, value));
                }
            }
            part
        }
    }
}

/// What a batched read tells that has come to tier `tier`.
spec fn gathers<K: Clone, V: Clone, E>(
    shape: Shape,
    keys: Seq<K>,
    tier: nat,
    failures: Seq<Failure<E>>,
    trace: Seq<Event<K, V, E>>,
    result: Result<replay::Gathered<V, E>, Fault<E>>,
    probes: int,
) -> bool {
    let asking = trace.take(probes);
    &&& 0 <= probes <= trace.len()
    &&& in_turn(tier, asking)
    &&& forall|i: int| 0 <= i < probes ==> (#[trigger] asking[i]).call is GetMany
    &&& shape.policy.read.on_error == OnReadError::FailFast ==> forall|i: int|
        0 <= i < probes - 1 ==> (#[trigger] asking[i]).call->GetMany_values is Ok
    &&& match result {
        Ok((statuses, told)) => {
            &&& told == failures + troubles(shape, asking)
            &&& shape.policy.read.on_error == OnReadError::FailFast ==> forall|i: int|
                0 <= i < probes ==> (#[trigger] asking[i]).call->GetMany_values is Ok
            &&& promoted_batch(shape, keys, statuses, 1, trace.skip(probes))
        },
        Err(Fault::Tier(failure)) => {
            &&& shape.policy.read.on_error == OnReadError::FailFast
            &&& probes == trace.len()
            &&& probes > 0
            &&& asking.last().call->GetMany_values == Err::<Seq<Option<V>>, E>(failure.source)
            &&& failure.tier == asking.last().tier
            &&& failure.name == shape.names[failure.tier as int]
        },
        _ => false,
    }
}

proof fn lemma_gathering<K: Clone, V: Clone, E>(
    shape: Shape,
    keys: Seq<K>,
    tier: nat,
    statuses: Seq<KeyStatus<V>>,
    unresolved: Seq<usize>,
    failures: Seq<Failure<E>>,
    trace: Seq<Event<K, V, E>>,
    result: Result<replay::Gathered<V, E>, Fault<E>>,
) -> (probes: int)
    requires
        replay::gathered_from(shape, keys, tier, statuses, unresolved, failures, trace) == Some(
            (Seq::<Event<K, V, E>>::empty(), result),
        ),
    ensures
        gathers(shape, keys, tier, failures, trace, result, probes),
    decreases shape.tiers() - tier,
{
    if tier >= shape.tiers() || unresolved.len() == 0 {
        let known = replay::concluded(statuses, unresolved, failures);
        let part = lemma_batch_promoting(shape, keys, known, 1, trace);
        assert(part =~= trace);
        assert(trace.skip(0) =~= trace);
        assert(failures + troubles(shape, trace.take(0)) =~= failures);
        0
    } else {
        let tail = trace.skip(1);
        let answer = trace[0].call->GetMany_values;
        if answer is Err && shape.policy.read.on_error == OnReadError::FailFast {
            assert(tail.len() == 0);
            1
        } else {
            let (now, missing, more) = match answer {
                Ok(found) => {
                    let count = if found.len() < unresolved.len() {
                        found.len()
                    } else {
                        unresolved.len()
                    };
                    let (now, missing) = replay::resolved(statuses, unresolved, found, tier, count);
                    (now, missing, failures)
                },
                Err(source) => (statuses, unresolved, failures.push(shape.failure(tier, source))),
            };
            let after = lemma_gathering(
                shape,
                keys,
                tier + 1,
                now,
                missing,
                more,
                tail,
                result,
            );
            let probes = after + 1;
            let asking = trace.take(probes);
            assert(asking.skip(1) =~= tail.take(after));
            lemma_in_turn(tier, asking);
            assert forall|i: int| 0 < i < asking.len() implies #[trigger] asking[i] == tail.take(
                after,
            )[i - 1] by {}
            assert(failures + troubles(shape, asking) =~= more + troubles(shape, tail.take(after)));
            assert(trace.skip(probes) =~= tail.skip(after));
            if after > 0 {
                assert(asking.last() == tail.take(after).last());
            }
            probes
        }
    }
}

/// What a batched read tells of its failures, and what it does with what it
/// found. The tiers are asked from the top, one after the other, by the first
/// `probes` calls. A failing tier ends the read where reads fail fast, and is
/// named; otherwise exactly the failures are told. What was found below the top
/// is promoted.
pub proof fn law_batched_reads_promote_what_they_find<K: Clone, V: Clone, E>(
    shape: Shape,
    keys: Seq<K>,
    trace: Seq<Event<K, V, E>>,
    result: Result<replay::Gathered<V, E>, Fault<E>>,
) -> (probes: int)
    requires
        replay::gathered(shape, keys, trace) == Some((Seq::<Event<K, V, E>>::empty(), result)),
    ensures
        0 <= probes <= trace.len(),
        forall|i: int|
            0 <= i < probes ==> (#[trigger] trace[i]).tier == i && trace[i].call is GetMany,
        match result {
            Ok((statuses, failures)) => {
                &&& failures == troubles(shape, trace.take(probes))
                &&& shape.policy.read.on_error == OnReadError::FailFast ==> failures.len() == 0
                &&& promoted_batch(shape, keys, statuses, 1, trace.skip(probes))
            },
            Err(Fault::Tier(failure)) => {
                &&& shape.policy.read.on_error == OnReadError::FailFast
                &&& probes == trace.len()
                &&& probes > 0
                &&& trace[probes - 1].call->GetMany_values == Err::<Seq<Option<V>>, E>(
                    failure.source,
                )
                &&& failure.tier == probes - 1
                &&& failure.name == shape.names[probes - 1]
                &&& forall|i: int|
                    0 <= i < probes - 1 ==> (#[trigger] trace[i]).call->GetMany_values is Ok
            },
            _ => false,
        },
{
    let none = Seq::new(keys.len(), |i: int| KeyStatus::Miss);
    let all = Seq::new(keys.len(), |i: int| i as usize);
    let probes = lemma_gathering(shape, keys, 0, none, all, Seq::empty(), trace, result);
    let asking = trace.take(probes);
    assert forall|i: int| 0 <= i < probes implies #[trigger] trace[i] == asking[i] by {}
    assert(Seq::<Failure<E>>::empty() + troubles(shape, asking) =~= troubles(shape, asking));
    if shape.policy.read.on_error == OnReadError::FailFast && result is Ok {
        lemma_no_troubles(shape, asking);
    }
    probes
}

/// Where no call fails, there is nothing to tell.
pub proof fn lemma_no_troubles<K, V, E>(shape: Shape, trace: Seq<Event<K, V, E>>)
    requires
        forall|i: int| 0 <= i < trace.len() ==> error_in((#[trigger] trace[i]).call) is None,
    ensures
        troubles(shape, trace).len() == 0,
    decreases trace.len(),
{
    if trace.len() > 0 {
        let tail = trace.skip(1);
        assert forall|i: int| 0 <= i < tail.len() implies error_in((#[trigger] tail[i]).call)
            is None by {
            assert(tail[i] == trace[i + 1]);
        }
        lemma_no_troubles(shape, tail);
    }
}

/// All that the calls of `trace` displaced, in order.
pub open spec fn all_pushed_out<K, V, E>(trace: Seq<Event<K, V, E>>) -> Seq<(K, V)>
    decreases trace.len(),
{
    if trace.len() == 0 {
        Seq::empty()
    } else {
        pushed_out(trace[0].call) + all_pushed_out(trace.skip(1))
    }
}

/// Whether tier `tier` is handed copies of `write` by a call of `trace`, and
/// accepts them.
pub open spec fn took<K: Clone, V: Clone, E>(
    trace: Seq<Event<K, V, E>>,
    tier: nat,
    write: Write<K, V>,
) -> bool {
    exists|i: int|
        0 <= i < trace.len() && (#[trigger] trace[i]).tier == tier && hands_on(write, trace[i].call)
            && error_in(trace[i].call) is None
}

proof fn lemma_took_part<K: Clone, V: Clone, E>(
    part: Seq<Event<K, V, E>>,
    trace: Seq<Event<K, V, E>>,
    shift: int,
    tier: nat,
    write: Write<K, V>,
)
    requires
        took(part, tier, write),
        0 <= shift,
        part.len() + shift <= trace.len(),
        forall|i: int| 0 <= i < part.len() ==> #[trigger] part[i] == trace[i + shift],
    ensures
        took(trace, tier, write),
{
    let i = choose|i: int|
        0 <= i < part.len() && (#[trigger] part[i]).tier == tier && hands_on(write, part[i].call)
            && error_in(part[i].call) is None;
    assert(trace[i + shift] == part[i]);
}

/// Whether one of the calls of `trace` displaced `entry`.
pub open spec fn displaces<K, V, E>(trace: Seq<Event<K, V, E>>, entry: (K, V)) -> bool {
    exists|j: int| 0 <= j < trace.len() && pushed_out((#[trigger] trace[j]).call).contains(entry)
}

/// What a write-through with `left` tiers to go asks of the tiers, and what it
/// tells beyond `evicted`.
spec fn writes_through<K: Clone, V: Clone, E>(
    shape: Shape,
    write: Write<K, V>,
    left: nat,
    evicted: Seq<(K, V)>,
    trace: Seq<Event<K, V, E>>,
    result: Result<Seq<(K, V)>, Fault<E>>,
) -> bool {
    &&& moves(shape, carried(write), trace)
    &&& placed_or_rolled(write, 0, left, shape.policy.demote_displaced, trace)
    &&& shape.policy.demote_displaced && result is Ok ==> rolls_over(shape, trace)
    &&& !shape.policy.demote_displaced ==> going_up(trace) && forall|i: int|
        0 <= i < trace.len() ==> (#[trigger] trace[i]).tier < left && hands_on(write, trace[i].call)
    &&& match result {
        Ok(out) => {
            &&& forall|u: nat| u < left && #[trigger] open_to(shape, u) ==> handed(trace, u, write)
            &&& shape.policy.on_write_error == OnWriteError::Abort ==> forall|u: nat|
                u < left && #[trigger] open_to(shape, u) ==> took(trace, u, write)
            &&& !shape.policy.demote_displaced ==> out == evicted + all_pushed_out(trace)
            &&& forall|entry: (K, V)| #[trigger]
                out.contains(entry) ==> evicted.contains(entry) || displaces(trace, entry)
            &&& (forall|i: int| 0 <= i < trace.len() ==> error_in((#[trigger] trace[i]).call) is Some)
                ==> out == evicted
        },
        Err(Fault::Tier(failure)) => {
            &&& shape.policy.on_write_error == OnWriteError::Abort
            &&& trace.len() > 0
            &&& trace.last().tier == failure.tier
            &&& hands_on(write, trace.last().call)
            &&& error_in(trace.last().call) == Some(failure.source)
            &&& failure.name == shape.names[failure.tier as int]
            &&& forall|u: nat|
                failure.tier < u < left && #[trigger] open_to(shape, u) ==> took(trace, u, write)
        },
        _ => false,
    }
}

/// A write is taken exactly where one of its calls succeeds.
proof fn lemma_taken<K: Clone, V: Clone, E>(
    shape: Shape,
    write: Write<K, V>,
    left: nat,
    evicted: Seq<(K, V)>,
    trace: Seq<Event<K, V, E>>,
    result: Result<Seq<(K, V)>, Fault<E>>,
)
    requires
        replay::wrote_through(shape, write, left, evicted, trace) == Some(
            (Seq::<Event<K, V, E>>::empty(), result),
        ),
    ensures
        replay::taken(shape, write, left, trace) <==> exists|i: int|
            0 <= i < trace.len() && error_in((#[trigger] trace[i]).call) is None,
    decreases left,
{
    reveal_with_fuel(replay::taken, 2);
    if left > 0 {
        let tier = (left - 1) as nat;
        if !shape.writable(tier) {
            lemma_taken(shape, write, tier, evicted, trace, result);
        } else {
            let tail = trace.skip(1);
            match replay::accepted(write, trace[0].call)->0 {
                Ok(_) => {
                    assert(error_in(trace[0].call) is None);
                },
                Err(_) => {
                    assert(error_in(trace[0].call) is Some);
                    assert forall|i: int| 0 < i < trace.len() implies #[trigger] trace[i] == tail[i
                        - 1] by {}
                    if shape.policy.on_write_error == OnWriteError::Abort {
                        assert(tail.len() == 0);
                    } else {
                        lemma_taken(shape, write, tier, evicted, tail, result);
                        if replay::taken(shape, write, tier, tail) {
                            let i = choose|i: int|
                                0 <= i < tail.len() && error_in((#[trigger] tail[i]).call) is None;
                            assert(trace[i + 1] == tail[i]);
                        }
                    }
                },
            }
        }
    }
}

/// One more tier is written through: `event` and what follows from it are `a`.
proof fn lemma_one_through<K: Clone, V: Clone, E>(
    shape: Shape,
    write: Write<K, V>,
    tier: nat,
    evicted: Seq<(K, V)>,
    more: Seq<(K, V)>,
    a: Seq<Event<K, V, E>>,
    b: Seq<Event<K, V, E>>,
    result: Result<Seq<(K, V)>, Fault<E>>,
)
    requires
        open_to(shape, tier),
        a.len() > 0,
        a[0].tier == tier,
        hands_on(write, a[0].call),
        moves(shape, carried(write), a),
        shape.policy.demote_displaced ==> rolls_over(shape, a),
        !shape.policy.demote_displaced ==> a.len() == 1 && more == evicted + pushed_out(a[0].call),
        forall|i: int| 0 < i < a.len() ==> #[trigger] rolled(a, i),
        error_in(a[0].call) is Some ==> a.len() == 1 && more == evicted
            && shape.policy.on_write_error == OnWriteError::BestEffort,
        forall|entry: (K, V)| #[trigger]
            more.contains(entry) ==> evicted.contains(entry) || displaces(a, entry),
        writes_through(shape, write, tier, more, b, result),
    ensures
        writes_through(shape, write, tier + 1, evicted, a + b, result),
{
    let own = carried(write);
    let trace = a + b;
    assert(all_known(a, own, own));
    lemma_moves_join(shape, a, b, own, own);
    assert forall|i: int| 0 <= i < a.len() implies #[trigger] a[i] == trace[i] by {}
    assert forall|i: int| 0 <= i < b.len() implies #[trigger] b[i] == trace[i + a.len()] by {}
    lemma_placed_join(write, 0, tier + 1, shape.policy.demote_displaced, a, b, 0, tier);
    if shape.policy.demote_displaced && result is Ok {
        assert(hands_over(shape, a, b)) by {
            assert forall|i: int, j: int, below: nat|
                0 <= i < a.len() && 0 <= j < pushed_out(a[i].call).len() && #[trigger] next_open(
                    shape,
                    a[i].tier,
                    below,
                ) implies {
                let entry = #[trigger] pushed_out(a[i].call)[j];
                offered(a, i + 1, below, entry.0, entry.1) || offered(b, 0, below, entry.0, entry.1)
            } by {
                let entry = pushed_out(a[i].call)[j];
                assert(offered(a, i + 1, below, entry.0, entry.1));
            }
        }
        lemma_rolls_join(shape, a, b);
    }
    if !shape.policy.demote_displaced {
        assert(trace.skip(1) =~= b);
        assert(trace[0] == a[0]);
        assert forall|i: int| 0 < i < trace.len() implies #[trigger] trace[i] == b[i - 1] by {}
        assert(more + all_pushed_out(b) =~= evicted + all_pushed_out(trace));
    }
    match result {
        Ok(out) => {
            assert forall|u: nat| u < tier + 1 && #[trigger] open_to(shape, u) implies handed(
                trace,
                u,
                write,
            ) by {
                if u == tier {
                    assert(trace[0] == a[0]);
                } else {
                    lemma_handed_part(b, trace, a.len() as int, u, write);
                }
            }
            if shape.policy.on_write_error == OnWriteError::Abort {
                assert forall|u: nat| u < tier + 1 && #[trigger] open_to(shape, u) implies took(
                    trace,
                    u,
                    write,
                ) by {
                    if u == tier {
                        assert(trace[0] == a[0]);
                    } else {
                        lemma_took_part(b, trace, a.len() as int, u, write);
                    }
                }
            }
            assert forall|entry: (K, V)| #[trigger] out.contains(entry) implies evicted.contains(
                entry,
            ) || displaces(trace, entry) by {
                if displaces(b, entry) {
                    let j = choose|j: int|
                        0 <= j < b.len() && pushed_out((#[trigger] b[j]).call).contains(entry);
                    assert(trace[j + a.len()] == b[j]);
                } else if displaces(a, entry) {
                    let j = choose|j: int|
                        0 <= j < a.len() && pushed_out((#[trigger] a[j]).call).contains(entry);
                    assert(trace[j] == a[j]);
                }
            }
            if forall|i: int| 0 <= i < trace.len() ==> error_in((#[trigger] trace[i]).call) is Some {
                assert(error_in(trace[0].call) is Some);
                assert forall|i: int| 0 <= i < b.len() implies error_in((#[trigger] b[i]).call)
                    is Some by {
                    assert(trace[i + a.len()] == b[i]);
                }
            }
        },
        Err(fault) => {
            assert(trace.last() == b.last());
            let failure = fault->Tier_0;
            assert forall|u: nat|
                failure.tier < u < tier + 1 && #[trigger] open_to(shape, u) implies took(
                trace,
                u,
                write,
            ) by {
                if u == tier {
                    assert(trace[0] == a[0]);
                } else {
                    lemma_took_part(b, trace, a.len() as int, u, write);
                }
            }
        },
    }
}

proof fn lemma_writing_through<K: Clone, V: Clone, E>(
    shape: Shape,
    write: Write<K, V>,
    left: nat,
    evicted: Seq<(K, V)>,
    trace: Seq<Event<K, V, E>>,
    result: Result<Seq<(K, V)>, Fault<E>>,
)
    requires
        left <= shape.tiers(),
        replay::wrote_through(shape, write, left, evicted, trace) == Some(
            (Seq::<Event<K, V, E>>::empty(), result),
        ),
    ensures
        writes_through(shape, write, left, evicted, trace, result),
    decreases left,
{
    if left == 0 {
        assert(evicted + all_pushed_out(trace) =~= evicted);
        reveal(placed_or_rolled);
    } else {
        let tier = (left - 1) as nat;
        if !shape.writable(tier) {
            lemma_writing_through(shape, write, tier, evicted, trace, result);
            reveal(placed_or_rolled);
            assert forall|u: nat| u < left && #[trigger] open_to(shape, u) implies u < tier by {}
        } else {
            let event = trace[0];
            let tail = trace.skip(1);
            let one = seq![event];
            lemma_direct(shape, write, event);
            assert(trace =~= one + tail);
            let displaced = pushed_out(event.call);
            if error_in(event.call) is Some {
                assert(displaced =~= Seq::empty());
                if shape.policy.on_write_error == OnWriteError::Abort {
                    assert(tail.len() == 0);
                    assert(trace =~= one);
                    reveal(placed_or_rolled);
                } else {
                    lemma_writing_through(shape, write, tier, evicted, tail, result);
                    assert(rolls_over(shape, one));
                    assert(evicted =~= evicted + displaced);
                    lemma_one_through(shape, write, tier, evicted, evicted, one, tail, result);
                }
            } else if !shape.policy.demote_displaced {
                let more = evicted + displaced;
                lemma_writing_through(shape, write, tier, more, tail, result);
                assert forall|entry: (K, V)| #[trigger] more.contains(entry) implies evicted.contains(
                    entry,
                ) || displaces(one, entry) by {
                    lemma_concat_contains(evicted, displaced, entry);
                    assert(one[0] == event);
                }
                lemma_one_through(shape, write, tier, evicted, more, one, tail, result);
            } else {
                let a = lemma_direct_and_demoted(shape, write, event, tail);
                let (b, lost) = replay::demoted(shape, tier + 1, displaced, tail)->0;
                let more = evicted + lost;
                assert(trace =~= a + b);
                lemma_writing_through(shape, write, tier, more, b, result);
                assert forall|entry: (K, V)| #[trigger] more.contains(entry) implies evicted.contains(
                    entry,
                ) || displaces(a, entry) by {
                    lemma_concat_contains(evicted, lost, entry);
                }
                lemma_one_through(shape, write, tier, evicted, more, a, b, result);
            }
        }
    }
}

/// What a write-through does and tells: all open tiers are handed copies of the
/// write, bottom-up where nothing is demoted. Where the first refusal aborts, it
/// is the last call, and it is told which tier refused; so a write that succeeds
/// was accepted by all of them. Nothing is made up: what is inserted below was
/// displaced, and so was everything that the caller is told. Only a write that
/// no tier accepts is told itself, as a whole.
pub open spec fn written_through<K: Clone, V: Clone, E>(
    shape: Shape,
    write: Write<K, V>,
    trace: Seq<Event<K, V, E>>,
    result: Result<Seq<(K, V)>, Fault<E>>,
) -> bool {
    &&& only_open(shape, trace)
    &&& forall|i: int|
        0 <= i < trace.len() ==> (#[trigger] trace[i]).call is Put || trace[i].call is PutMany
    &&& nothing_made_up(trace, carried(write))
    &&& forall|i: int|
        0 <= i < trace.len() ==> (shape.policy.demote_displaced && rolled(trace, i)) || hands_on(
            write,
            (#[trigger] trace[i]).call,
        )
    &&& !shape.policy.demote_displaced ==> going_up(trace)
    &&& match result {
        Ok(evicted) => {
            &&& forall|u: nat| #[trigger] open_to(shape, u) ==> handed(trace, u, write)
            &&& shape.policy.on_write_error == OnWriteError::Abort ==> forall|u: nat| #[trigger]
                open_to(shape, u) ==> took(trace, u, write)
            &&& shape.policy.demote_displaced ==> rolls_over(shape, trace)
            &&& if exists|i: int| 0 <= i < trace.len() && error_in((#[trigger] trace[i]).call) is None {
                &&& forall|entry: (K, V)| #[trigger]
                    evicted.contains(entry) ==> displaces(trace, entry)
                &&& !shape.policy.demote_displaced ==> evicted == all_pushed_out(trace)
            } else {
                evicted == carried(write)
            }
        },
        Err(Fault::Tier(failure)) => {
            &&& shape.policy.on_write_error == OnWriteError::Abort
            &&& trace.len() > 0
            &&& trace.last().tier == failure.tier
            &&& hands_on(write, trace.last().call)
            &&& error_in(trace.last().call) == Some(failure.source)
            &&& failure.name == shape.names[failure.tier as int]
            &&& forall|u: nat|
                failure.tier < u && #[trigger] open_to(shape, u) ==> took(trace, u, write)
        },
        _ => false,
    }
}

/// Whether `call` removes exactly the keys of `write`: one alone as one, a batch
/// as a batch, in order.
pub open spec fn takes_back<K, V, E>(write: Write<K, V>, call: Call<K, V, E>) -> bool {
    match (write, call) {
        (Write::One { key, .. }, Call::Delete { key: k, .. }) => k == key,
        (Write::Many { entries }, Call::DeleteMany { keys, .. }) => {
            &&& keys.len() == entries.len()
            &&& forall|i: int| 0 <= i < keys.len() ==> #[trigger] keys[i] == entries[i].0
        },
        _ => false,
    }
}

proof fn lemma_invalidating<K, V, E>(
    shape: Shape,
    write: Write<K, V>,
    tier: nat,
    end: nat,
    failures: Seq<Failure<E>>,
    trace: Seq<Event<K, V, E>>,
    out: Seq<Failure<E>>,
)
    requires
        replay::invalidated(shape, write.keys(), tier, end, failures, trace) == Some(
            (Seq::<Event<K, V, E>>::empty(), out),
        ),
    ensures
        only_open(shape, trace),
        going_down(trace),
        forall|i: int|
            0 <= i < trace.len() ==> tier <= (#[trigger] trace[i]).tier < end && takes_back(
                write,
                trace[i].call,
            ),
        forall|u: nat| tier <= u < end && #[trigger] open_to(shape, u) ==> asked(trace, u),
        out == failures + troubles(shape, trace),
    decreases end - tier,
{
    if tier >= end {
        assert(failures + troubles(shape, trace) =~= failures);
    } else if !shape.writable(tier) {
        lemma_invalidating(shape, write, tier + 1, end, failures, trace, out);
    } else {
        let tail = trace.skip(1);
        let more = match error_in(trace[0].call) {
            None => failures,
            Some(source) => failures.push(shape.failure(tier, source)),
        };
        lemma_invalidating(shape, write, tier + 1, end, more, tail, out);
        assert forall|i: int| 0 < i < trace.len() implies #[trigger] trace[i] == tail[i - 1] by {}
        assert forall|u: nat| tier <= u < end && #[trigger] open_to(shape, u) implies asked(
            trace,
            u,
        ) by {
            lemma_asked_first(trace, u);
        }
        assert(failures + troubles(shape, trace) =~= more + troubles(shape, tail));
    }
}

/// What a write-around does and tells: the bottommost open tier is handed copies
/// of the write. If it refuses, that is the end, and it is named. Otherwise every
/// open tier above is asked, topmost first, to remove what was written; the
/// caller is told what the bottommost tier displaced, or, if some of the others
/// fail, exactly those failures.
pub open spec fn written_around<K: Clone, V: Clone, E>(
    shape: Shape,
    write: Write<K, V>,
    trace: Seq<Event<K, V, E>>,
    result: Result<Seq<(K, V)>, Fault<E>>,
) -> bool {
    &&& trace.len() > 0
    &&& open_to(shape, trace[0].tier)
    &&& forall|t: nat| trace[0].tier < t ==> !#[trigger] open_to(shape, t)
    &&& hands_on(write, trace[0].call)
    &&& match error_in(trace[0].call) {
        Some(source) => trace.len() == 1 && result == Err::<Seq<(K, V)>, _>(
            Fault::Tier(
                Failure { tier: trace[0].tier, name: shape.names[trace[0].tier as int], source },
            ),
        ),
        None => {
            let dropping = trace.skip(1);
            &&& only_open(shape, dropping)
            &&& going_down(dropping)
            &&& forall|i: int|
                0 <= i < dropping.len() ==> (#[trigger] dropping[i]).tier < trace[0].tier
                    && takes_back(write, dropping[i].call)
            &&& forall|u: nat|
                u < trace[0].tier && #[trigger] open_to(shape, u) ==> asked(dropping, u)
            &&& result == if troubles(shape, dropping).len() > 0 {
                Err::<Seq<(K, V)>, _>(Fault::Partial(troubles(shape, dropping)))
            } else {
                Ok(pushed_out(trace[0].call))
            }
        },
    }
}

/// What a write does and tells. With no open tier nothing is asked, and the
/// write is rejected as read-only; otherwise it goes through all open tiers, or
/// around all but the bottommost, as the policy says.
pub open spec fn written<K: Clone, V: Clone, E>(
    shape: Shape,
    write: Write<K, V>,
    trace: Seq<Event<K, V, E>>,
    result: Result<Seq<(K, V)>, Fault<E>>,
) -> bool {
    if exists|t: nat| #[trigger] open_to(shape, t) {
        match shape.policy.write {
            WriteMode::WriteThrough => written_through(shape, write, trace, result),
            WriteMode::WriteAround => written_around(shape, write, trace, result),
        }
    } else {
        trace.len() == 0 && result == Err::<Seq<(K, V)>, _>(Fault::<E>::ReadOnly)
    }
}

/// A write does and tells what [`written`] says, whatever the tiers answer.
pub proof fn law_writes_tell_what_the_tiers_said<K: Clone, V: Clone, E>(
    shape: Shape,
    write: Write<K, V>,
    trace: Seq<Event<K, V, E>>,
    result: Result<Seq<(K, V)>, Fault<E>>,
)
    requires
        replay::wrote(shape, write, trace) == Some((Seq::<Event<K, V, E>>::empty(), result)),
    ensures
        written(shape, write, trace, result),
{
    replay::lemma_bottom(shape, shape.tiers());
    assert forall|t: nat| #[trigger] open_to(shape, t) implies shape.writable(t) && t
        < shape.tiers() by {}
    match shape.bottom(shape.tiers()) {
        None => {},
        Some(bottom) => {
            assert(open_to(shape, bottom));
            match shape.policy.write {
                WriteMode::WriteThrough => {
                    let all = shape.tiers();
                    let inner = (replay::wrote_through(shape, write, all, Seq::empty(), trace)->0).1;
                    lemma_writing_through(shape, write, all, Seq::empty(), trace, inner);
                    lemma_taken(shape, write, all, Seq::empty(), trace, inner);
                    reveal(placed_or_rolled);
                    if inner is Ok {
                        let none = Seq::<(K, V)>::empty();
                        assert(none + all_pushed_out(trace) =~= all_pushed_out(trace));
                        assert(none + carried(write) =~= carried(write));
                        if replay::taken(shape, write, all, trace) {
                            assert forall|entry: (K, V)| inner->Ok_0.contains(
                                entry,
                            ) implies displaces(trace, entry) by {
                                assert(!none.contains(entry));
                            }
                        } else {
                            assert forall|i: int| 0 <= i < trace.len() implies error_in(
                                (#[trigger] trace[i]).call,
                            ) is Some by {}
                        }
                    }
                },
                WriteMode::WriteAround => {
                    lemma_direct(shape, write, trace[0]);
                    assert forall|t: nat| bottom < t implies !#[trigger] open_to(shape, t) by {
                        if open_to(shape, t) {
                            assert(shape.writable(t));
                        }
                    }
                    if error_in(trace[0].call) is None {
                        let tail = trace.skip(1);
                        let (rest, out) = replay::invalidated(
                            shape,
                            write.keys(),
                            0,
                            bottom,
                            Seq::<Failure<E>>::empty(),
                            tail,
                        )->0;
                        lemma_invalidating(shape, write, 0, bottom, Seq::empty(), tail, out);
                        assert(out =~= troubles(shape, tail));
                    } else {
                        assert(trace.skip(1).len() == 0);
                    }
                },
            }
        },
    }
}

/// Only keys that were found are listed.
pub proof fn lemma_finds_found<K, V>(
    keys: Seq<K>,
    statuses: Seq<KeyStatus<V>>,
    count: nat,
    entry: (K, V),
) -> (i: int)
    requires
        finds(keys, statuses, count).contains(entry),
    ensures
        0 <= i < count,
        statuses[i] is Hit,
        entry == (keys[i], statuses[i]->value),
    decreases count,
{
    let all = finds(keys, statuses, count);
    let before = finds(keys, statuses, (count - 1) as nat);
    if before.contains(entry) {
        lemma_finds_found(keys, statuses, (count - 1) as nat, entry)
    } else {
        let j = all.index_of(entry);
        if j < before.len() {
            assert(before[j] == entry);
        }
        count - 1
    }
}

/// Whether every tier that is named as having a key exists.
pub open spec fn named<V>(statuses: Seq<KeyStatus<V>>, tiers: nat) -> bool {
    forall|i: int|
        0 <= i < statuses.len() && #[trigger] statuses[i] is Hit ==> statuses[i]->tier < tiers
}

proof fn lemma_resolved_named<V>(
    statuses: Seq<KeyStatus<V>>,
    unresolved: Seq<usize>,
    found: Seq<Option<V>>,
    tier: nat,
    count: nat,
    tiers: nat,
)
    requires
        named(statuses, tiers),
        tier < tiers <= usize::MAX,
        count <= unresolved.len(),
        forall|j: int| 0 <= j < unresolved.len() ==> #[trigger] unresolved[j] < statuses.len(),
    ensures
        ({
            let (known, missing) = replay::resolved(statuses, unresolved, found, tier, count);
            &&& named(known, tiers)
            &&& known.len() == statuses.len()
            &&& forall|j: int| 0 <= j < missing.len() ==> #[trigger] missing[j] < statuses.len()
        }),
    decreases count,
{
    if count > 0 {
        let last = count - 1;
        lemma_resolved_named(statuses, unresolved, found, tier, last as nat, tiers);
        let (before, _) = replay::resolved(statuses, unresolved, found, tier, last as nat);
        let (known, _) = replay::resolved(statuses, unresolved, found, tier, count);
        assert(unresolved[last] < statuses.len());
        assert forall|i: int| 0 <= i < known.len() && #[trigger] known[i] is Hit implies known[i]->tier
            < tiers by {
            if i != unresolved[last] {
                assert(known[i] == before[i]);
            }
        }
    }
}

/// A batched read names only tiers that exist.
pub proof fn lemma_gathered_named<K: Clone, V: Clone, E>(
    shape: Shape,
    keys: Seq<K>,
    tier: nat,
    statuses: Seq<KeyStatus<V>>,
    unresolved: Seq<usize>,
    failures: Seq<Failure<E>>,
    trace: Seq<Event<K, V, E>>,
)
    requires
        shape.tiers() <= usize::MAX,
        named(statuses, shape.tiers()),
        forall|j: int| 0 <= j < unresolved.len() ==> #[trigger] unresolved[j] < statuses.len(),
        replay::gathered_from(shape, keys, tier, statuses, unresolved, failures, trace) is Some,
    ensures
        (replay::gathered_from(
            shape,
            keys,
            tier,
            statuses,
            unresolved,
            failures,
            trace,
        )->0).1 matches Ok((known, _)) ==> named(known, shape.tiers()),
    decreases shape.tiers() - tier,
{
    if tier >= shape.tiers() || unresolved.len() == 0 {
        let known = replay::concluded(statuses, unresolved, failures);
        assert forall|i: int| 0 <= i < known.len() && #[trigger] known[i] is Hit implies known[i]->tier
            < shape.tiers() by {
            assert(known[i] == statuses[i]);
        }
    } else {
        match trace[0].call->GetMany_values {
            Ok(found) => {
                let count = if found.len() < unresolved.len() {
                    found.len()
                } else {
                    unresolved.len()
                };
                lemma_resolved_named(statuses, unresolved, found, tier, count, shape.tiers());
                let (now, missing) = replay::resolved(statuses, unresolved, found, tier, count);
                lemma_gathered_named(shape, keys, tier + 1, now, missing, failures, trace.skip(1));
            },
            Err(source) => {
                if shape.policy.read.on_error == OnReadError::FallThrough {
                    let more = failures.push(shape.failure(tier, source));
                    lemma_gathered_named(
                        shape,
                        keys,
                        tier + 1,
                        statuses,
                        unresolved,
                        more,
                        trace.skip(1),
                    );
                }
            },
        }
    }
}

/// Whether tier `tier` was asked for `key` in a batch, and failed or did not
/// have it.
pub open spec fn no_help<K: Clone, V, E>(event: Event<K, V, E>, tier: nat, key: K) -> bool {
    event.tier == tier && match event.call {
        Call::GetMany { keys, values } => exists|slot: int|
            0 <= slot < keys.len() && cloned(key, #[trigger] keys[slot]) && match values {
                Ok(values) => slot < values.len() && values[slot] is None,
                Err(_) => true,
            },
        _ => false,
    }
}

spec fn helpless<K: Clone, V, E>(trace: Seq<Event<K, V, E>>, tier: nat, key: K) -> bool {
    exists|n: int| 0 <= n < trace.len() && #[trigger] no_help(trace[n], tier, key)
}

proof fn lemma_inconclusive<K: Clone, V: Clone, E>(
    shape: Shape,
    keys: Seq<K>,
    tier: nat,
    statuses: Seq<KeyStatus<V>>,
    unresolved: Seq<usize>,
    failures: Seq<Failure<E>>,
    trace: Seq<Event<K, V, E>>,
    known: Seq<KeyStatus<V>>,
    told: Seq<Failure<E>>,
    i: int,
)
    requires
        keys.len() <= usize::MAX,
        statuses.len() == keys.len(),
        conduct::in_step(statuses, unresolved),
        conduct::one_slot_per_key(trace),
        !(statuses[i] is Inconclusive),
        0 <= i < keys.len(),
        replay::gathered_from(shape, keys, tier, statuses, unresolved, failures, trace) == Some(
            (Seq::<Event<K, V, E>>::empty(), Ok::<_, Fault<E>>((known, told))),
        ),
    ensures
        known.len() == keys.len(),
        known[i] is Inconclusive ==> {
            &&& statuses[i] is Miss
            &&& told.len() > 0
            &&& forall|t: nat|
                tier <= t < shape.read_only.len() ==> #[trigger] helpless(trace, t, keys[i])
        },
        statuses[i] is Hit ==> known[i] == statuses[i],
    decreases shape.tiers() - tier,
{
    if tier >= shape.tiers() || unresolved.len() == 0 {
        if unresolved.contains(i as usize) {
            assert(statuses[i] is Miss);
        }
        if known[i] is Inconclusive && tier < shape.tiers() {
            assert(unresolved.contains(i as usize));
        }
    } else {
        let tail = trace.skip(1);
        let wanted = replay::at(keys, unresolved);
        assert forall|n: int| 0 <= n < tail.len() implies match (#[trigger] tail[n]).call {
            Call::GetMany { keys, values: Ok(values) } => values.len() == keys.len(),
            _ => true,
        } by {
            assert(tail[n] == trace[n + 1]);
        }
        assert(conduct::one_slot_per_key(tail));
        let asked = trace[0].call->GetMany_keys;
        let open = statuses[i] is Miss;
        let j = if open {
            assert(unresolved.contains(i as usize));
            unresolved.index_of(i as usize)
        } else {
            0
        };
        if open {
            assert(wanted[j] == keys[i]);
            assert(cloned(wanted[j], asked[j]));
        }
        match trace[0].call->GetMany_values {
            Ok(found) => {
                assert(found.len() == unresolved.len());
                let count = unresolved.len();
                conduct::lemma_resolved(statuses, unresolved, found, tier, count);
                conduct::lemma_resolved_in_step(statuses, unresolved, found, tier);
                let (now, missing) = replay::resolved(statuses, unresolved, found, tier, count);
                if open {
                    assert(unresolved[j] == i);
                } else {
                    assert forall|m: int| 0 <= m < count implies #[trigger] unresolved[m] != i by {
                        if unresolved[m] == i {
                            assert(unresolved.contains(i as usize));
                        }
                    }
                }
                lemma_inconclusive(
                    shape,
                    keys,
                    tier + 1,
                    now,
                    missing,
                    failures,
                    tail,
                    known,
                    told,
                    i,
                );
                if known[i] is Inconclusive {
                    assert(now[i] is Miss);
                    assert(open);
                    assert(found[j] is None);
                    assert(no_help(trace[0], tier, keys[i]));
                }
            },
            Err(source) => {
                let more = failures.push(shape.failure(tier, source));
                lemma_inconclusive(
                    shape,
                    keys,
                    tier + 1,
                    statuses,
                    unresolved,
                    more,
                    tail,
                    known,
                    told,
                    i,
                );
                if known[i] is Inconclusive {
                    assert(open);
                    assert(no_help(trace[0], tier, keys[i]));
                }
            },
        }
        if known[i] is Inconclusive {
            assert forall|t: nat| tier <= t < shape.read_only.len() implies #[trigger] helpless(
                trace,
                t,
                keys[i],
            ) by {
                if t == tier {
                    assert(no_help(trace[0], tier, keys[i]));
                } else {
                    assert(helpless(tail, t, keys[i]));
                    let n = choose|n: int|
                        0 <= n < tail.len() && #[trigger] no_help(tail[n], t, keys[i]);
                    assert(trace[n + 1] == tail[n]);
                    assert(no_help(trace[n + 1], t, keys[i]));
                }
            }
        }
    }
}

/// A key is left inconclusive by a batched read only if some tier failed, and
/// every tier was asked for the key and either failed or did not have it. The
/// law asks of the tiers that they answer a batched lookup with one slot per key.
pub proof fn law_inconclusive_keys_were_found_nowhere<K: Clone, V: Clone, E>(
    shape: Shape,
    keys: Seq<K>,
    trace: Seq<Event<K, V, E>>,
    statuses: Seq<KeyStatus<V>>,
    failures: Seq<Failure<E>>,
    i: int,
    tier: nat,
) -> (n: int)
    requires
        keys.len() <= usize::MAX,
        forall|n: int|
            0 <= n < trace.len() ==> match (#[trigger] trace[n]).call {
                Call::GetMany { keys, values: Ok(values) } => values.len() == keys.len(),
                _ => true,
            },
        replay::gathered(shape, keys, trace) == Some(
            (Seq::<Event<K, V, E>>::empty(), Ok::<_, Fault<E>>((statuses, failures))),
        ),
        0 <= i < keys.len(),
        statuses[i] is Inconclusive,
        tier < shape.read_only.len(),
    ensures
        failures.len() > 0,
        0 <= n < trace.len(),
        no_help(trace[n], tier, keys[i]),
{
    let none = Seq::new(keys.len(), |j: int| KeyStatus::<V>::Miss);
    let all = Seq::new(keys.len(), |j: int| j as usize);
    assert forall|j: int| 0 <= j < none.len() implies (#[trigger] none[j] is Miss <==> all.contains(
        j as usize,
    )) by {
        assert(all[j] == j as usize);
    }
    lemma_inconclusive(
        shape,
        keys,
        0,
        none,
        all,
        Seq::empty(),
        trace,
        statuses,
        failures,
        i,
    );
    assert(helpless(trace, tier, keys[i]));
    choose|n: int| 0 <= n < trace.len() && #[trigger] no_help(trace[n], tier, keys[i])
}

/// A batched read as a plain tier sees it: if a key is inconclusive, so is the
/// batch, and the failures are told; otherwise each key has its value, or none
/// if it was a miss; and an error stays what it is.
pub proof fn law_plain_batches_stand_or_fall_together<V, E>(
    report: Result<replay::Gathered<V, E>, Fault<E>>,
)
    ensures
        match (report, replay::degraded(report)) {
            (Err(fault), told) => told == Err::<Seq<Option<V>>, _>(fault),
            (Ok((statuses, failures)), Err(fault)) => fault == Fault::Inconclusive(failures)
                && exists|i: int| 0 <= i < statuses.len() && #[trigger] statuses[i] is Inconclusive,
            (Ok((statuses, failures)), Ok(values)) => values.len() == statuses.len() && forall|i: int|
                0 <= i < statuses.len() ==> match #[trigger] statuses[i] {
                    KeyStatus::Hit { value, .. } => values[i] == Some(value),
                    KeyStatus::Miss => values[i] is None,
                    KeyStatus::Inconclusive => false,
                },
        },
{
    if let Ok((statuses, failures)) = report {
        if statuses.contains(KeyStatus::Inconclusive) {
            let i = statuses.index_of(KeyStatus::Inconclusive);
            assert(statuses[i] is Inconclusive);
        } else {
            assert forall|i: int| 0 <= i < statuses.len() implies !(#[trigger] statuses[i]
                is Inconclusive) by {
                assert(statuses.contains(statuses[i]));
            }
        }
    }
}

proof fn lemma_pushed_out_join<K, V, E>(a: Seq<Event<K, V, E>>, b: Seq<Event<K, V, E>>)
    ensures
        all_pushed_out(a + b) == all_pushed_out(a) + all_pushed_out(b),
    decreases a.len(),
{
    if a.len() == 0 {
        assert(a + b =~= b);
        assert(all_pushed_out(a) + all_pushed_out(b) =~= all_pushed_out(b));
    } else {
        lemma_pushed_out_join(a.skip(1), b);
        assert((a + b).skip(1) =~= a.skip(1) + b);
        assert((a + b)[0] == a[0]);
        assert(pushed_out(a[0].call) + (all_pushed_out(a.skip(1)) + all_pushed_out(b)) =~= (
        pushed_out(a[0].call) + all_pushed_out(a.skip(1))) + all_pushed_out(b));
    }
}

proof fn lemma_bag_join<A>(a: Seq<A>, b: Seq<A>, item: A)
    ensures
        (a + b).to_multiset().count(item) == a.to_multiset().count(item) + b.to_multiset().count(
            item,
        ),
{
    vstd::seq_lib::lemma_multiset_commutative(a, b);
}

/// How often `entry` stands among `entries`.
pub open spec fn times<K, V>(entries: Seq<(K, V)>, entry: (K, V)) -> nat {
    entries.to_multiset().count(entry)
}

proof fn lemma_pouring_times<K: Clone, V: Clone, E>(
    target: nat,
    entries: Seq<(K, V)>,
    over: Over<K, V>,
    trace: Seq<Event<K, V, E>>,
    entry: (K, V),
)
    requires
        replay::poured(target, entries, over, trace) is Some,
    ensures
        ({
            let (rest, out) = replay::poured(target, entries, over, trace)->0;
            &&& times(out.displaced, entry) + times(all_pushed_out(rest), entry) == times(
                over.displaced,
                entry,
            ) + times(all_pushed_out(trace), entry)
            &&& times(out.refused, entry) <= times(over.refused, entry) + times(entries, entry)
        }),
    decreases entries.len(),
{
    if entries.len() > 0 {
        let tail = trace.skip(1);
        let answer = trace[0].call->Put_displaced;
        let more = over.after(entries[0], answer);
        lemma_pouring_times(target, entries.skip(1), more, tail, entry);
        assert(entries =~= seq![entries[0]] + entries.skip(1));
        lemma_bag_join(seq![entries[0]], entries.skip(1), entry);
        lemma_bag_join(pushed_out(trace[0].call), all_pushed_out(tail), entry);
        match answer {
            Ok(displaced) => {
                lemma_bag_join(over.displaced, displaced, entry);
            },
            Err(_) => {
                assert(pushed_out(trace[0].call) =~= Seq::empty());
                assert(more.refused =~= over.refused + seq![entries[0]]);
                lemma_bag_join(over.refused, seq![entries[0]], entry);
                assert(times(Seq::<(K, V)>::empty(), entry) == 0) by {
                    Seq::<(K, V)>::empty().to_multiset_ensures();
                }
            },
        }
    }
}

proof fn lemma_demoting_times<K: Clone, V: Clone, E>(
    shape: Shape,
    target: nat,
    entries: Seq<(K, V)>,
    trace: Seq<Event<K, V, E>>,
    entry: (K, V),
)
    requires
        replay::demoted(shape, target, entries, trace) is Some,
    ensures
        ({
            let (rest, out) = replay::demoted(shape, target, entries, trace)->0;
            times(out, entry) + times(all_pushed_out(rest), entry) <= times(entries, entry) + times(
                all_pushed_out(trace),
                entry,
            )
        }),
    decreases shape.tiers() - target,
{
    if target >= shape.tiers() || entries.len() == 0 {
    } else if !shape.writable(target) {
        lemma_demoting_times(shape, target + 1, entries, trace, entry);
    } else {
        let none = Over::<K, V>::none();
        let (mid, over) = replay::poured(target, entries, none, trace)->0;
        lemma_pouring_times(target, entries, none, trace, entry);
        lemma_demoting_times(shape, target + 1, over.displaced, mid, entry);
        let fallen = (replay::demoted(shape, target + 1, over.displaced, mid)->0).1;
        lemma_bag_join(over.refused, fallen, entry);
        Seq::<(K, V)>::empty().to_multiset_ensures();
    }
}

proof fn lemma_writing_times<K: Clone, V: Clone, E>(
    shape: Shape,
    write: Write<K, V>,
    left: nat,
    evicted: Seq<(K, V)>,
    trace: Seq<Event<K, V, E>>,
    entry: (K, V),
)
    requires
        replay::wrote_through(shape, write, left, evicted, trace) is Some,
    ensures
        ({
            let (rest, result) = replay::wrote_through(shape, write, left, evicted, trace)->0;
            result matches Ok(out) ==> times(out, entry) + times(all_pushed_out(rest), entry)
                <= times(evicted, entry) + times(all_pushed_out(trace), entry)
        }),
    decreases left,
{
    if left > 0 {
        let tier = (left - 1) as nat;
        if !shape.writable(tier) {
            lemma_writing_times(shape, write, tier, evicted, trace, entry);
        } else {
            let tail = trace.skip(1);
            let spilled = pushed_out(trace[0].call);
            lemma_bag_join(spilled, all_pushed_out(tail), entry);
            match replay::accepted(write, trace[0].call)->0 {
                Ok(displaced) => {
                    assert(spilled == displaced);
                    if !shape.policy.demote_displaced {
                        lemma_bag_join(evicted, displaced, entry);
                        lemma_writing_times(shape, write, tier, evicted + displaced, tail, entry);
                    } else {
                        let (rest, lost) = replay::demoted(shape, tier + 1, displaced, tail)->0;
                        lemma_demoting_times(shape, tier + 1, displaced, tail, entry);
                        lemma_bag_join(evicted, lost, entry);
                        lemma_writing_times(shape, write, tier, evicted + lost, rest, entry);
                    }
                },
                Err(_) => {
                    if shape.policy.on_write_error == OnWriteError::BestEffort {
                        lemma_writing_times(shape, write, tier, evicted, tail, entry);
                    }
                },
            }
        }
    }
}

/// Nothing is told more often than it was lost: of the entries that a write tells
/// its caller, each was displaced at least as often, unless no tier took the
/// write, and what is told is the write itself.
pub proof fn law_nothing_is_told_twice<K: Clone, V: Clone, E>(
    shape: Shape,
    write: Write<K, V>,
    trace: Seq<Event<K, V, E>>,
    evicted: Seq<(K, V)>,
    entry: (K, V),
)
    requires
        replay::wrote(shape, write, trace) == Some(
            (Seq::<Event<K, V, E>>::empty(), Ok::<_, Fault<E>>(evicted)),
        ),
    ensures
        times(evicted, entry) <= times(all_pushed_out(trace), entry) || evicted == carried(write),
{
    let result = Ok::<_, Fault<E>>(evicted);
    law_writes_tell_what_the_tiers_said(shape, write, trace, result);
    replay::lemma_bottom(shape, shape.tiers());
    let bottom = shape.bottom(shape.tiers())->0;
    assert(open_to(shape, bottom));
    Seq::<(K, V)>::empty().to_multiset_ensures();
    match shape.policy.write {
        WriteMode::WriteThrough => {
            let none = Seq::<(K, V)>::empty();
            lemma_writing_times(shape, write, shape.tiers(), none, trace, entry);
            if exists|i: int| 0 <= i < trace.len() && error_in((#[trigger] trace[i]).call) is None {
                let inner = (replay::wrote_through(shape, write, shape.tiers(), none, trace)->0).1;
                lemma_taken(shape, write, shape.tiers(), none, trace, inner);
                assert(inner == result);
            }
        },
        WriteMode::WriteAround => {
            lemma_bag_join(pushed_out(trace[0].call), all_pushed_out(trace.skip(1)), entry);
        },
    }
}

/// Whether one of the calls of `trace` looked `key` up and found `value`.
pub open spec fn got<K, V, E>(trace: Seq<Event<K, V, E>>, key: K, value: V) -> bool {
    exists|n: int|
        0 <= n < trace.len() && (#[trigger] trace[n]).call == (Call::<K, V, E>::Get {
            key,
            found: Ok(Some(value)),
        })
}

/// Whether one of the calls of `trace` asked whether `key` is there, and was told
/// that it is.
pub open spec fn seen<K, V, E>(trace: Seq<Event<K, V, E>>, key: K) -> bool {
    exists|n: int|
        0 <= n < trace.len() && (#[trigger] trace[n]).call == (Call::<K, V, E>::Exists {
            key,
            present: Ok(true),
        })
}

/// Whether one of the calls of `trace` removed `key`, and was told that it had
/// been there.
pub open spec fn dropped<K, V, E>(trace: Seq<Event<K, V, E>>, key: K) -> bool {
    exists|n: int|
        0 <= n < trace.len() && (#[trigger] trace[n]).call == (Call::<K, V, E>::Delete {
            key,
            removed: Ok(true),
        })
}

/// Whether one of the calls of `trace` removed a batch, and was told that key
/// number `i` had been there.
pub open spec fn dropped_at<K, V, E>(trace: Seq<Event<K, V, E>>, i: int) -> bool {
    exists|n: int|
        0 <= n < trace.len() && ((#[trigger] trace[n]).call matches Call::DeleteMany {
            flags: Ok(flags),
            ..
        } && i < flags.len() && flags[i])
}

/// Whether one of the calls of `trace` failed.
pub open spec fn stumbled<K, V, E>(trace: Seq<Event<K, V, E>>) -> bool {
    exists|n: int| 0 <= n < trace.len() && error_in((#[trigger] trace[n]).call) is Some
}

/// A call failed exactly if there is trouble to tell of.
proof fn lemma_stumbled<K, V, E>(shape: Shape, trace: Seq<Event<K, V, E>>)
    ensures
        stumbled(trace) <==> troubles(shape, trace).len() > 0,
    decreases trace.len(),
{
    if trace.len() > 0 {
        let tail = trace.skip(1);
        lemma_stumbled(shape, tail);
        if stumbled(tail) {
            let n = choose|n: int|
                0 <= n < tail.len() && error_in((#[trigger] tail[n]).call) is Some;
            assert(trace[n + 1] == tail[n]);
        } else if error_in(trace[0].call) is None {
            assert forall|n: int| 0 <= n < trace.len() implies error_in((#[trigger] trace[n]).call)
                is None by {
                if n > 0 {
                    assert(trace[n] == tail[n - 1]);
                }
            }
        }
    }
}

/// What a router answers is what its tiers answered, whichever operation is
/// asked of it. A value is what some tier held; a key is absent only if every
/// tier said so; a failure means that a tier failed. A write is made of the
/// tiers' answers as [`written`] says. A removal tells whether any tier held the
/// key, for a batch key by key, unless a tier failed: then exactly the failures
/// are told.
pub proof fn law_routers_answer_as_their_tiers_did<T>(
    before: Router<T>,
    after: Router<T>,
    call: Call<T::Key, T::Value, RouterError<T::Error>>,
) where T: TierRead + TierWrite, T::Key: Clone, T::Value: Clone
    requires
        Router::<T>::promised(before, after, call),
    ensures
        after.shape() == before.shape(),
        ({
            let shape = before.shape();
            let trace = after.since(before);
            match call {
                Call::Get { key, found: Ok(Some(value)) } => got(trace, key, value),
                Call::Get { key, found } => {
                    &&& forall|value: T::Value| !#[trigger] got(trace, key, value)
                    &&& found is Err <==> stumbled(trace)
                    &&& found is Ok ==> trace.len() == shape.read_only.len()
                },
                Call::Exists { key, present: Ok(true) } => seen(trace, key),
                Call::Exists { key, present } => {
                    &&& !seen(trace, key)
                    &&& present is Err <==> stumbled(trace)
                    &&& present is Ok ==> trace.len() == shape.read_only.len()
                },
                Call::GetMany { keys, values } => replay::gathered(shape, keys, trace) matches Some(
                    (rest, report),
                ) && rest.len() == 0 && match (report, values) {
                    (Ok((statuses, _)), Ok(values)) => values.len() == statuses.len() && forall|
                        i: int,
                    |
                        0 <= i < values.len() ==> match #[trigger] statuses[i] {
                            KeyStatus::Hit { value, .. } => values[i] == Some(value),
                            KeyStatus::Miss => values[i] is None,
                            KeyStatus::Inconclusive => false,
                        },
                    (Ok((statuses, failures)), Err(error)) => error@ == Fault::Inconclusive(
                        failures,
                    ) && exists|i: int|
                        0 <= i < statuses.len() && #[trigger] statuses[i] is Inconclusive,
                    (Err(fault), Err(error)) => error@ == fault,
                    _ => false,
                },
                Call::Put { key, value, displaced: Ok(out) } => written(
                    shape,
                    Write::One { key, value },
                    trace,
                    Ok(out),
                ),
                Call::Put { key, value, displaced: Err(error) } => written(
                    shape,
                    Write::One { key, value },
                    trace,
                    Err(error@),
                ),
                Call::PutMany { entries, displaced: Ok(out) } => written(
                    shape,
                    Write::Many { entries },
                    trace,
                    Ok(out),
                ),
                Call::PutMany { entries, displaced: Err(error) } => written(
                    shape,
                    Write::Many { entries },
                    trace,
                    Err(error@),
                ),
                Call::Delete { key, removed: Ok(existed) } => {
                    &&& !stumbled(trace)
                    &&& existed <==> dropped(trace, key)
                },
                Call::Delete { key, removed: Err(error) } => {
                    &&& stumbled(trace)
                    &&& error@ == Fault::Partial(troubles(shape, trace))
                },
                Call::DeleteMany { keys, flags: Ok(removed) } => {
                    &&& !stumbled(trace)
                    &&& removed.len() == keys.len()
                    &&& forall|i: int|
                        0 <= i < keys.len() ==> (#[trigger] removed[i] <==> dropped_at(trace, i))
                },
                Call::DeleteMany { keys, flags: Err(error) } => {
                    &&& stumbled(trace)
                    &&& error@ == Fault::Partial(troubles(shape, trace))
                },
            }
        }),
{
    let shape = before.shape();
    let trace = after.since(before);
    lemma_stumbled(shape, trace);
    match call {
        Call::Get { key, found } => {
            let told = error::answer(found);
            let probes = law_reads_tell_what_the_tiers_said(shape, key, trace, told);
            if probes > 0 {
                assert(trace[probes - 1].tier == probes - 1);
            }
        },
        Call::Exists { key, present } => {
            let told = error::answer(present);
            law_existence_checks_tell_what_the_tiers_said(shape, key, trace, told);
            if trace.len() > 0 {
                assert(trace.last() == trace[trace.len() - 1]);
            }
        },
        Call::GetMany { keys, values } => {
            let report = (replay::gathered(shape, keys, trace)->0).1;
            law_plain_batches_stand_or_fall_together(report);
        },
        Call::Put { key, value, displaced } => {
            let told = error::answer(displaced);
            law_writes_tell_what_the_tiers_said(shape, Write::One { key, value }, trace, told);
        },
        Call::PutMany { entries, displaced } => {
            let told = error::answer(displaced);
            law_writes_tell_what_the_tiers_said(shape, Write::Many { entries }, trace, told);
        },
        Call::Delete { key, removed } => {
            let told = error::answer(removed);
            law_removals_tell_what_the_tiers_said(shape, key, trace, told);
        },
        Call::DeleteMany { keys, flags } => {
            let (removed, failures) = (replay::cleared(shape, keys, trace)->0).1;
            law_removal_flags_join_all_answers(shape, keys, trace, removed, failures);
        },
    }
}

} // verus!
