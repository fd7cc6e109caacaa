//! What a router does whatever its tiers answer.
//!
//! The laws of this module follow from the contracts of
//! [`Router`](crate::router::Router) for every possible behaviour of the tiers.

use vstd::prelude::*;

use crate::error::{Failure, Fault};
use crate::laws;
use crate::policy::{OnReadError, OnWriteError, Promote, WriteMode};
use crate::read;
use crate::replay;
use crate::replay::{Over, Removal, Shape, Write};
use crate::report::KeyStatus;
use crate::stack::Event;
use crate::tier::Call;

verus! {

/// The calls of `trace` that come before `rest`.
pub open spec fn used<K, V, E>(
    trace: Seq<Event<K, V, E>>,
    rest: Seq<Event<K, V, E>>,
) -> Seq<Event<K, V, E>> {
    trace.take(trace.len() - rest.len())
}

/// Whether only writable tiers are asked to change their contents.
pub open spec fn spares_read_only<K, V, E>(shape: Shape, events: Seq<Event<K, V, E>>) -> bool {
    forall|i: int|
        0 <= i < events.len() && (#[trigger] events[i]).call.writes() ==> shape.writable(
            events[i].tier,
        )
}

/// `rest` ends `trace`, and no read-only tier was written before it.
spec fn spared<K, V, E>(
    shape: Shape,
    trace: Seq<Event<K, V, E>>,
    rest: Seq<Event<K, V, E>>,
) -> bool {
    &&& rest.len() <= trace.len()
    &&& rest == trace.skip(trace.len() - rest.len())
    &&& spares_read_only(shape, used(trace, rest))
}

proof fn lemma_spared_none<K, V, E>(shape: Shape, trace: Seq<Event<K, V, E>>)
    ensures
        spared(shape, trace, trace),
{
    assert(trace.skip(0) =~= trace);
}

proof fn lemma_spared_first<K, V, E>(
    shape: Shape,
    trace: Seq<Event<K, V, E>>,
    rest: Seq<Event<K, V, E>>,
)
    requires
        trace.len() > 0,
        trace[0].call.writes() ==> shape.writable(trace[0].tier),
        spared(shape, trace.skip(1), rest),
    ensures
        spared(shape, trace, rest),
{
    let tail = trace.skip(1);
    assert(tail.skip(tail.len() - rest.len()) =~= trace.skip(trace.len() - rest.len()));
    assert forall|i: int|
        0 <= i < used(trace, rest).len() && (
        #[trigger] used(trace, rest)[i]).call.writes() implies shape.writable(
        used(trace, rest)[i].tier,
    ) by {
        if i > 0 {
            assert(used(tail, rest)[i - 1] == used(trace, rest)[i]);
        }
    }
}

proof fn lemma_spared_chain<K, V, E>(
    shape: Shape,
    trace: Seq<Event<K, V, E>>,
    mid: Seq<Event<K, V, E>>,
    rest: Seq<Event<K, V, E>>,
)
    requires
        spared(shape, trace, mid),
        spared(shape, mid, rest),
    ensures
        spared(shape, trace, rest),
{
    assert(mid.skip(mid.len() - rest.len()) =~= trace.skip(trace.len() - rest.len()));
    let split = trace.len() - mid.len();
    assert forall|i: int|
        0 <= i < used(trace, rest).len() && (
        #[trigger] used(trace, rest)[i]).call.writes() implies shape.writable(
        used(trace, rest)[i].tier,
    ) by {
        if i < split {
            assert(used(trace, mid)[i] == used(trace, rest)[i]);
        } else {
            assert(used(mid, rest)[i - split] == used(trace, rest)[i]);
        }
    }
}

proof fn lemma_poured_spares<K: Clone, V: Clone, E>(
    shape: Shape,
    target: nat,
    entries: Seq<(K, V)>,
    over: Over<K, V>,
    trace: Seq<Event<K, V, E>>,
)
    requires
        shape.writable(target),
        replay::poured(target, entries, over, trace) is Some,
    ensures
        spared(shape, trace, (replay::poured(target, entries, over, trace)->0).0),
    decreases entries.len(),
{
    if entries.len() == 0 {
        lemma_spared_none(shape, trace);
    } else {
        let more = over.after(entries[0], trace[0].call->Put_displaced);
        lemma_poured_spares(shape, target, entries.skip(1), more, trace.skip(1));
        lemma_spared_first(
            shape,
            trace,
            (replay::poured(target, entries, over, trace)->0).0,
        );
    }
}

proof fn lemma_demoted_spares<K: Clone, V: Clone, E>(
    shape: Shape,
    target: nat,
    entries: Seq<(K, V)>,
    trace: Seq<Event<K, V, E>>,
)
    requires
        replay::demoted(shape, target, entries, trace) is Some,
    ensures
        spared(shape, trace, (replay::demoted(shape, target, entries, trace)->0).0),
    decreases shape.tiers() - target,
{
    if target >= shape.tiers() || entries.len() == 0 {
        lemma_spared_none(shape, trace);
    } else if !shape.writable(target) {
        lemma_demoted_spares(shape, target + 1, entries, trace);
    } else {
        let (mid, over) = replay::poured(target, entries, Over::none(), trace)->0;
        lemma_poured_spares(shape, target, entries, Over::none(), trace);
        lemma_demoted_spares(shape, target + 1, over.displaced, mid);
        lemma_spared_chain(
            shape,
            trace,
            mid,
            (replay::demoted(shape, target, entries, trace)->0).0,
        );
    }
}

proof fn lemma_filled_spares<K: Clone, V: Clone, E>(
    shape: Shape,
    write: Write<K, V>,
    target: nat,
    end: nat,
    trace: Seq<Event<K, V, E>>,
)
    requires
        replay::filled(shape, write, target, end, trace) is Some,
    ensures
        spared(shape, trace, replay::filled(shape, write, target, end, trace)->0),
    decreases end - target,
{
    let rest = replay::filled(shape, write, target, end, trace)->0;
    if target >= end {
        lemma_spared_none(shape, trace);
    } else if !shape.writable(target) {
        lemma_filled_spares(shape, write, target + 1, end, trace);
    } else {
        match replay::accepted(write, trace[0].call)->0 {
            Ok(displaced) if shape.policy.demote_displaced && displaced.len() > 0 => {
                let mid = (replay::demoted(shape, target + 1, displaced, trace.skip(1))->0).0;
                lemma_demoted_spares(shape, target + 1, displaced, trace.skip(1));
                lemma_filled_spares(shape, write, target + 1, end, mid);
                lemma_spared_chain(shape, trace.skip(1), mid, rest);
                lemma_spared_first(shape, trace, rest);
            },
            _ => {
                lemma_filled_spares(shape, write, target + 1, end, trace.skip(1));
                lemma_spared_first(shape, trace, rest);
            },
        }
    }
}

proof fn lemma_read_spares<K: Clone, V: Clone, E>(
    shape: Shape,
    key: K,
    tier: nat,
    failures: Seq<Failure<E>>,
    trace: Seq<Event<K, V, E>>,
)
    requires
        replay::read_from(shape, key, tier, failures, trace) is Some,
    ensures
        spared(shape, trace, (replay::read_from(shape, key, tier, failures, trace)->0).0),
    decreases shape.tiers() - tier,
{
    if tier >= shape.tiers() {
        lemma_spared_none(shape, trace);
    } else {
        let rest = (replay::read_from(shape, key, tier, failures, trace)->0).0;
        match trace[0].call->Get_found {
            Ok(Some(value)) => {
                lemma_filled_spares(
                    shape,
                    Write::One { key, value },
                    0,
                    read::promotions(shape.policy.read, tier),
                    trace.skip(1),
                );
            },
            Ok(None) => {
                lemma_read_spares(shape, key, tier + 1, failures, trace.skip(1));
            },
            Err(source) => {
                if shape.policy.read.on_error == OnReadError::FailFast {
                    lemma_spared_none(shape, trace.skip(1));
                } else {
                    lemma_read_spares(
                        shape,
                        key,
                        tier + 1,
                        failures.push(shape.failure(tier, source)),
                        trace.skip(1),
                    );
                }
            },
        }
        lemma_spared_first(shape, trace, rest);
    }
}

proof fn lemma_promoted_spares<K: Clone, V: Clone, E>(
    shape: Shape,
    keys: Seq<K>,
    statuses: Seq<KeyStatus<V>>,
    tier: nat,
    trace: Seq<Event<K, V, E>>,
)
    requires
        replay::promoted_from(shape, keys, statuses, tier, trace) is Some,
    ensures
        spared(shape, trace, replay::promoted_from(shape, keys, statuses, tier, trace)->0),
    decreases shape.tiers() - tier,
{
    if tier >= shape.tiers() || shape.policy.read.promote == Promote::Never {
        lemma_spared_none(shape, trace);
    } else {
        let entries = replay::hits_of(keys, statuses, tier, keys.len());
        if entries.len() == 0 {
            lemma_promoted_spares(shape, keys, statuses, tier + 1, trace);
        } else {
            let write = Write::Many { entries };
            let end = read::promotions(shape.policy.read, tier);
            let mid = replay::filled(shape, write, 0, end, trace)->0;
            lemma_filled_spares(shape, write, 0, end, trace);
            lemma_promoted_spares(shape, keys, statuses, tier + 1, mid);
            lemma_spared_chain(
                shape,
                trace,
                mid,
                replay::promoted_from(shape, keys, statuses, tier, trace)->0,
            );
        }
    }
}

proof fn lemma_gathered_spares<K: Clone, V: Clone, E>(
    shape: Shape,
    keys: Seq<K>,
    tier: nat,
    statuses: Seq<KeyStatus<V>>,
    unresolved: Seq<usize>,
    failures: Seq<Failure<E>>,
    trace: Seq<Event<K, V, E>>,
)
    requires
        replay::gathered_from(
            shape,
            keys,
            tier,
            statuses,
            unresolved,
            failures,
            trace,
        ) is Some,
    ensures
        spared(
            shape,
            trace,
            (replay::gathered_from(
                shape,
                keys,
                tier,
                statuses,
                unresolved,
                failures,
                trace,
            )->0).0,
        ),
    decreases shape.tiers() - tier,
{
    let rest = (replay::gathered_from(
        shape,
        keys,
        tier,
        statuses,
        unresolved,
        failures,
        trace,
    )->0).0;
    if tier >= shape.tiers() || unresolved.len() == 0 {
        lemma_promoted_spares(
            shape,
            keys,
            replay::concluded(statuses, unresolved, failures),
            1,
            trace,
        );
    } else {
        match trace[0].call->GetMany_values {
            Ok(found) => {
                let count = if found.len() < unresolved.len() {
                    found.len()
                } else {
                    unresolved.len()
                };
                let (known, missing) = replay::resolved(statuses, unresolved, found, tier, count);
                lemma_gathered_spares(
                    shape,
                    keys,
                    tier + 1,
                    known,
                    missing,
                    failures,
                    trace.skip(1),
                );
            },
            Err(source) => {
                if shape.policy.read.on_error == OnReadError::FailFast {
                    lemma_spared_none(shape, trace.skip(1));
                } else {
                    lemma_gathered_spares(
                        shape,
                        keys,
                        tier + 1,
                        statuses,
                        unresolved,
                        failures.push(shape.failure(tier, source)),
                        trace.skip(1),
                    );
                }
            },
        }
        lemma_spared_first(shape, trace, rest);
    }
}

proof fn lemma_wrote_through_spares<K: Clone, V: Clone, E>(
    shape: Shape,
    write: Write<K, V>,
    left: nat,
    evicted: Seq<(K, V)>,
    trace: Seq<Event<K, V, E>>,
)
    requires
        replay::wrote_through(shape, write, left, evicted, trace) is Some,
    ensures
        spared(shape, trace, (replay::wrote_through(shape, write, left, evicted, trace)->0).0),
    decreases left,
{
    let rest = (replay::wrote_through(shape, write, left, evicted, trace)->0).0;
    if left == 0 {
        lemma_spared_none(shape, trace);
    } else {
        let tier = (left - 1) as nat;
        if !shape.writable(tier) {
            lemma_wrote_through_spares(shape, write, tier, evicted, trace);
        } else {
            match replay::accepted(write, trace[0].call)->0 {
                Ok(displaced) => {
                    if !shape.policy.demote_displaced {
                        lemma_wrote_through_spares(
                            shape,
                            write,
                            tier,
                            evicted + displaced,
                            trace.skip(1),
                        );
                    } else {
                        let (mid, lost) = replay::demoted(
                            shape,
                            tier + 1,
                            displaced,
                            trace.skip(1),
                        )->0;
                        lemma_demoted_spares(shape, tier + 1, displaced, trace.skip(1));
                        lemma_wrote_through_spares(shape, write, tier, evicted + lost, mid);
                        lemma_spared_chain(shape, trace.skip(1), mid, rest);
                    }
                },
                Err(_) => {
                    if rest == trace.skip(1) {
                        lemma_spared_none(shape, trace.skip(1));
                    } else {
                        lemma_wrote_through_spares(shape, write, tier, evicted, trace.skip(1));
                    }
                },
            }
            lemma_spared_first(shape, trace, rest);
        }
    }
}

proof fn lemma_invalidated_spares<K, V, E>(
    shape: Shape,
    keys: Removal<K>,
    tier: nat,
    end: nat,
    failures: Seq<Failure<E>>,
    trace: Seq<Event<K, V, E>>,
)
    requires
        replay::invalidated(shape, keys, tier, end, failures, trace) is Some,
    ensures
        spared(shape, trace, (replay::invalidated(shape, keys, tier, end, failures, trace)->0).0),
    decreases end - tier,
{
    if tier >= end {
        lemma_spared_none(shape, trace);
    } else if !shape.writable(tier) {
        lemma_invalidated_spares(shape, keys, tier + 1, end, failures, trace);
    } else {
        let failures_after = match replay::revoked(keys, trace[0].call)->0 {
            None => failures,
            Some(source) => failures.push(shape.failure(tier, source)),
        };
        lemma_invalidated_spares(shape, keys, tier + 1, end, failures_after, trace.skip(1));
        lemma_spared_first(
            shape,
            trace,
            (replay::invalidated(shape, keys, tier, end, failures, trace)->0).0,
        );
    }
}

proof fn lemma_removed_spares<K, V, E>(
    shape: Shape,
    key: K,
    tier: nat,
    existed: bool,
    failures: Seq<Failure<E>>,
    trace: Seq<Event<K, V, E>>,
)
    requires
        replay::removed_from(shape, key, tier, existed, failures, trace) is Some,
    ensures
        spared(
            shape,
            trace,
            (replay::removed_from(shape, key, tier, existed, failures, trace)->0).0,
        ),
    decreases shape.tiers() - tier,
{
    if tier >= shape.tiers() {
        lemma_spared_none(shape, trace);
    } else if !shape.writable(tier) {
        lemma_removed_spares(shape, key, tier + 1, existed, failures, trace);
    } else {
        match trace[0].call->Delete_removed {
            Ok(present) => lemma_removed_spares(
                shape,
                key,
                tier + 1,
                existed || present,
                failures,
                trace.skip(1),
            ),
            Err(source) => lemma_removed_spares(
                shape,
                key,
                tier + 1,
                existed,
                failures.push(shape.failure(tier, source)),
                trace.skip(1),
            ),
        }
        lemma_spared_first(
            shape,
            trace,
            (replay::removed_from(shape, key, tier, existed, failures, trace)->0).0,
        );
    }
}

proof fn lemma_cleared_spares<K, V, E>(
    shape: Shape,
    keys: Seq<K>,
    tier: nat,
    removed: Seq<bool>,
    failures: Seq<Failure<E>>,
    trace: Seq<Event<K, V, E>>,
)
    requires
        replay::cleared_from(shape, keys, tier, removed, failures, trace) is Some,
    ensures
        spared(
            shape,
            trace,
            (replay::cleared_from(shape, keys, tier, removed, failures, trace)->0).0,
        ),
    decreases shape.tiers() - tier,
{
    if tier >= shape.tiers() {
        lemma_spared_none(shape, trace);
    } else if !shape.writable(tier) {
        lemma_cleared_spares(shape, keys, tier + 1, removed, failures, trace);
    } else {
        match trace[0].call->DeleteMany_flags {
            Ok(flags) => lemma_cleared_spares(
                shape,
                keys,
                tier + 1,
                replay::joined(removed, flags),
                failures,
                trace.skip(1),
            ),
            Err(source) => lemma_cleared_spares(
                shape,
                keys,
                tier + 1,
                removed,
                failures.push(shape.failure(tier, source)),
                trace.skip(1),
            ),
        }
        lemma_spared_first(
            shape,
            trace,
            (replay::cleared_from(shape, keys, tier, removed, failures, trace)->0).0,
        );
    }
}

/// A read-only tier is never written, whatever the router is asked to do and
/// whatever the tiers answer: neither by a read (which promotes and demotes),
/// nor by a batched read, a write or a removal.
pub proof fn law_read_only_tiers_are_never_written<K: Clone, V: Clone, E>(
    shape: Shape,
    key: K,
    keys: Seq<K>,
    write: Write<K, V>,
    trace: Seq<Event<K, V, E>>,
)
    ensures
        replay::read_from(shape, key, 0, Seq::empty(), trace) matches Some((rest, _))
            && rest.len() == 0 ==> spares_read_only(shape, trace),
        replay::gathered(shape, keys, trace) matches Some((rest, _)) && rest.len() == 0
            ==> spares_read_only(shape, trace),
        replay::wrote(shape, write, trace) matches Some((rest, _)) && rest.len() == 0
            ==> spares_read_only(shape, trace),
        replay::removed_from(shape, key, 0, false, Seq::empty(), trace) matches Some((rest, _))
            && rest.len() == 0 ==> spares_read_only(shape, trace),
        replay::cleared(shape, keys, trace) matches Some((rest, _)) && rest.len() == 0
            ==> spares_read_only(shape, trace),
{
    assert(forall|rest: Seq<Event<K, V, E>>|
        rest.len() == 0 && #[trigger] spared(shape, trace, rest) ==> used(trace, rest) =~= trace);
    if replay::read_from(shape, key, 0, Seq::empty(), trace) is Some {
        lemma_read_spares(shape, key, 0, Seq::empty(), trace);
    }
    if replay::gathered(shape, keys, trace) is Some {
        lemma_gathered_spares(
            shape,
            keys,
            0,
            Seq::new(keys.len(), |i: int| KeyStatus::Miss),
            Seq::new(keys.len(), |i: int| i as usize),
            Seq::empty(),
            trace,
        );
    }
    if replay::wrote(shape, write, trace) is Some {
        replay::lemma_bottom(shape, shape.tiers());
        match shape.bottom(shape.tiers()) {
            None => {
                lemma_spared_none(shape, trace);
            },
            Some(bottom) => match shape.policy.write {
                WriteMode::WriteThrough => {
                    lemma_wrote_through_spares(shape, write, shape.tiers(), Seq::empty(), trace);
                },
                WriteMode::WriteAround => {
                    let rest = (replay::wrote(shape, write, trace)->0).0;
                    if replay::accepted(write, trace[0].call)->0 is Ok {
                        lemma_invalidated_spares(
                            shape,
                            write.keys(),
                            0,
                            bottom,
                            Seq::<Failure<E>>::empty(),
                            trace.skip(1),
                        );
                    } else {
                        lemma_spared_none(shape, trace.skip(1));
                    }
                    lemma_spared_first(shape, trace, rest);
                },
            },
        }
    }
    if replay::removed_from(shape, key, 0, false, Seq::empty(), trace) is Some {
        lemma_removed_spares(shape, key, 0, false, Seq::empty(), trace);
    }
    if replay::cleared(shape, keys, trace) is Some {
        lemma_cleared_spares(
            shape,
            keys,
            0,
            Seq::new(keys.len(), |i: int| false),
            Seq::empty(),
            trace,
        );
    }
}

/// Honest misses: a read returns `Ok(None)` exactly when every tier was asked
/// for the key and answered that it does not hold it.
pub proof fn law_routed_miss_is_confirmed<K: Clone, V: Clone, E>(
    shape: Shape,
    key: K,
    tier: nat,
    failures: Seq<Failure<E>>,
    trace: Seq<Event<K, V, E>>,
    found: Result<Option<V>, Fault<E>>,
)
    requires
        tier <= shape.tiers(),
        replay::read_from(shape, key, tier, failures, trace) == Some(
            (Seq::<Event<K, V, E>>::empty(), found),
        ),
    ensures
        found == Ok::<Option<V>, Fault<E>>(None) <==> {
            &&& failures.len() == 0
            &&& trace =~= Seq::new(
                (shape.tiers() - tier) as nat,
                |i: int|
                    Event {
                        tier: (tier + i) as nat,
                        call: Call::<K, V, E>::Get { key, found: Ok(None) },
                    },
            )
        },
    decreases shape.tiers() - tier,
{
    let misses = |from: nat|
        Seq::new(
            (shape.tiers() - from) as nat,
            |i: int|
                Event {
                    tier: (from + i) as nat,
                    call: Call::<K, V, E>::Get { key, found: Ok(None) },
                },
        );
    if tier < shape.tiers() {
        let first = Event { tier, call: Call::<K, V, E>::Get { key, found: Ok(None) } };
        assert(misses(tier)[0] == first);
        assert(misses(tier).skip(1) =~= misses(tier + 1));
        assert(trace =~= seq![trace[0]] + trace.skip(1));
        assert(misses(tier) =~= seq![first] + misses(tier + 1));
        match trace[0].call->Get_found {
            Ok(Some(_)) => {},
            Ok(None) => {
                law_routed_miss_is_confirmed(
                    shape,
                    key,
                    tier + 1,
                    failures,
                    trace.skip(1),
                    found,
                );
            },
            Err(source) => {
                if shape.policy.read.on_error == OnReadError::FallThrough {
                    law_routed_miss_is_confirmed(
                        shape,
                        key,
                        tier + 1,
                        failures.push(shape.failure(tier, source)),
                        trace.skip(1),
                        found,
                    );
                }
            },
        }
    }
}

/// Only a hit is promoted: a read that does not return a value has asked for
/// the key and done nothing else. In particular a value that a tier refuses to
/// release is never copied upward.
pub proof fn law_only_hits_are_promoted<K: Clone, V: Clone, E>(
    shape: Shape,
    key: K,
    tier: nat,
    failures: Seq<Failure<E>>,
    trace: Seq<Event<K, V, E>>,
    found: Result<Option<V>, Fault<E>>,
)
    requires
        replay::read_from(shape, key, tier, failures, trace) == Some(
            (Seq::<Event<K, V, E>>::empty(), found),
        ),
        !(found matches Ok(Some(_))),
    ensures
        forall|i: int| 0 <= i < trace.len() ==> (#[trigger] trace[i]).call is Get,
    decreases shape.tiers() - tier,
{
    if tier < shape.tiers() {
        match trace[0].call->Get_found {
            Ok(None) => {
                law_only_hits_are_promoted(shape, key, tier + 1, failures, trace.skip(1), found);
            },
            Err(source) => {
                if shape.policy.read.on_error == OnReadError::FallThrough {
                    law_only_hits_are_promoted(
                        shape,
                        key,
                        tier + 1,
                        failures.push(shape.failure(tier, source)),
                        trace.skip(1),
                        found,
                    );
                }
            },
            _ => {},
        }
        assert forall|i: int| 0 <= i < trace.len() implies (#[trigger] trace[i]).call is Get by {
            if i > 0 {
                assert(trace.skip(1)[i - 1].call is Get);
            }
        }
    }
}

/// Fail-fast reads do not serve around failures: the first tier that fails
/// ends the read, and is what the caller is told.
pub proof fn law_fail_fast_surfaces_the_failing_tier<K: Clone, V: Clone, E>(
    shape: Shape,
    key: K,
    tier: nat,
    failures: Seq<Failure<E>>,
    trace: Seq<Event<K, V, E>>,
    found: Result<Option<V>, Fault<E>>,
    i: int,
)
    requires
        shape.policy.read.on_error == OnReadError::FailFast,
        replay::read_from(shape, key, tier, failures, trace) == Some(
            (Seq::<Event<K, V, E>>::empty(), found),
        ),
        0 <= i < trace.len(),
        trace[i].call is Get,
        trace[i].call.failed(),
    ensures
        i == trace.len() - 1,
        found == Err::<Option<V>, _>(
            Fault::Tier(shape.failure(trace[i].tier, trace[i].call->Get_found->Err_0)),
        ),
    decreases shape.tiers() - tier,
{
    if tier < shape.tiers() {
        match trace[0].call->Get_found {
            Ok(Some(value)) => {
                let write = Write::One { key, value };
                let end = read::promotions(shape.policy.read, tier);
                lemma_filled_writes(shape, write, 0, end, trace.skip(1));
                assert(trace.skip(1)[i - 1] == trace[i]);
            },
            Ok(None) => {
                assert(trace.skip(1)[i - 1] == trace[i]);
                law_fail_fast_surfaces_the_failing_tier(
                    shape,
                    key,
                    tier + 1,
                    failures,
                    trace.skip(1),
                    found,
                    i - 1,
                );
            },
            Err(_) => {
                assert(trace.len() == 1);
            },
        }
    }
}

/// Without promotion nothing moves: a read asks for the key and does nothing
/// else.
pub proof fn law_without_promotion_nothing_moves<K: Clone, V: Clone, E>(
    shape: Shape,
    key: K,
    tier: nat,
    failures: Seq<Failure<E>>,
    trace: Seq<Event<K, V, E>>,
)
    requires
        shape.policy.read.promote == Promote::Never,
        replay::read_from(shape, key, tier, failures, trace) matches Some((rest, _))
            && rest.len() == 0,
    ensures
        forall|i: int| 0 <= i < trace.len() ==> (#[trigger] trace[i]).call is Get,
    decreases shape.tiers() - tier,
{
    if tier < shape.tiers() {
        match trace[0].call->Get_found {
            Ok(None) => {
                law_without_promotion_nothing_moves(shape, key, tier + 1, failures, trace.skip(1));
            },
            Err(source) => {
                if shape.policy.read.on_error == OnReadError::FallThrough {
                    law_without_promotion_nothing_moves(
                        shape,
                        key,
                        tier + 1,
                        failures.push(shape.failure(tier, source)),
                        trace.skip(1),
                    );
                }
            },
            _ => {},
        }
        assert forall|i: int| 0 <= i < trace.len() implies (#[trigger] trace[i]).call is Get by {
            if i > 0 {
                assert(trace.skip(1)[i - 1].call is Get);
            }
        }
    }
}

/// The calls of `trace` before `rest` are inserts.
spec fn only_writes<K, V, E>(
    trace: Seq<Event<K, V, E>>,
    rest: Seq<Event<K, V, E>>,
) -> bool {
    &&& rest.len() <= trace.len()
    &&& rest == trace.skip(trace.len() - rest.len())
    &&& forall|i: int| 0 <= i < trace.len() - rest.len() ==> (#[trigger] trace[i]).call.writes()
}

proof fn lemma_writes_first<K, V, E>(trace: Seq<Event<K, V, E>>, rest: Seq<Event<K, V, E>>)
    requires
        trace.len() > 0,
        trace[0].call.writes(),
        only_writes(trace.skip(1), rest),
    ensures
        only_writes(trace, rest),
{
    let tail = trace.skip(1);
    assert(tail.skip(tail.len() - rest.len()) =~= trace.skip(trace.len() - rest.len()));
    assert forall|i: int| 0 <= i < trace.len() - rest.len() implies (
    #[trigger] trace[i]).call.writes() by {
        if i > 0 {
            assert(tail[i - 1] == trace[i]);
        }
    }
}

proof fn lemma_writes_chain<K, V, E>(
    trace: Seq<Event<K, V, E>>,
    mid: Seq<Event<K, V, E>>,
    rest: Seq<Event<K, V, E>>,
)
    requires
        only_writes(trace, mid),
        only_writes(mid, rest),
    ensures
        only_writes(trace, rest),
{
    let split = trace.len() - mid.len();
    assert(mid.skip(mid.len() - rest.len()) =~= trace.skip(trace.len() - rest.len()));
    assert forall|i: int| 0 <= i < trace.len() - rest.len() implies (
    #[trigger] trace[i]).call.writes() by {
        if i >= split {
            assert(mid[i - split] == trace[i]);
        }
    }
}

proof fn lemma_poured_writes<K: Clone, V: Clone, E>(
    target: nat,
    entries: Seq<(K, V)>,
    over: Over<K, V>,
    trace: Seq<Event<K, V, E>>,
)
    requires
        replay::poured(target, entries, over, trace) is Some,
    ensures
        only_writes(trace, (replay::poured(target, entries, over, trace)->0).0),
    decreases entries.len(),
{
    if entries.len() == 0 {
        assert(trace.skip(0) =~= trace);
    } else {
        let more = over.after(entries[0], trace[0].call->Put_displaced);
        lemma_poured_writes(target, entries.skip(1), more, trace.skip(1));
        lemma_writes_first(trace, (replay::poured(target, entries, over, trace)->0).0);
    }
}

proof fn lemma_demoted_writes<K: Clone, V: Clone, E>(
    shape: Shape,
    target: nat,
    entries: Seq<(K, V)>,
    trace: Seq<Event<K, V, E>>,
)
    requires
        replay::demoted(shape, target, entries, trace) is Some,
    ensures
        only_writes(trace, (replay::demoted(shape, target, entries, trace)->0).0),
    decreases shape.tiers() - target,
{
    if target >= shape.tiers() || entries.len() == 0 {
        assert(trace.skip(0) =~= trace);
    } else if !shape.writable(target) {
        lemma_demoted_writes(shape, target + 1, entries, trace);
    } else {
        let (mid, over) = replay::poured(target, entries, Over::none(), trace)->0;
        lemma_poured_writes(target, entries, Over::none(), trace);
        lemma_demoted_writes(shape, target + 1, over.displaced, mid);
        lemma_writes_chain(trace, mid, (replay::demoted(shape, target, entries, trace)->0).0);
    }
}

proof fn lemma_filled_writes<K: Clone, V: Clone, E>(
    shape: Shape,
    write: Write<K, V>,
    target: nat,
    end: nat,
    trace: Seq<Event<K, V, E>>,
)
    requires
        replay::filled(shape, write, target, end, trace) is Some,
    ensures
        only_writes(trace, replay::filled(shape, write, target, end, trace)->0),
    decreases end - target,
{
    let rest = replay::filled(shape, write, target, end, trace)->0;
    if target >= end {
        assert(trace.skip(0) =~= trace);
    } else if !shape.writable(target) {
        lemma_filled_writes(shape, write, target + 1, end, trace);
    } else {
        match replay::accepted(write, trace[0].call)->0 {
            Ok(displaced) if shape.policy.demote_displaced && displaced.len() > 0 => {
                let mid = (replay::demoted(shape, target + 1, displaced, trace.skip(1))->0).0;
                lemma_demoted_writes(shape, target + 1, displaced, trace.skip(1));
                lemma_filled_writes(shape, write, target + 1, end, mid);
                lemma_writes_chain(trace.skip(1), mid, rest);
            },
            _ => {
                lemma_filled_writes(shape, write, target + 1, end, trace.skip(1));
            },
        }
        lemma_writes_first(trace, rest);
    }
}

/// Existence checks only ask: no tier is written, and nothing is promoted.
pub proof fn law_contains_only_asks<K, V, E>(
    shape: Shape,
    key: K,
    tier: nat,
    failures: Seq<Failure<E>>,
    trace: Seq<Event<K, V, E>>,
)
    requires
        replay::sought_from(shape, key, tier, failures, trace) matches Some((rest, _))
            && rest.len() == 0,
    ensures
        forall|i: int| 0 <= i < trace.len() ==> (#[trigger] trace[i]).call is Exists,
    decreases shape.tiers() - tier,
{
    if tier < shape.tiers() {
        match trace[0].call->Exists_present {
            Ok(false) => {
                law_contains_only_asks(shape, key, tier + 1, failures, trace.skip(1));
            },
            Err(source) => {
                if shape.policy.read.on_error == OnReadError::FallThrough {
                    law_contains_only_asks(
                        shape,
                        key,
                        tier + 1,
                        failures.push(shape.failure(tier, source)),
                        trace.skip(1),
                    );
                }
            },
            _ => {},
        }
        assert forall|i: int| 0 <= i < trace.len() implies (
        #[trigger] trace[i]).call is Exists by {
            if i > 0 {
                assert(trace.skip(1)[i - 1].call is Exists);
            }
        }
    }
}

/// Deletes attempt every writable tier, also after failures.
pub proof fn law_deletes_attempt_every_tier<K, V, E>(
    shape: Shape,
    key: K,
    tier: nat,
    existed: bool,
    failures: Seq<Failure<E>>,
    trace: Seq<Event<K, V, E>>,
    target: nat,
) -> (position: int)
    requires
        replay::removed_from(shape, key, tier, existed, failures, trace) matches Some((rest, _))
            && rest.len() == 0,
        tier <= target,
        shape.writable(target),
    ensures
        0 <= position < trace.len(),
        trace[position].tier == target,
        trace[position].call matches Call::Delete { key: k, .. } && k == key,
    decreases shape.tiers() - tier,
{
    if !shape.writable(tier) {
        law_deletes_attempt_every_tier(shape, key, tier + 1, existed, failures, trace, target)
    } else if tier == target {
        0
    } else {
        let position = match trace[0].call->Delete_removed {
            Ok(present) => law_deletes_attempt_every_tier(
                shape,
                key,
                tier + 1,
                existed || present,
                failures,
                trace.skip(1),
                target,
            ),
            Err(source) => law_deletes_attempt_every_tier(
                shape,
                key,
                tier + 1,
                existed,
                failures.push(shape.failure(tier, source)),
                trace.skip(1),
                target,
            ),
        };
        position + 1
    }
}

/// `rest` ends `trace`, and no tier above `top` was asked before it.
spec fn below<K, V, E>(
    top: nat,
    trace: Seq<Event<K, V, E>>,
    rest: Seq<Event<K, V, E>>,
) -> bool {
    &&& rest.len() <= trace.len()
    &&& rest == trace.skip(trace.len() - rest.len())
    &&& forall|i: int| 0 <= i < trace.len() - rest.len() ==> (#[trigger] trace[i]).tier >= top
}

proof fn lemma_below_first<K, V, E>(
    top: nat,
    trace: Seq<Event<K, V, E>>,
    rest: Seq<Event<K, V, E>>,
)
    requires
        trace.len() > 0,
        trace[0].tier >= top,
        below(top, trace.skip(1), rest),
    ensures
        below(top, trace, rest),
{
    let tail = trace.skip(1);
    assert(tail.skip(tail.len() - rest.len()) =~= trace.skip(trace.len() - rest.len()));
    assert forall|i: int| 0 <= i < trace.len() - rest.len() implies (#[trigger] trace[i]).tier
        >= top by {
        if i > 0 {
            assert(tail[i - 1] == trace[i]);
        }
    }
}

proof fn lemma_below_chain<K, V, E>(
    top: nat,
    trace: Seq<Event<K, V, E>>,
    mid: Seq<Event<K, V, E>>,
    rest: Seq<Event<K, V, E>>,
)
    requires
        below(top, trace, mid),
        below(top, mid, rest),
    ensures
        below(top, trace, rest),
{
    let split = trace.len() - mid.len();
    assert(mid.skip(mid.len() - rest.len()) =~= trace.skip(trace.len() - rest.len()));
    assert forall|i: int| 0 <= i < trace.len() - rest.len() implies (#[trigger] trace[i]).tier
        >= top by {
        if i >= split {
            assert(mid[i - split] == trace[i]);
        }
    }
}

proof fn lemma_poured_below<K: Clone, V: Clone, E>(
    top: nat,
    target: nat,
    entries: Seq<(K, V)>,
    over: Over<K, V>,
    trace: Seq<Event<K, V, E>>,
)
    requires
        top <= target,
        replay::poured(target, entries, over, trace) is Some,
    ensures
        below(top, trace, (replay::poured(target, entries, over, trace)->0).0),
    decreases entries.len(),
{
    if entries.len() == 0 {
        assert(trace.skip(0) =~= trace);
    } else {
        let more = over.after(entries[0], trace[0].call->Put_displaced);
        lemma_poured_below(top, target, entries.skip(1), more, trace.skip(1));
        lemma_below_first(top, trace, (replay::poured(target, entries, over, trace)->0).0);
    }
}

proof fn lemma_demoted_below<K: Clone, V: Clone, E>(
    shape: Shape,
    top: nat,
    target: nat,
    entries: Seq<(K, V)>,
    trace: Seq<Event<K, V, E>>,
)
    requires
        top <= target,
        replay::demoted(shape, target, entries, trace) is Some,
    ensures
        below(top, trace, (replay::demoted(shape, target, entries, trace)->0).0),
    decreases shape.tiers() - target,
{
    if target >= shape.tiers() || entries.len() == 0 {
        assert(trace.skip(0) =~= trace);
    } else if !shape.writable(target) {
        lemma_demoted_below(shape, top, target + 1, entries, trace);
    } else {
        let (mid, over) = replay::poured(target, entries, Over::none(), trace)->0;
        lemma_poured_below(top, target, entries, Over::none(), trace);
        lemma_demoted_below(shape, top, target + 1, over.displaced, mid);
        lemma_below_chain(
            top,
            trace,
            mid,
            (replay::demoted(shape, target, entries, trace)->0).0,
        );
    }
}

/// An aborted write never leaves an upper tier claiming a key that its backing
/// tiers rejected: when a write-through is aborted at some tier, no tier above
/// that one has been asked anything.
pub proof fn law_aborted_writes_touch_no_tier_above<K: Clone, V: Clone, E>(
    shape: Shape,
    write: Write<K, V>,
    left: nat,
    evicted: Seq<(K, V)>,
    trace: Seq<Event<K, V, E>>,
    failure: Failure<E>,
)
    requires
        replay::wrote_through(shape, write, left, evicted, trace) == Some(
            (Seq::<Event<K, V, E>>::empty(), Err::<Seq<(K, V)>, _>(Fault::Tier(failure))),
        ),
    ensures
        failure.tier < left,
        forall|i: int| 0 <= i < trace.len() ==> (#[trigger] trace[i]).tier >= failure.tier,
    decreases left,
{
    let none = Seq::<Event<K, V, E>>::empty();
    lemma_aborted_below(shape, write, left, evicted, trace, failure);
    assert(below(failure.tier, trace, none));
}

proof fn lemma_aborted_below<K: Clone, V: Clone, E>(
    shape: Shape,
    write: Write<K, V>,
    left: nat,
    evicted: Seq<(K, V)>,
    trace: Seq<Event<K, V, E>>,
    failure: Failure<E>,
)
    requires
        replay::wrote_through(shape, write, left, evicted, trace) matches Some((_, result))
            && result == Err::<Seq<(K, V)>, _>(Fault::Tier(failure)),
    ensures
        failure.tier < left,
        below(
            failure.tier,
            trace,
            (replay::wrote_through(shape, write, left, evicted, trace)->0).0,
        ),
    decreases left,
{
    let rest = (replay::wrote_through(shape, write, left, evicted, trace)->0).0;
    let tier = (left - 1) as nat;
    if !shape.writable(tier) {
        lemma_aborted_below(shape, write, tier, evicted, trace, failure);
    } else {
        match replay::accepted(write, trace[0].call)->0 {
            Ok(displaced) => {
                if !shape.policy.demote_displaced {
                    lemma_aborted_below(
                        shape,
                        write,
                        tier,
                        evicted + displaced,
                        trace.skip(1),
                        failure,
                    );
                } else {
                    let (mid, lost) = replay::demoted(
                        shape,
                        tier + 1,
                        displaced,
                        trace.skip(1),
                    )->0;
                    lemma_aborted_below(shape, write, tier, evicted + lost, mid, failure);
                    lemma_demoted_below(shape, failure.tier, left, displaced, trace.skip(1));
                    lemma_below_chain(failure.tier, trace.skip(1), mid, rest);
                }
            },
            Err(_) => match shape.policy.on_write_error {
                OnWriteError::Abort => {
                    assert(trace.skip(1).skip(0) =~= trace.skip(1));
                },
                OnWriteError::BestEffort => {
                    lemma_aborted_below(shape, write, tier, evicted, trace.skip(1), failure);
                },
            },
        }
        lemma_below_first(failure.tier, trace, rest);
    }
}

/// Whether tier `tier` was asked for `key` in a batch and said `answer`.
pub open spec fn says<K: Clone, V, E>(
    event: Event<K, V, E>,
    tier: nat,
    key: K,
    answer: Option<V>,
) -> bool {
    event.tier == tier && match event.call {
        Call::GetMany { keys, values: Ok(values) } => exists|slot: int|
            0 <= slot < keys.len() && slot < values.len() && cloned(key, #[trigger] keys[slot])
                && values[slot] == answer,
        _ => false,
    }
}

/// Whether tier `tier` said `answer` for `key` somewhere in `trace`.
pub open spec fn told<K: Clone, V, E>(
    trace: Seq<Event<K, V, E>>,
    tier: nat,
    key: K,
    answer: Option<V>,
) -> bool {
    exists|i: int| 0 <= i < trace.len() && says(#[trigger] trace[i], tier, key, answer)
}

/// Whether every batched lookup was answered with one slot per key.
pub open spec fn one_slot_per_key<K, V, E>(trace: Seq<Event<K, V, E>>) -> bool {
    forall|i: int|
        0 <= i < trace.len() ==> match (#[trigger] trace[i]).call {
            Call::GetMany { keys, values: Ok(values) } => values.len() == keys.len(),
            _ => true,
        }
}

proof fn lemma_told_later<K: Clone, V, E>(
    trace: Seq<Event<K, V, E>>,
    tier: nat,
    key: K,
    answer: Option<V>,
)
    requires
        trace.len() > 0,
        told(trace.skip(1), tier, key, answer),
    ensures
        told(trace, tier, key, answer),
{
    let tail = trace.skip(1);
    let i = choose|i: int| 0 <= i < tail.len() && says(#[trigger] tail[i], tier, key, answer);
    assert(trace[i + 1] == tail[i]);
}

/// The keys without an answer are exactly the unresolved ones, each once.
pub open spec fn in_step<V>(statuses: Seq<KeyStatus<V>>, unresolved: Seq<usize>) -> bool {
    &&& unresolved.no_duplicates()
    &&& forall|j: int| 0 <= j < unresolved.len() ==> #[trigger] unresolved[j] < statuses.len()
    &&& forall|i: int|
        0 <= i < statuses.len() ==> (#[trigger] statuses[i] is Miss <==> unresolved.contains(
            i as usize,
        ))
}

/// What one tier's answers do to a batched read: each answered key is a hit at
/// that tier, each denied key stays missing, and nothing else changes.
pub proof fn lemma_resolved<V>(
    statuses: Seq<KeyStatus<V>>,
    unresolved: Seq<usize>,
    found: Seq<Option<V>>,
    tier: nat,
    count: nat,
)
    requires
        in_step(statuses, unresolved),
        count <= unresolved.len(),
        count <= found.len(),
        statuses.len() <= usize::MAX,
    ensures
        ({
            let (known, missing) = replay::resolved(statuses, unresolved, found, tier, count);
            &&& known.len() == statuses.len()
            &&& missing.no_duplicates()
            &&& forall|m: int|
                0 <= m < missing.len() ==> exists|j: int|
                    0 <= j < count && unresolved[j] == #[trigger] missing[m] && found[j] is None
            &&& forall|j: int|
                #![trigger unresolved[j]]
                0 <= j < count ==> match found[j] {
                    Some(value) => known[unresolved[j] as int] == (KeyStatus::Hit {
                        tier: tier as usize,
                        value,
                    }),
                    None => missing.contains(unresolved[j]) && known[unresolved[j] as int]
                        == statuses[unresolved[j] as int],
                }
            &&& forall|i: int|
                0 <= i < statuses.len() && (forall|j: int|
                    0 <= j < count ==> #[trigger] unresolved[j] != i) ==> #[trigger] known[i]
                    == statuses[i]
        }),
    decreases count,
{
    if count > 0 {
        let last = (count - 1) as nat;
        lemma_resolved(statuses, unresolved, found, tier, last);
        let (before, held) = replay::resolved(statuses, unresolved, found, tier, last);
        let (known, missing) = replay::resolved(statuses, unresolved, found, tier, count);
        let index = unresolved[last as int];
        assert(!held.contains(index)) by {
            if held.contains(index) {
                let m = choose|m: int| 0 <= m < held.len() && held[m] == index;
                let j = choose|j: int|
                    0 <= j < last && unresolved[j] == #[trigger] held[m] && found[j] is None;
                assert(unresolved[j] == unresolved[last as int]);
            }
        }
        assert forall|m: int| 0 <= m < missing.len() implies exists|j: int|
            0 <= j < count && unresolved[j] == #[trigger] missing[m] && found[j] is None by {
            if m < held.len() {
                let j = choose|j: int|
                    0 <= j < last && unresolved[j] == #[trigger] held[m] && found[j] is None;
                assert(unresolved[j] == missing[m]);
            } else {
                assert(unresolved[last as int] == missing[m]);
            }
        }
        assert(before[index as int] == statuses[index as int]) by {
            assert forall|j: int| 0 <= j < last implies #[trigger] unresolved[j] != index by {}
        }
        assert forall|j: int|
            #![trigger unresolved[j]]
            0 <= j < count implies match found[j] {
            Some(value) => known[unresolved[j] as int] == (KeyStatus::Hit {
                tier: tier as usize,
                value,
            }),
            None => missing.contains(unresolved[j]) && known[unresolved[j] as int]
                == statuses[unresolved[j] as int],
        } by {
            if j < last {
                assert(unresolved[j] != index);
                if found[j] is None {
                    let m = choose|m: int| 0 <= m < held.len() && held[m] == unresolved[j];
                    assert(missing[m] == unresolved[j]);
                }
            } else if found[j] is None {
                assert(missing[missing.len() - 1] == index);
            }
        }
        assert forall|i: int|
            0 <= i < statuses.len() && (forall|j: int|
                0 <= j < count ==> #[trigger] unresolved[j] != i) implies #[trigger] known[i]
            == statuses[i] by {
            assert(unresolved[last as int] != i);
        }
    }
}

/// One tier's answers keep statuses and unresolved keys in step.
pub proof fn lemma_resolved_in_step<V>(
    statuses: Seq<KeyStatus<V>>,
    unresolved: Seq<usize>,
    found: Seq<Option<V>>,
    tier: nat,
)
    requires
        in_step(statuses, unresolved),
        found.len() == unresolved.len(),
        statuses.len() <= usize::MAX,
    ensures
        ({
            let (known, missing) = replay::resolved(
                statuses,
                unresolved,
                found,
                tier,
                unresolved.len(),
            );
            &&& known.len() == statuses.len()
            &&& in_step(known, missing)
        }),
{
    let count = unresolved.len();
    lemma_resolved(statuses, unresolved, found, tier, count);
    let (known, missing) = replay::resolved(statuses, unresolved, found, tier, count);
    assert forall|m: int| 0 <= m < missing.len() implies #[trigger] missing[m] < known.len() by {
        let j = choose|j: int|
            0 <= j < count && unresolved[j] == #[trigger] missing[m] && found[j] is None;
    }
    assert forall|i: int| 0 <= i < known.len() implies (#[trigger] known[i] is Miss
        <==> missing.contains(i as usize)) by {
        if unresolved.contains(i as usize) {
            let j = choose|j: int| 0 <= j < unresolved.len() && unresolved[j] == i as usize;
            assert(unresolved[j] == i);
            if missing.contains(i as usize) {
                let m = choose|m: int| 0 <= m < missing.len() && missing[m] == i as usize;
                let k = choose|k: int|
                    0 <= k < count && unresolved[k] == #[trigger] missing[m] && found[k] is None;
                assert(unresolved[k] == unresolved[j]);
            }
        } else {
            assert forall|j: int| 0 <= j < count implies #[trigger] unresolved[j] != i by {
                if unresolved[j] == i {
                    assert(unresolved.contains(unresolved[j]));
                }
            }
            if missing.contains(i as usize) {
                let m = choose|m: int| 0 <= m < missing.len() && missing[m] == i as usize;
                let k = choose|k: int|
                    0 <= k < count && unresolved[k] == #[trigger] missing[m] && found[k] is None;
                assert(unresolved[k] == i);
            }
        }
    }
}

/// What a batched read may report for a key that no tier above `tier` has
/// answered for.
pub open spec fn honest<K: Clone, V, E>(
    shape: Shape,
    key: K,
    tier: nat,
    trace: Seq<Event<K, V, E>>,
    status: KeyStatus<V>,
    failures: Seq<Failure<E>>,
) -> bool {
    match status {
        KeyStatus::Hit { tier: t, value } => tier <= t < shape.tiers() && told(
            trace,
            t as nat,
            key,
            Some(value),
        ),
        KeyStatus::Miss => failures.len() == 0 && forall|t: nat|
            tier <= t < shape.tiers() ==> #[trigger] told(trace, t, key, None::<V>),
        KeyStatus::Inconclusive => failures.len() > 0,
    }
}

proof fn lemma_gathered_honest<K: Clone, V: Clone, E>(
    shape: Shape,
    keys: Seq<K>,
    tier: nat,
    statuses: Seq<KeyStatus<V>>,
    unresolved: Seq<usize>,
    failures: Seq<Failure<E>>,
    trace: Seq<Event<K, V, E>>,
    i: int,
)
    requires
        shape.tiers() <= usize::MAX,
        keys.len() <= usize::MAX,
        statuses.len() == keys.len(),
        in_step(statuses, unresolved),
        one_slot_per_key(trace),
        0 <= i < keys.len(),
        !(statuses[i] is Inconclusive),
        replay::gathered_from(shape, keys, tier, statuses, unresolved, failures, trace)
            matches Some((_, report)) && report is Ok,
    ensures
        ({
            let (known, failed) = (replay::gathered_from(
                shape,
                keys,
                tier,
                statuses,
                unresolved,
                failures,
                trace,
            )->0).1->Ok_0;
            &&& known.len() == keys.len()
            &&& failed.len() >= failures.len()
            &&& statuses[i] is Hit ==> known[i] == statuses[i]
            &&& statuses[i] is Miss ==> honest(shape, keys[i], tier, trace, known[i], failed)
        }),
    decreases shape.tiers() - tier,
{
    let (known, failed) = (replay::gathered_from(
        shape,
        keys,
        tier,
        statuses,
        unresolved,
        failures,
        trace,
    )->0).1->Ok_0;
    if tier >= shape.tiers() || unresolved.len() == 0 {
        assert(known[i] == if failures.len() > 0 && unresolved.contains(i as usize) {
            KeyStatus::Inconclusive
        } else {
            statuses[i]
        });
    } else {
        let tail = trace.skip(1);
        let asked = trace[0].call->GetMany_keys;
        assert(one_slot_per_key(tail)) by {
            assert forall|j: int| 0 <= j < tail.len() implies match (#[trigger] tail[j]).call {
                Call::GetMany { keys, values: Ok(values) } => values.len() == keys.len(),
                _ => true,
            } by {
                assert(tail[j] == trace[j + 1]);
            }
        }
        match trace[0].call->GetMany_values {
            Ok(found) => {
                assert(found.len() == asked.len());
                let count = unresolved.len();
                lemma_resolved(statuses, unresolved, found, tier, count);
                lemma_resolved_in_step(statuses, unresolved, found, tier);
                let (now, missing) = replay::resolved(statuses, unresolved, found, tier, count);
                if statuses[i] is Miss {
                    let j = choose|j: int| 0 <= j < unresolved.len() && unresolved[j] == i as usize;
                    assert(unresolved[j] == i);
                    assert(cloned(replay::at(keys, unresolved)[j], asked[j]));
                    assert(says(trace[0], tier, keys[i], found[j]));
                    lemma_gathered_honest(
                        shape,
                        keys,
                        tier + 1,
                        now,
                        missing,
                        failures,
                        tail,
                        i,
                    );
                    match known[i] {
                        KeyStatus::Hit { tier: t, value } => {
                            if found[j] is None {
                                lemma_told_later(trace, t as nat, keys[i], Some(value));
                            }
                        },
                        KeyStatus::Miss => {
                            assert forall|t: nat| tier <= t < shape.tiers() implies #[trigger] told(
                                trace,
                                t,
                                keys[i],
                                None::<V>,
                            ) by {
                                if t > tier {
                                    lemma_told_later(trace, t, keys[i], None::<V>);
                                }
                            }
                        },
                        KeyStatus::Inconclusive => {},
                    }
                } else {
                    assert forall|j: int| 0 <= j < count implies #[trigger] unresolved[j] != i by {
                        if unresolved[j] == i {
                            assert(unresolved.contains(i as usize));
                        }
                    }
                    lemma_gathered_honest(
                        shape,
                        keys,
                        tier + 1,
                        now,
                        missing,
                        failures,
                        tail,
                        i,
                    );
                }
            },
            Err(source) => {
                lemma_gathered_honest(
                    shape,
                    keys,
                    tier + 1,
                    statuses,
                    unresolved,
                    failures.push(shape.failure(tier, source)),
                    tail,
                    i,
                );
                if statuses[i] is Miss {
                    if let KeyStatus::Hit { tier: t, value } = known[i] {
                        lemma_told_later(trace, t as nat, keys[i], Some(value));
                    }
                }
            },
        }
    }
}

/// Partial success has honest per-key statuses. A key reported as a hit was
/// answered with that value by the tier that is named; a key reported as a
/// miss was denied by every tier, and no tier failed; a key is inconclusive
/// only where a tier failed. The law asks of the tiers that they answer a
/// batched lookup with one slot per key.
pub proof fn law_batched_statuses_are_honest<K: Clone, V: Clone, E>(
    shape: Shape,
    keys: Seq<K>,
    trace: Seq<Event<K, V, E>>,
    statuses: Seq<KeyStatus<V>>,
    failures: Seq<Failure<E>>,
    i: int,
)
    requires
        shape.tiers() <= usize::MAX,
        keys.len() <= usize::MAX,
        one_slot_per_key(trace),
        replay::gathered(shape, keys, trace) == Some(
            (Seq::<Event<K, V, E>>::empty(), Ok::<_, Fault<E>>((statuses, failures))),
        ),
        0 <= i < keys.len(),
    ensures
        statuses.len() == keys.len(),
        honest(shape, keys[i], 0, trace, statuses[i], failures),
{
    let all = Seq::new(keys.len(), |j: int| j as usize);
    let none = Seq::new(keys.len(), |j: int| KeyStatus::<V>::Miss);
    assert forall|j: int| 0 <= j < none.len() implies (#[trigger] none[j] is Miss <==> all.contains(
        j as usize,
    )) by {
        assert(all[j] == j as usize);
    }
    lemma_gathered_honest(shape, keys, 0, none, all, Seq::empty(), trace, i);
}

/// Whether a batched lookup was asked for `key` and did not find it.
pub open spec fn left_open<K, V, E>(call: Call<K, V, E>, key: K) -> bool {
    match call {
        Call::GetMany { keys, values } => exists|slot: int|
            0 <= slot < keys.len() && #[trigger] keys[slot] == key && match values {
                Ok(found) => slot < found.len() && found[slot] is None,
                Err(_) => true,
            },
        _ => false,
    }
}

proof fn lemma_missing<V>(
    statuses: Seq<KeyStatus<V>>,
    unresolved: Seq<usize>,
    found: Seq<Option<V>>,
    tier: nat,
    count: nat,
    index: usize,
)
    requires
        count <= unresolved.len(),
        count <= found.len(),
        replay::resolved(statuses, unresolved, found, tier, count).1.contains(index),
    ensures
        exists|j: int| 0 <= j < count && #[trigger] unresolved[j] == index && found[j] is None,
    decreases count,
{
    let missing = replay::resolved(statuses, unresolved, found, tier, count).1;
    let m = choose|m: int| 0 <= m < missing.len() && missing[m] == index;
    if count > 0 {
        let last = (count - 1) as nat;
        let held = replay::resolved(statuses, unresolved, found, tier, last).1;
        if m < held.len() {
            assert(held[m] == index);
            lemma_missing(statuses, unresolved, found, tier, last, index);
            let j = choose|j: int|
                0 <= j < last && #[trigger] unresolved[j] == index && found[j] is None;
            assert(unresolved[j] == index);
        } else {
            assert(unresolved[last as int] == index);
        }
    }
}

proof fn lemma_promoted_writes<K: Clone, V: Clone, E>(
    shape: Shape,
    keys: Seq<K>,
    statuses: Seq<KeyStatus<V>>,
    tier: nat,
    trace: Seq<Event<K, V, E>>,
)
    requires
        replay::promoted_from(shape, keys, statuses, tier, trace) is Some,
    ensures
        only_writes(trace, replay::promoted_from(shape, keys, statuses, tier, trace)->0),
    decreases shape.tiers() - tier,
{
    let rest = replay::promoted_from(shape, keys, statuses, tier, trace)->0;
    if tier >= shape.tiers() || shape.policy.read.promote == Promote::Never {
        assert(trace.skip(0) =~= trace);
    } else {
        let entries = replay::hits_of(keys, statuses, tier, keys.len());
        if entries.len() == 0 {
            lemma_promoted_writes(shape, keys, statuses, tier + 1, trace);
        } else {
            let write = Write::Many { entries };
            let end = read::promotions(shape.policy.read, tier);
            let mid = replay::filled(shape, write, 0, end, trace)->0;
            lemma_filled_writes(shape, write, 0, end, trace);
            lemma_promoted_writes(shape, keys, statuses, tier + 1, mid);
            lemma_writes_chain(trace, mid, rest);
        }
    }
}

/// Every batched lookup of a batched read that has come to tier `tier` asks
/// that tier or one below it, for some of the keys that are unresolved there.
proof fn lemma_asked<K: Clone, V: Clone, E>(
    shape: Shape,
    keys: Seq<K>,
    tier: nat,
    statuses: Seq<KeyStatus<V>>,
    unresolved: Seq<usize>,
    failures: Seq<Failure<E>>,
    trace: Seq<Event<K, V, E>>,
    at: int,
    key: K,
)
    requires
        laws::faithful_clone::<K>(),
        replay::gathered_from(shape, keys, tier, statuses, unresolved, failures, trace)
            matches Some((rest, _)) && rest.len() == 0,
        0 <= at < trace.len(),
        trace[at].call is GetMany,
        trace[at].call->GetMany_keys.contains(key),
    ensures
        trace[at].tier >= tier,
        replay::at(keys, unresolved).contains(key),
    decreases shape.tiers() - tier,
{
    if tier >= shape.tiers() || unresolved.len() == 0 {
        lemma_promoted_writes(
            shape,
            keys,
            replay::concluded(statuses, unresolved, failures),
            1,
            trace,
        );
        assert(trace[at].call.writes());
    } else if at == 0 {
        let asked = trace[0].call->GetMany_keys;
        let wanted = replay::at(keys, unresolved);
        let j = choose|j: int| 0 <= j < asked.len() && asked[j] == key;
        assert(cloned(wanted[j], asked[j]));
        assert(wanted[j] == key);
    } else {
        let tail = trace.skip(1);
        assert(tail[at - 1] == trace[at]);
        match trace[0].call->GetMany_values {
            Ok(found) => {
                let count = if found.len() < unresolved.len() {
                    found.len()
                } else {
                    unresolved.len()
                };
                let (now, missing) = replay::resolved(statuses, unresolved, found, tier, count);
                lemma_asked(shape, keys, tier + 1, now, missing, failures, tail, at - 1, key);
                lemma_still_open(keys, statuses, unresolved, found, tier, count, key);
            },
            Err(source) => {
                lemma_asked(
                    shape,
                    keys,
                    tier + 1,
                    statuses,
                    unresolved,
                    failures.push(shape.failure(tier, source)),
                    tail,
                    at - 1,
                    key,
                );
            },
        }
    }
}

/// A key that is unresolved past a tier was unresolved there, and the tier did
/// not have it.
proof fn lemma_still_open<K, V>(
    keys: Seq<K>,
    statuses: Seq<KeyStatus<V>>,
    unresolved: Seq<usize>,
    found: Seq<Option<V>>,
    tier: nat,
    count: nat,
    key: K,
)
    requires
        count <= unresolved.len(),
        count <= found.len(),
        replay::at(keys, replay::resolved(statuses, unresolved, found, tier, count).1).contains(
            key,
        ),
    ensures
        replay::at(keys, unresolved).contains(key),
        exists|j: int|
            0 <= j < count && #[trigger] replay::at(keys, unresolved)[j] == key && found[j] is None,
{
    let missing = replay::resolved(statuses, unresolved, found, tier, count).1;
    let left = replay::at(keys, missing);
    let m = choose|m: int| 0 <= m < left.len() && left[m] == key;
    assert(missing.contains(missing[m]));
    lemma_missing(statuses, unresolved, found, tier, count, missing[m]);
    let j = choose|j: int|
        0 <= j < count && #[trigger] unresolved[j] == missing[m] && found[j] is None;
    assert(replay::at(keys, unresolved)[j] == key);
}

/// A batched read asks each lower tier for the keys that are still missing and
/// for no others: when a tier is asked for a key, every tier that was asked
/// before it stands above it, was asked for that key too, and failed or did
/// not have it.
pub proof fn law_lower_tiers_are_asked_only_for_missing_keys<K: Clone, V: Clone, E>(
    shape: Shape,
    keys: Seq<K>,
    trace: Seq<Event<K, V, E>>,
    earlier: int,
    later: int,
    key: K,
)
    requires
        laws::faithful_clone::<K>(),
        replay::gathered(shape, keys, trace) matches Some((rest, _)) && rest.len() == 0,
        0 <= earlier < later < trace.len(),
        trace[earlier].call is GetMany,
        trace[later].call is GetMany,
        trace[later].call->GetMany_keys.contains(key),
    ensures
        trace[earlier].tier < trace[later].tier,
        left_open(trace[earlier].call, key),
{
    lemma_asked_in_order(
        shape,
        keys,
        0,
        Seq::new(keys.len(), |i: int| KeyStatus::Miss),
        Seq::new(keys.len(), |i: int| i as usize),
        Seq::empty(),
        trace,
        earlier,
        later,
        key,
    );
}

proof fn lemma_asked_in_order<K: Clone, V: Clone, E>(
    shape: Shape,
    keys: Seq<K>,
    tier: nat,
    statuses: Seq<KeyStatus<V>>,
    unresolved: Seq<usize>,
    failures: Seq<Failure<E>>,
    trace: Seq<Event<K, V, E>>,
    earlier: int,
    later: int,
    key: K,
)
    requires
        laws::faithful_clone::<K>(),
        replay::gathered_from(shape, keys, tier, statuses, unresolved, failures, trace)
            matches Some((rest, _)) && rest.len() == 0,
        0 <= earlier < later < trace.len(),
        trace[earlier].call is GetMany,
        trace[later].call is GetMany,
        trace[later].call->GetMany_keys.contains(key),
    ensures
        trace[earlier].tier < trace[later].tier,
        left_open(trace[earlier].call, key),
    decreases shape.tiers() - tier,
{
    if tier >= shape.tiers() || unresolved.len() == 0 {
        lemma_promoted_writes(
            shape,
            keys,
            replay::concluded(statuses, unresolved, failures),
            1,
            trace,
        );
        assert(trace[earlier].call.writes());
    } else {
        let tail = trace.skip(1);
        let asked = trace[0].call->GetMany_keys;
        let wanted = replay::at(keys, unresolved);
        assert(tail[later - 1] == trace[later]);
        if earlier > 0 {
            assert(tail[earlier - 1] == trace[earlier]);
        }
        match trace[0].call->GetMany_values {
            Ok(found) => {
                let count = if found.len() < unresolved.len() {
                    found.len()
                } else {
                    unresolved.len()
                };
                let (now, missing) = replay::resolved(statuses, unresolved, found, tier, count);
                if earlier > 0 {
                    lemma_asked_in_order(
                        shape,
                        keys,
                        tier + 1,
                        now,
                        missing,
                        failures,
                        tail,
                        earlier - 1,
                        later - 1,
                        key,
                    );
                } else {
                    lemma_asked(
                        shape,
                        keys,
                        tier + 1,
                        now,
                        missing,
                        failures,
                        tail,
                        later - 1,
                        key,
                    );
                    lemma_still_open(keys, statuses, unresolved, found, tier, count, key);
                    let j = choose|j: int|
                        0 <= j < count && #[trigger] wanted[j] == key && found[j] is None;
                    assert(cloned(wanted[j], asked[j]));
                    assert(asked[j] == key);
                }
            },
            Err(source) => {
                let failed = failures.push(shape.failure(tier, source));
                if earlier > 0 {
                    lemma_asked_in_order(
                        shape,
                        keys,
                        tier + 1,
                        statuses,
                        unresolved,
                        failed,
                        tail,
                        earlier - 1,
                        later - 1,
                        key,
                    );
                } else {
                    lemma_asked(
                        shape,
                        keys,
                        tier + 1,
                        statuses,
                        unresolved,
                        failed,
                        tail,
                        later - 1,
                        key,
                    );
                    let j = choose|j: int| 0 <= j < wanted.len() && wanted[j] == key;
                    assert(cloned(wanted[j], asked[j]));
                    assert(asked[j] == key);
                }
            },
        }
    }
}

/// Batched deletes attempt every writable tier too, also after failures, and
/// hand each all of the keys.
pub proof fn law_batched_deletes_attempt_every_tier<K, V, E>(
    shape: Shape,
    keys: Seq<K>,
    tier: nat,
    removed: Seq<bool>,
    failures: Seq<Failure<E>>,
    trace: Seq<Event<K, V, E>>,
    target: nat,
) -> (position: int)
    requires
        replay::cleared_from(shape, keys, tier, removed, failures, trace) matches Some((rest, _))
            && rest.len() == 0,
        tier <= target,
        shape.writable(target),
    ensures
        0 <= position < trace.len(),
        trace[position].tier == target,
        trace[position].call matches Call::DeleteMany { keys: k, .. } && k == keys,
    decreases shape.tiers() - tier,
{
    if !shape.writable(tier) {
        law_batched_deletes_attempt_every_tier(
            shape,
            keys,
            tier + 1,
            removed,
            failures,
            trace,
            target,
        )
    } else if tier == target {
        0
    } else {
        let position = match trace[0].call->DeleteMany_flags {
            Ok(flags) => law_batched_deletes_attempt_every_tier(
                shape,
                keys,
                tier + 1,
                replay::joined(removed, flags),
                failures,
                trace.skip(1),
                target,
            ),
            Err(source) => law_batched_deletes_attempt_every_tier(
                shape,
                keys,
                tier + 1,
                removed,
                failures.push(shape.failure(tier, source)),
                trace.skip(1),
                target,
            ),
        };
        position + 1
    }
}

/// Partial failure of a delete is an error that names every tier that failed:
/// a surviving upper copy would resurrect the key.
pub proof fn law_partial_deletes_are_errors<K, V, E>(
    shape: Shape,
    key: K,
    tier: nat,
    existed: bool,
    failures: Seq<Failure<E>>,
    trace: Seq<Event<K, V, E>>,
    result: Result<bool, Fault<E>>,
)
    requires
        replay::removed_from(shape, key, tier, existed, failures, trace) == Some(
            (Seq::<Event<K, V, E>>::empty(), result),
        ),
    ensures
        result is Ok ==> failures.len() == 0 && forall|i: int|
            0 <= i < trace.len() ==> !(#[trigger] trace[i]).call.failed(),
        result matches Err(fault) ==> {
            &&& fault is Partial
            &&& failures.is_prefix_of(fault->Partial_0)
            &&& forall|i: int|
                0 <= i < trace.len() && (#[trigger] trace[i]).call.failed()
                    ==> fault->Partial_0.contains(
                    shape.failure(trace[i].tier, trace[i].call->Delete_removed->Err_0),
                )
        },
    decreases shape.tiers() - tier,
{
    if tier >= shape.tiers() {
    } else if !shape.writable(tier) {
        law_partial_deletes_are_errors(shape, key, tier + 1, existed, failures, trace, result);
    } else {
        let tail = trace.skip(1);
        assert(forall|i: int| 0 < i < trace.len() ==> #[trigger] trace[i] == tail[i - 1]);
        match trace[0].call->Delete_removed {
            Ok(present) => {
                law_partial_deletes_are_errors(
                    shape,
                    key,
                    tier + 1,
                    existed || present,
                    failures,
                    tail,
                    result,
                );
            },
            Err(source) => {
                let failure = shape.failure(tier, source);
                let all = failures.push(failure);
                law_partial_deletes_are_errors(
                    shape,
                    key,
                    tier + 1,
                    existed,
                    all,
                    tail,
                    result,
                );
                if let Err(fault) = result {
                    let told = fault->Partial_0;
                    assert(all == told.subrange(0, all.len() as int));
                    assert(told[failures.len() as int] == all[failures.len() as int]);
                    assert(failures.is_prefix_of(told)) by {
                        assert(failures =~= told.take(failures.len() as int));
                    }
                }
            },
        }
        assert forall|i: int| 0 <= i < trace.len() && result is Ok implies !(
        #[trigger] trace[i]).call.failed() by {
            if i > 0 {
                assert(!tail[i - 1].call.failed());
            }
        }
    }
}

proof fn lemma_invalidated<K, V, E>(
    shape: Shape,
    keys: Removal<K>,
    tier: nat,
    end: nat,
    failures: Seq<Failure<E>>,
    trace: Seq<Event<K, V, E>>,
    target: nat,
) -> (position: int)
    requires
        replay::invalidated(shape, keys, tier, end, failures, trace) is Some,
        tier <= target < end,
        shape.writable(target),
    ensures
        0 <= position < trace.len(),
        trace[position].tier == target,
        replay::revoked(keys, trace[position].call) is Some,
        failures.len() <= (replay::invalidated(shape, keys, tier, end, failures, trace)->0).1.len(),
        (replay::invalidated(shape, keys, tier, end, failures, trace)->0).1.len() == 0
            ==> replay::revoked(keys, trace[position].call) == Some(None::<E>),
    decreases end - tier,
{
    if !shape.writable(tier) {
        lemma_invalidated(shape, keys, tier + 1, end, failures, trace, target)
    } else {
        let failed = match replay::revoked(keys, trace[0].call)->0 {
            None => failures,
            Some(source) => failures.push(shape.failure(tier, source)),
        };
        if tier == target {
            lemma_invalidated_failures(shape, keys, tier + 1, end, failed, trace.skip(1));
            0
        } else {
            lemma_invalidated(shape, keys, tier + 1, end, failed, trace.skip(1), target) + 1
        }
    }
}

proof fn lemma_invalidated_failures<K, V, E>(
    shape: Shape,
    keys: Removal<K>,
    tier: nat,
    end: nat,
    failures: Seq<Failure<E>>,
    trace: Seq<Event<K, V, E>>,
)
    requires
        replay::invalidated(shape, keys, tier, end, failures, trace) is Some,
    ensures
        failures.len() <= (replay::invalidated(shape, keys, tier, end, failures, trace)->0).1.len(),
    decreases end - tier,
{
    if tier < end {
        if !shape.writable(tier) {
            lemma_invalidated_failures(shape, keys, tier + 1, end, failures, trace);
        } else {
            let failed = match replay::revoked(keys, trace[0].call)->0 {
                None => failures,
                Some(source) => failures.push(shape.failure(tier, source)),
            };
            lemma_invalidated_failures(shape, keys, tier + 1, end, failed, trace.skip(1));
        }
    }
}

/// Write-around invalidates: once the bottom tier took the write, every
/// writable tier above it is asked to drop what was written, and where the
/// write succeeds every one of them did.
pub proof fn law_write_around_invalidates<K: Clone, V: Clone, E>(
    shape: Shape,
    write: Write<K, V>,
    bottom: nat,
    trace: Seq<Event<K, V, E>>,
    result: Result<Seq<(K, V)>, Fault<E>>,
    target: nat,
) -> (position: int)
    requires
        replay::wrote_around(shape, write, bottom, trace) == Some(
            (Seq::<Event<K, V, E>>::empty(), result),
        ),
        replay::accepted(write, trace[0].call) matches Some(answer) && answer is Ok,
        target < bottom,
        shape.writable(target),
    ensures
        0 < position < trace.len(),
        trace[position].tier == target,
        replay::revoked(write.keys(), trace[position].call) is Some,
        result is Ok ==> replay::revoked(write.keys(), trace[position].call) == Some(None::<E>),
{
    lemma_invalidated(shape, write.keys(), 0, bottom, Seq::empty(), trace.skip(1), target) + 1
}

/// The entries that `call` displaced.
pub open spec fn spill<K, V, E>(call: Call<K, V, E>) -> Seq<(K, V)> {
    match call {
        Call::Put { displaced: Ok(displaced), .. } => displaced,
        Call::PutMany { displaced: Ok(displaced), .. } => displaced,
        _ => Seq::empty(),
    }
}

/// Whether `call` inserts a copy of `entry`, and is accepted.
pub open spec fn takes<K: Clone, V: Clone, E>(call: Call<K, V, E>, entry: (K, V)) -> bool {
    &&& call matches Call::Put { key, value, displaced }
    &&& displaced is Ok
    &&& cloned(entry.0, key)
    &&& cloned(entry.1, value)
}

/// Whether one of `events`, from number `from` on, takes `entry` into tier
/// `tier` or a lower one.
pub open spec fn settles<K: Clone, V: Clone, E>(
    events: Seq<Event<K, V, E>>,
    from: int,
    tier: nat,
    entry: (K, V),
) -> bool {
    exists|k: int|
        from <= k < events.len() && (#[trigger] events[k]).tier >= tier && takes(
            events[k].call,
            entry,
        )
}

/// Whether every entry that one of `events` displaces is taken into a lower
/// tier later on, or stands in `out`.
pub open spec fn accounted<K: Clone, V: Clone, E>(
    events: Seq<Event<K, V, E>>,
    out: Seq<(K, V)>,
) -> bool {
    forall|i: int, j: int|
        0 <= i < events.len() && 0 <= j < spill(events[i].call).len() ==> {
            ||| out.contains(#[trigger] spill(events[i].call)[j])
            ||| settles(events, i + 1, events[i].tier + 1, spill(events[i].call)[j])
        }
}

proof fn lemma_settles_after<K: Clone, V: Clone, E>(
    p: Seq<Event<K, V, E>>,
    q: Seq<Event<K, V, E>>,
    from: int,
    tier: nat,
    entry: (K, V),
)
    requires
        from >= 0,
        settles(q, from, tier, entry),
    ensures
        settles(p + q, p.len() + from, tier, entry),
{
    let k = choose|k: int|
        from <= k < q.len() && (#[trigger] q[k]).tier >= tier && takes(q[k].call, entry);
    assert((p + q)[p.len() + k] == q[k]);
}

proof fn lemma_settles_before<K: Clone, V: Clone, E>(
    p: Seq<Event<K, V, E>>,
    q: Seq<Event<K, V, E>>,
    from: int,
    tier: nat,
    entry: (K, V),
)
    requires
        from >= 0,
        settles(p, from, tier, entry),
    ensures
        settles(p + q, from, tier, entry),
{
    let k = choose|k: int|
        from <= k < p.len() && (#[trigger] p[k]).tier >= tier && takes(p[k].call, entry);
    assert((p + q)[k] == p[k]);
}

proof fn lemma_settles_wider<K: Clone, V: Clone, E>(
    p: Seq<Event<K, V, E>>,
    from: int,
    to: int,
    tier: nat,
    lower: nat,
    entry: (K, V),
)
    requires
        to <= from,
        tier <= lower,
        settles(p, from, lower, entry),
    ensures
        settles(p, to, tier, entry),
{
    let k = choose|k: int|
        from <= k < p.len() && (#[trigger] p[k]).tier >= lower && takes(p[k].call, entry);
    assert(p[k].tier >= tier);
}

/// What `p` leaves over is taken by `q` or stands in `out`.
proof fn lemma_accounted<K: Clone, V: Clone, E>(
    p: Seq<Event<K, V, E>>,
    q: Seq<Event<K, V, E>>,
    over: Seq<(K, V)>,
    out: Seq<(K, V)>,
    tier: nat,
)
    requires
        accounted(p, over),
        accounted(q, out),
        forall|entry: (K, V)| #[trigger]
            over.contains(entry) ==> out.contains(entry) || {
                &&& settles(q, 0, tier, entry)
                &&& forall|i: int| 0 <= i < p.len() ==> (#[trigger] p[i]).tier < tier
            },
    ensures
        accounted(p + q, out),
{
    let all = p + q;
    assert forall|i: int, j: int|
        0 <= i < all.len() && 0 <= j < spill(all[i].call).len() implies out.contains(
        #[trigger] spill(all[i].call)[j],
    ) || settles(all, i + 1, all[i].tier + 1, spill(all[i].call)[j]) by {
        let entry = spill(all[i].call)[j];
        if i < p.len() {
            assert(all[i] == p[i]);
            assert(spill(p[i].call)[j] == entry);
            if over.contains(entry) {
                if !out.contains(entry) {
                    assert(p[i].tier < tier);
                    lemma_settles_after(p, q, 0, tier, entry);
                    lemma_settles_wider(
                        all,
                        p.len() as int,
                        i + 1,
                        all[i].tier + 1,
                        tier,
                        entry,
                    );
                }
            } else {
                lemma_settles_before(p, q, i + 1, p[i].tier + 1, entry);
            }
        } else {
            let k = i - p.len();
            assert(all[i] == q[k]);
            assert(spill(q[k].call)[j] == entry);
            if !out.contains(entry) {
                lemma_settles_after(p, q, k + 1, q[k].tier + 1, entry);
            }
        }
    }
}

proof fn lemma_accounted_more<K: Clone, V: Clone, E>(
    events: Seq<Event<K, V, E>>,
    out: Seq<(K, V)>,
    more: Seq<(K, V)>,
)
    requires
        accounted(events, out),
    ensures
        accounted(events, out + more),
{
    let all = out + more;
    assert forall|i: int, j: int|
        0 <= i < events.len() && 0 <= j < spill(events[i].call).len() implies all.contains(
        #[trigger] spill(events[i].call)[j],
    ) || settles(events, i + 1, events[i].tier + 1, spill(events[i].call)[j]) by {
        let entry = spill(events[i].call)[j];
        if out.contains(entry) {
            assert(all[out.index_of(entry)] == entry);
        }
    }
}

/// A write that is taken is accepted by some tier.
proof fn lemma_taken<K: Clone, V: Clone, E>(
    shape: Shape,
    write: Write<K, V>,
    left: nat,
    evicted: Seq<(K, V)>,
    trace: Seq<Event<K, V, E>>,
) -> (i: int)
    requires
        replay::taken(shape, write, left, trace),
        replay::wrote_through(shape, write, left, evicted, trace) matches Some((_, Ok(_))),
    ensures
        0 <= i < trace.len(),
        shape.writable(trace[i].tier),
        replay::accepted(write, trace[i].call) matches Some(answer) && answer is Ok,
    decreases left,
{
    let tier = (left - 1) as nat;
    if !shape.writable(tier) {
        lemma_taken(shape, write, tier, evicted, trace)
    } else if replay::accepted(write, trace[0].call)->0 is Ok {
        0
    } else {
        lemma_taken(shape, write, tier, evicted, trace.skip(1)) + 1
    }
}

/// The calls that pour `entries` into a tier.
pub proof fn lemma_poured_part<K: Clone, V: Clone, E>(
    target: nat,
    entries: Seq<(K, V)>,
    over: Over<K, V>,
    trace: Seq<Event<K, V, E>>,
) -> (part: Seq<Event<K, V, E>>)
    requires
        replay::poured(target, entries, over, trace) is Some,
    ensures
        ({
            let (rest, out) = replay::poured(target, entries, over, trace)->0;
            &&& trace == part + rest
            &&& forall|i: int| 0 <= i < part.len() ==> (#[trigger] part[i]).tier == target
            &&& accounted(part, out.displaced)
            &&& forall|entry: (K, V)| #[trigger]
                over.displaced.contains(entry) ==> out.displaced.contains(entry)
            &&& forall|entry: (K, V)| #[trigger]
                over.refused.contains(entry) ==> out.refused.contains(entry)
            &&& forall|entry: (K, V)| #[trigger]
                entries.contains(entry) ==> out.refused.contains(entry) || settles(
                    part,
                    0,
                    target,
                    entry,
                )
        }),
    decreases entries.len(),
{
    if entries.len() == 0 {
        assert(trace =~= Seq::empty() + trace);
        Seq::empty()
    } else {
        let first = seq![trace[0]];
        let answer = trace[0].call->Put_displaced;
        let more = over.after(entries[0], answer);
        let tail = lemma_poured_part(target, entries.skip(1), more, trace.skip(1));
        let (rest, out) = replay::poured(target, entries, over, trace)->0;
        let part = first + tail;
        assert(trace =~= first + trace.skip(1));
        assert(trace =~= part + rest);
        assert forall|entry: (K, V)| #[trigger] over.displaced.contains(
            entry,
        ) implies out.displaced.contains(entry) by {
            assert(more.displaced[over.displaced.index_of(entry)] == entry);
            assert(more.displaced.contains(entry));
        }
        assert forall|entry: (K, V)| #[trigger] over.refused.contains(
            entry,
        ) implies out.refused.contains(entry) by {
            assert(more.refused[over.refused.index_of(entry)] == entry);
            assert(more.refused.contains(entry));
        }
        assert(accounted(first, out.displaced)) by {
            assert forall|i: int, j: int|
                0 <= i < first.len() && 0 <= j < spill(
                    first[i].call,
                ).len() implies out.displaced.contains(#[trigger] spill(first[i].call)[j]) by {
                let entry = spill(first[i].call)[j];
                assert(more.displaced[over.displaced.len() + j] == entry);
                assert(more.displaced.contains(entry));
            }
        }
        lemma_accounted(first, tail, out.displaced, out.displaced, 0);
        assert forall|entry: (K, V)| #[trigger] entries.contains(
            entry,
        ) implies out.refused.contains(entry) || settles(part, 0, target, entry) by {
            let i = entries.index_of(entry);
            if i == 0 {
                if answer is Ok {
                    assert(part[0] == trace[0]);
                    assert(takes(part[0].call, entry));
                } else {
                    assert(more.refused[over.refused.len() as int] == entry);
                    assert(more.refused.contains(entry));
                }
            } else {
                assert(entries.skip(1)[i - 1] == entry);
                assert(entries.skip(1).contains(entry));
                if !out.refused.contains(entry) {
                    lemma_settles_after(first, tail, 0, target, entry);
                    lemma_settles_wider(part, 1, 0, target, target, entry);
                }
            }
        }
        part
    }
}

/// The calls that demote `entries`.
pub proof fn lemma_demoted_part<K: Clone, V: Clone, E>(
    shape: Shape,
    target: nat,
    entries: Seq<(K, V)>,
    trace: Seq<Event<K, V, E>>,
) -> (part: Seq<Event<K, V, E>>)
    requires
        replay::demoted(shape, target, entries, trace) is Some,
    ensures
        ({
            let (rest, out) = replay::demoted(shape, target, entries, trace)->0;
            &&& trace == part + rest
            &&& accounted(part, out)
            &&& forall|entry: (K, V)| #[trigger]
                entries.contains(entry) ==> out.contains(entry) || settles(part, 0, target, entry)
        }),
    decreases shape.tiers() - target,
{
    if target >= shape.tiers() || entries.len() == 0 {
        assert(trace =~= Seq::empty() + trace);
        Seq::empty()
    } else if !shape.writable(target) {
        let part = lemma_demoted_part(shape, target + 1, entries, trace);
        let (rest, out) = replay::demoted(shape, target, entries, trace)->0;
        assert forall|entry: (K, V)| #[trigger] entries.contains(entry) implies out.contains(entry)
            || settles(part, 0, target, entry) by {
            if !out.contains(entry) {
                lemma_settles_wider(part, 0, 0, target, target + 1, entry);
            }
        }
        part
    } else {
        let (mid, over) = replay::poured(target, entries, Over::none(), trace)->0;
        let p = lemma_poured_part(target, entries, Over::none(), trace);
        let q = lemma_demoted_part(shape, target + 1, over.displaced, mid);
        let (rest, fallen) = replay::demoted(shape, target + 1, over.displaced, mid)->0;
        let out = over.refused + fallen;
        let part = p + q;
        assert(trace =~= part + rest);
        assert forall|entry: (K, V)| #[trigger] fallen.contains(entry) implies out.contains(
            entry,
        ) by {
            assert(out[over.refused.len() + fallen.index_of(entry)] == entry);
        }
        assert forall|entry: (K, V)| #[trigger] over.refused.contains(entry) implies out.contains(
            entry,
        ) by {
            assert(out[over.refused.index_of(entry)] == entry);
        }
        assert(accounted(q, out)) by {
            assert forall|i: int, j: int|
                0 <= i < q.len() && 0 <= j < spill(q[i].call).len() implies out.contains(
                #[trigger] spill(q[i].call)[j],
            ) || settles(q, i + 1, q[i].tier + 1, spill(q[i].call)[j]) by {
                assert(fallen.contains(spill(q[i].call)[j]) || settles(
                    q,
                    i + 1,
                    q[i].tier + 1,
                    spill(q[i].call)[j],
                ));
            }
        }
        assert forall|entry: (K, V)| #[trigger] over.displaced.contains(
            entry,
        ) implies out.contains(entry) || settles(q, 0, target + 1, entry) by {
            assert(fallen.contains(entry) || settles(q, 0, target + 1, entry));
        }
        lemma_accounted(p, q, over.displaced, out, target + 1);
        assert forall|entry: (K, V)| #[trigger] entries.contains(entry) implies out.contains(entry)
            || settles(part, 0, target, entry) by {
            if settles(p, 0, target, entry) {
                lemma_settles_before(p, q, 0, target, entry);
            } else {
                assert(over.refused.contains(entry));
            }
        }
        part
    }
}

/// Whether one of `events` writes a copy of `write` into tier `tier`, and is
/// accepted.
pub open spec fn accepts<K: Clone, V: Clone, E>(
    events: Seq<Event<K, V, E>>,
    tier: nat,
    write: Write<K, V>,
) -> bool {
    exists|i: int|
        0 <= i < events.len() && (#[trigger] events[i]).tier == tier && (replay::accepted(
            write,
            events[i].call,
        ) matches Some(answer) && answer is Ok)
}

proof fn lemma_wrote_through_part<K: Clone, V: Clone, E>(
    shape: Shape,
    write: Write<K, V>,
    left: nat,
    evicted: Seq<(K, V)>,
    trace: Seq<Event<K, V, E>>,
) -> (part: Seq<Event<K, V, E>>)
    requires
        left <= shape.tiers(),
        replay::wrote_through(shape, write, left, evicted, trace) matches Some((_, Ok(_))),
    ensures
        ({
            let (rest, result) = replay::wrote_through(shape, write, left, evicted, trace)->0;
            &&& trace == part + rest
            &&& accounted(part, result->Ok_0)
            &&& forall|entry: (K, V)| #[trigger]
                evicted.contains(entry) ==> result->Ok_0.contains(entry)
            &&& shape.policy.on_write_error == OnWriteError::Abort ==> forall|t: nat|
                t < left && #[trigger] shape.writable(t) ==> accepts(part, t, write)
        }),
    decreases left,
{
    if left == 0 {
        assert(trace =~= Seq::empty() + trace);
        Seq::empty()
    } else {
        let tier = (left - 1) as nat;
        if !shape.writable(tier) {
            lemma_wrote_through_part(shape, write, tier, evicted, trace)
        } else {
            let first = seq![trace[0]];
            let out = (replay::wrote_through(shape, write, left, evicted, trace)->0).1->Ok_0;
            let rest = (replay::wrote_through(shape, write, left, evicted, trace)->0).0;
            assert(trace =~= first + trace.skip(1));
            match replay::accepted(write, trace[0].call)->0 {
                Ok(displaced) => {
                    assert(spill(trace[0].call) == displaced);
                    let (q, lost, mid) = if !shape.policy.demote_displaced {
                        assert(trace.skip(1) =~= Seq::empty() + trace.skip(1));
                        (Seq::empty(), displaced, trace.skip(1))
                    } else {
                        let q = lemma_demoted_part(shape, left, displaced, trace.skip(1));
                        let (mid, lost) = replay::demoted(shape, left, displaced, trace.skip(1))->0;
                        (q, lost, mid)
                    };
                    assert(accounted(first, displaced)) by {
                        assert forall|i: int, j: int|
                            0 <= i < first.len() && 0 <= j < spill(
                                first[i].call,
                            ).len() implies displaced.contains(
                            #[trigger] spill(first[i].call)[j],
                        ) by {
                            assert(displaced[j] == spill(first[i].call)[j]);
                        }
                    }
                    lemma_accounted(first, q, displaced, lost, left);
                    let over = evicted + lost;
                    let tail = lemma_wrote_through_part(shape, write, tier, over, mid);
                    assert forall|entry: (K, V)| #[trigger] lost.contains(
                        entry,
                    ) implies out.contains(entry) by {
                        let i = lost.index_of(entry);
                        assert(over[evicted.len() + i] == entry);
                        assert(over.contains(entry));
                    }
                    assert forall|entry: (K, V)| #[trigger] evicted.contains(
                        entry,
                    ) implies out.contains(entry) by {
                        let i = evicted.index_of(entry);
                        assert(over[i] == entry);
                        assert(over.contains(entry));
                    }
                    lemma_accounted(first + q, tail, lost, out, 0);
                    let part = first + q + tail;
                    assert(trace =~= part + rest);
                    assert forall|t: nat|
                        shape.policy.on_write_error == OnWriteError::Abort && t < left
                            && #[trigger] shape.writable(t) implies accepts(part, t, write) by {
                        if t == tier {
                            assert(part[0] == trace[0]);
                        } else {
                            assert(accepts(tail, t, write));
                            let i = choose|i: int|
                                0 <= i < tail.len() && (#[trigger] tail[i]).tier == t && (
                                replay::accepted(write, tail[i].call) matches Some(answer)
                                    && answer is Ok);
                            assert(part[(first + q).len() + i] == tail[i]);
                        }
                    }
                    part
                },
                Err(_) => {
                    let tail = lemma_wrote_through_part(
                        shape,
                        write,
                        tier,
                        evicted,
                        trace.skip(1),
                    );
                    assert(accounted(first, out));
                    lemma_accounted(first, tail, out, out, 0);
                    assert(trace =~= first + tail + rest);
                    first + tail
                },
            }
        }
    }
}

proof fn lemma_invalidated_part<K: Clone, V: Clone, E>(
    shape: Shape,
    keys: Removal<K>,
    tier: nat,
    end: nat,
    failures: Seq<Failure<E>>,
    trace: Seq<Event<K, V, E>>,
) -> (part: Seq<Event<K, V, E>>)
    requires
        replay::invalidated(shape, keys, tier, end, failures, trace) is Some,
    ensures
        trace == part + (replay::invalidated(shape, keys, tier, end, failures, trace)->0).0,
        forall|i: int| 0 <= i < part.len() ==> spill((#[trigger] part[i]).call).len() == 0,
    decreases end - tier,
{
    if tier >= end {
        assert(trace =~= Seq::empty() + trace);
        Seq::empty()
    } else if !shape.writable(tier) {
        lemma_invalidated_part(shape, keys, tier + 1, end, failures, trace)
    } else {
        let more = match replay::revoked(keys, trace[0].call)->0 {
            None => failures,
            Some(source) => failures.push(shape.failure(tier, source)),
        };
        let tail = lemma_invalidated_part(shape, keys, tier + 1, end, more, trace.skip(1));
        let part = seq![trace[0]] + tail;
        let rest = (replay::invalidated(shape, keys, tier, end, failures, trace)->0).0;
        assert(trace =~= seq![trace[0]] + trace.skip(1));
        assert(trace =~= part + rest);
        assert forall|i: int| 0 <= i < part.len() implies spill((#[trigger] part[i]).call).len()
            == 0 by {
            if i > 0 {
                assert(part[i] == tail[i - 1]);
            }
        }
        part
    }
}

/// No entry that a write displaces is dropped, whatever the tiers answer: a
/// lower tier accepts it later in the same write, or the caller is told. Nor is
/// what is written: a tier accepts it, or it is told to the caller as well. If
/// refusals abort, every writable tier that is written through has accepted
/// it.
pub proof fn law_displaced_entries_are_kept_or_returned<K: Clone, V: Clone, E>(
    shape: Shape,
    write: Write<K, V>,
    trace: Seq<Event<K, V, E>>,
    evicted: Seq<(K, V)>,
)
    requires
        replay::wrote(shape, write, trace) == Some(
            (Seq::<Event<K, V, E>>::empty(), Ok::<_, Fault<E>>(evicted)),
        ),
    ensures
        accounted(trace, evicted),
        (exists|t: nat| #[trigger] shape.writable(t) && accepts(trace, t, write)) || forall|
            entry: (K, V),
        | #[trigger] replay::entries_of(write).contains(entry) ==> evicted.contains(entry),
        shape.policy.write is WriteThrough && shape.policy.on_write_error == OnWriteError::Abort
            ==> forall|t: nat| #[trigger] shape.writable(t) ==> accepts(trace, t, write),
        shape.policy.write is WriteAround ==> (shape.bottom(shape.tiers()) matches Some(bottom)
            && accepts(trace, bottom, write)),
{
    let bottom = shape.bottom(shape.tiers())->0;
    match shape.policy.write {
        WriteMode::WriteThrough => {
            let part = lemma_wrote_through_part(
                shape,
                write,
                shape.tiers(),
                Seq::empty(),
                trace,
            );
            assert(trace =~= part);
            let none = Seq::<(K, V)>::empty();
            let entries = replay::entries_of(write);
            if replay::taken(shape, write, shape.tiers(), trace) {
                let i = lemma_taken(shape, write, shape.tiers(), none, trace);
                assert(shape.writable(trace[i].tier) && accepts(trace, trace[i].tier, write));
            } else {
                let lost = (replay::wrote_through(
                    shape,
                    write,
                    shape.tiers(),
                    none,
                    trace,
                )->0).1->Ok_0;
                lemma_accounted_more(trace, lost, entries);
                assert forall|entry: (K, V)| #[trigger] entries.contains(
                    entry,
                ) implies evicted.contains(entry) by {
                    assert(evicted[lost.len() + entries.index_of(entry)] == entry);
                }
            }
        },
        WriteMode::WriteAround => {
            let first = seq![trace[0]];
            let tail = lemma_invalidated_part(
                shape,
                write.keys(),
                0,
                bottom,
                Seq::empty(),
                trace.skip(1),
            );
            assert(spill(trace[0].call) == evicted);
            assert(accounted(first, evicted)) by {
                assert forall|i: int, j: int|
                    0 <= i < first.len() && 0 <= j < spill(
                        first[i].call,
                    ).len() implies evicted.contains(#[trigger] spill(first[i].call)[j]) by {
                    assert(evicted[j] == spill(first[i].call)[j]);
                }
            }
            lemma_accounted(first, tail, evicted, evicted, 0);
            assert(trace =~= first + tail);
            assert(trace[0].tier == bottom);
            replay::lemma_bottom(shape, shape.tiers());
            assert(shape.writable(bottom) && accepts(trace, bottom, write));
        },
    }
}

} // verus!
