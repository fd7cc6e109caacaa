//! What a router asks of its tiers.
//!
//! The answers of a tier are not the router's to choose, but given the answers
//! everything else is determined: which tier is asked next, what it is asked,
//! and what the caller is told in the end. The functions of this module say
//! it by *replaying* a recorded trace. Each one takes the calls that an
//! operation still has to account for, checks that they begin with the calls
//! that this part of the operation makes, and yields what is left of the trace
//! together with the result. `None` means that the router would have asked
//! something else.

use vstd::prelude::*;

use crate::error::{Failure, Fault};
use crate::policy::{OnReadError, OnWriteError, Policy, Promote, WriteMode};
use crate::read;
use crate::report::KeyStatus;
use crate::stack::Event;
use crate::tier::Call;

verus! {

/// What is fixed about a router when it is built.
pub struct Shape {
    /// The tiers' names, topmost first.
    pub names: Seq<Seq<char>>,
    /// Which tiers may only be read.
    pub read_only: Seq<bool>,
    /// The routing policy.
    pub policy: Policy,
}

impl Shape {
    /// Number of tiers.
    pub open spec fn tiers(self) -> nat {
        self.read_only.len()
    }

    /// Whether tier `tier` is written to.
    pub open spec fn writable(self, tier: nat) -> bool {
        tier < self.tiers() && !self.read_only[tier as int]
    }

    /// The failure of tier `tier` with `source`.
    pub open spec fn failure<E>(self, tier: nat, source: E) -> Failure<E> {
        Failure { tier, name: self.names[tier as int], source }
    }

    /// How many tiers stand above the bottommost writable one of the first
    /// `below` tiers, or `None` if none of them is writable.
    pub open spec fn bottom(self, below: nat) -> Option<nat>
        decreases below,
    {
        if below == 0 {
            None
        } else if self.writable((below - 1) as nat) {
            Some((below - 1) as nat)
        } else {
            self.bottom((below - 1) as nat)
        }
    }
}

/// The bottommost writable tier is writable, and none below it is.
pub proof fn lemma_bottom(shape: Shape, below: nat)
    requires
        below <= shape.tiers(),
    ensures
        shape.bottom(below) matches Some(bottom) ==> {
            &&& bottom < below
            &&& shape.writable(bottom)
            &&& forall|i: nat| bottom < i < below ==> !#[trigger] shape.writable(i)
        },
        shape.bottom(below) is None ==> forall|i: nat| i < below ==> !#[trigger] shape.writable(i),
    decreases below,
{
    if below > 0 {
        lemma_bottom(shape, (below - 1) as nat);
    }
}

/// Every item of `items` cloned, in order.
pub open spec fn copies<A: Clone>(items: Seq<A>, clones: Seq<A>) -> bool {
    &&& clones.len() == items.len()
    &&& forall|i: int| 0 <= i < items.len() ==> cloned(#[trigger] items[i], clones[i])
}

/// Every key and every value of `entries` cloned, in order.
pub open spec fn copied_entries<K: Clone, V: Clone>(
    entries: Seq<(K, V)>,
    clones: Seq<(K, V)>,
) -> bool {
    &&& clones.len() == entries.len()
    &&& forall|i: int|
        0 <= i < entries.len() ==> {
            &&& cloned((#[trigger] entries[i]).0, clones[i].0)
            &&& cloned(entries[i].1, clones[i].1)
        }
}

/// Something to be written: one entry, or a batch.
pub enum Write<K, V> {
    /// One entry.
    One { key: K, value: V },
    /// A batch.
    Many { entries: Seq<(K, V)> },
}

/// Keys to be removed: one, or a batch.
pub enum Removal<K> {
    /// One key.
    One { key: K },
    /// A batch.
    Many { keys: Seq<K> },
}

impl<K, V> Write<K, V> {
    /// The keys that are written.
    pub open spec fn keys(self) -> Removal<K> {
        match self {
            Write::One { key, .. } => Removal::One { key },
            Write::Many { entries } => Removal::Many {
                keys: entries.map_values(|entry: (K, V)| entry.0),
            },
        }
    }
}

/// The entries that a write writes.
pub open spec fn entries_of<K, V>(write: Write<K, V>) -> Seq<(K, V)> {
    match write {
        Write::One { key, value } => seq![(key, value)],
        Write::Many { entries } => entries,
    }
}

/// If `call` writes a copy of `write`: what the tier answered.
pub open spec fn accepted<K: Clone, V: Clone, E>(
    write: Write<K, V>,
    call: Call<K, V, E>,
) -> Option<Result<Seq<(K, V)>, E>> {
    match (write, call) {
        (Write::One { key, value }, Call::Put { key: k, value: v, displaced }) => if cloned(key, k)
            && cloned(value, v) {
            Some(displaced)
        } else {
            None
        },
        (Write::Many { entries }, Call::PutMany { entries: e, displaced }) => if copied_entries(
            entries,
            e,
        ) {
            Some(displaced)
        } else {
            None
        },
        _ => None,
    }
}

/// If `call` removes exactly `keys`: the error, if the tier failed.
pub open spec fn revoked<K, V, E>(keys: Removal<K>, call: Call<K, V, E>) -> Option<Option<E>> {
    match (keys, call) {
        (Removal::One { key }, Call::Delete { key: k, removed }) => if k == key {
            Some(
                match removed {
                    Ok(_) => None,
                    Err(error) => Some(error),
                },
            )
        } else {
            None
        },
        (Removal::Many { keys }, Call::DeleteMany { keys: k, flags }) => if k == keys {
            Some(
                match flags {
                    Ok(_) => None,
                    Err(error) => Some(error),
                },
            )
        } else {
            None
        },
        _ => None,
    }
}

/// What is left over when entries are inserted into a tier.
pub struct Over<K, V> {
    /// What the accepted ones displaced.
    pub displaced: Seq<(K, V)>,
    /// Those that it refused.
    pub refused: Seq<(K, V)>,
}

impl<K, V> Over<K, V> {
    /// Nothing.
    pub open spec fn none() -> Self {
        Over { displaced: Seq::empty(), refused: Seq::empty() }
    }

    /// What is left over once the tier answered the insert of `entry` as well.
    pub open spec fn after<E>(self, entry: (K, V), answer: Result<Seq<(K, V)>, E>) -> Self {
        match answer {
            Ok(displaced) => Over { displaced: self.displaced + displaced, ..self },
            Err(_) => Over { refused: self.refused.push(entry), ..self },
        }
    }
}

/// Inserting copies of `entries` one by one into tier `target`, whatever it
/// answers. The result adds to `over` what is left over.
pub open spec fn poured<K: Clone, V: Clone, E>(
    target: nat,
    entries: Seq<(K, V)>,
    over: Over<K, V>,
    trace: Seq<Event<K, V, E>>,
) -> Option<(Seq<Event<K, V, E>>, Over<K, V>)>
    decreases entries.len(),
{
    if entries.len() == 0 {
        Some((trace, over))
    } else if trace.len() == 0 || trace[0].tier != target {
        None
    } else {
        match trace[0].call {
            Call::Put { key, value, displaced } => if cloned(entries[0].0, key) && cloned(
                entries[0].1,
                value,
            ) {
                poured(
                    target,
                    entries.skip(1),
                    over.after(entries[0], displaced),
                    trace.skip(1),
                )
            } else {
                None
            },
            _ => None,
        }
    }
}

/// A result of [`demoted`], with `lost` told first.
pub open spec fn told_first<K, V, E>(
    lost: Seq<(K, V)>,
    result: Option<(Seq<Event<K, V, E>>, Seq<(K, V)>)>,
) -> Option<(Seq<Event<K, V, E>>, Seq<(K, V)>)> {
    match result {
        Some((rest, out)) => Some((rest, lost + out)),
        None => None,
    }
}

/// Demotion: `entries` go into the first writable tier from `target` down; what
/// they displace there goes into the next one, and so on. The result is what a
/// tier refused on the way, and what falls off the bottom.
pub open spec fn demoted<K: Clone, V: Clone, E>(
    shape: Shape,
    target: nat,
    entries: Seq<(K, V)>,
    trace: Seq<Event<K, V, E>>,
) -> Option<(Seq<Event<K, V, E>>, Seq<(K, V)>)>
    decreases shape.tiers() - target,
{
    if target >= shape.tiers() || entries.len() == 0 {
        Some((trace, entries))
    } else if !shape.writable(target) {
        demoted(shape, target + 1, entries, trace)
    } else {
        match poured(target, entries, Over::none(), trace) {
            Some((rest, over)) => told_first(
                over.refused,
                demoted(shape, target + 1, over.displaced, rest),
            ),
            None => None,
        }
    }
}

/// Promotion: a copy of `write` goes into each writable tier from `target` up
/// to (not including) tier `end`. Whether a copy is accepted does not matter;
/// what it displaces is demoted if the policy says so.
pub open spec fn filled<K: Clone, V: Clone, E>(
    shape: Shape,
    write: Write<K, V>,
    target: nat,
    end: nat,
    trace: Seq<Event<K, V, E>>,
) -> Option<Seq<Event<K, V, E>>>
    decreases end - target,
{
    if target >= end {
        Some(trace)
    } else if !shape.writable(target) {
        filled(shape, write, target + 1, end, trace)
    } else if trace.len() == 0 || trace[0].tier != target {
        None
    } else {
        match accepted(write, trace[0].call) {
            Some(Ok(displaced)) => if shape.policy.demote_displaced && displaced.len() > 0 {
                match demoted(shape, target + 1, displaced, trace.skip(1)) {
                    Some((rest, _)) => filled(shape, write, target + 1, end, rest),
                    None => None,
                }
            } else {
                filled(shape, write, target + 1, end, trace.skip(1))
            },
            Some(Err(_)) => filled(shape, write, target + 1, end, trace.skip(1)),
            None => None,
        }
    }
}

/// A read that has come to tier `tier`, past the tiers that failed as
/// `failures` say. The tiers are asked in order until one holds the key; a
/// hit is promoted.
pub open spec fn read_from<K: Clone, V: Clone, E>(
    shape: Shape,
    key: K,
    tier: nat,
    failures: Seq<Failure<E>>,
    trace: Seq<Event<K, V, E>>,
) -> Option<(Seq<Event<K, V, E>>, Result<Option<V>, Fault<E>>)>
    decreases shape.tiers() - tier,
{
    if tier >= shape.tiers() {
        if failures.len() > 0 {
            Some((trace, Err(Fault::Inconclusive(failures))))
        } else {
            Some((trace, Ok(None)))
        }
    } else if trace.len() == 0 || trace[0].tier != tier {
        None
    } else {
        match trace[0].call {
            Call::Get { key: k, found } => if k != key {
                None
            } else {
                match found {
                    Ok(Some(value)) => match filled(
                        shape,
                        Write::One { key, value },
                        0,
                        read::promotions(shape.policy.read, tier),
                        trace.skip(1),
                    ) {
                        Some(rest) => Some((rest, Ok(Some(value)))),
                        None => None,
                    },
                    Ok(None) => read_from(shape, key, tier + 1, failures, trace.skip(1)),
                    Err(source) => match shape.policy.read.on_error {
                        OnReadError::FailFast => Some(
                            (trace.skip(1), Err(Fault::Tier(shape.failure(tier, source)))),
                        ),
                        OnReadError::FallThrough => read_from(
                            shape,
                            key,
                            tier + 1,
                            failures.push(shape.failure(tier, source)),
                            trace.skip(1),
                        ),
                    },
                }
            },
            _ => None,
        }
    }
}

/// An existence check that has come to tier `tier`. It asks as a read does,
/// and never promotes.
pub open spec fn sought_from<K, V, E>(
    shape: Shape,
    key: K,
    tier: nat,
    failures: Seq<Failure<E>>,
    trace: Seq<Event<K, V, E>>,
) -> Option<(Seq<Event<K, V, E>>, Result<bool, Fault<E>>)>
    decreases shape.tiers() - tier,
{
    if tier >= shape.tiers() {
        if failures.len() > 0 {
            Some((trace, Err(Fault::Inconclusive(failures))))
        } else {
            Some((trace, Ok(false)))
        }
    } else if trace.len() == 0 || trace[0].tier != tier {
        None
    } else {
        match trace[0].call {
            Call::Exists { key: k, present } => if k != key {
                None
            } else {
                match present {
                    Ok(true) => Some((trace.skip(1), Ok(true))),
                    Ok(false) => sought_from(shape, key, tier + 1, failures, trace.skip(1)),
                    Err(source) => match shape.policy.read.on_error {
                        OnReadError::FailFast => Some(
                            (trace.skip(1), Err(Fault::Tier(shape.failure(tier, source)))),
                        ),
                        OnReadError::FallThrough => sought_from(
                            shape,
                            key,
                            tier + 1,
                            failures.push(shape.failure(tier, source)),
                            trace.skip(1),
                        ),
                    },
                }
            },
            _ => None,
        }
    }
}

/// The statuses, and the indices still unresolved, once tier `tier` has
/// answered for the first `count` of the `unresolved` keys.
pub open spec fn resolved<V>(
    statuses: Seq<KeyStatus<V>>,
    unresolved: Seq<usize>,
    found: Seq<Option<V>>,
    tier: nat,
    count: nat,
) -> (Seq<KeyStatus<V>>, Seq<usize>)
    decreases count,
{
    if count == 0 {
        (statuses, Seq::empty())
    } else {
        let last = count - 1;
        let (before, missing) = resolved(statuses, unresolved, found, tier, last as nat);
        match found[last] {
            Some(value) => (
                before.update(
                    unresolved[last] as int,
                    KeyStatus::Hit { tier: tier as usize, value },
                ),
                missing,
            ),
            None => (before, missing.push(unresolved[last])),
        }
    }
}

/// The entries among the first `count` keys that tier `tier` answered for.
pub open spec fn hits_of<K, V>(
    keys: Seq<K>,
    statuses: Seq<KeyStatus<V>>,
    tier: nat,
    count: nat,
) -> Seq<(K, V)>
    decreases count,
{
    if count == 0 {
        Seq::empty()
    } else {
        let before = hits_of(keys, statuses, tier, (count - 1) as nat);
        match statuses[count - 1] {
            KeyStatus::Hit { tier: t, value } => if t == tier {
                before.push((keys[count - 1], value))
            } else {
                before
            },
            _ => before,
        }
    }
}

/// Batched promotion from tier `tier` down: what each tier answered for goes
/// into the tiers above it.
pub open spec fn promoted_from<K: Clone, V: Clone, E>(
    shape: Shape,
    keys: Seq<K>,
    statuses: Seq<KeyStatus<V>>,
    tier: nat,
    trace: Seq<Event<K, V, E>>,
) -> Option<Seq<Event<K, V, E>>>
    decreases shape.tiers() - tier,
{
    if tier >= shape.tiers() || shape.policy.read.promote == Promote::Never {
        Some(trace)
    } else {
        let entries = hits_of(keys, statuses, tier, keys.len());
        if entries.len() == 0 {
            promoted_from(shape, keys, statuses, tier + 1, trace)
        } else {
            match filled(
                shape,
                Write::Many { entries },
                0,
                read::promotions(shape.policy.read, tier),
                trace,
            ) {
                Some(rest) => promoted_from(shape, keys, statuses, tier + 1, rest),
                None => None,
            }
        }
    }
}

/// What a batched read knows at its end: keys still unresolved past a failing
/// tier are inconclusive.
pub open spec fn concluded<V, E>(
    statuses: Seq<KeyStatus<V>>,
    unresolved: Seq<usize>,
    failures: Seq<Failure<E>>,
) -> Seq<KeyStatus<V>> {
    Seq::new(
        statuses.len(),
        |i: int|
            if failures.len() > 0 && unresolved.contains(i as usize) {
                KeyStatus::Inconclusive
            } else {
                statuses[i]
            },
    )
}

/// The keys at `indices`.
pub open spec fn at<K>(keys: Seq<K>, indices: Seq<usize>) -> Seq<K> {
    indices.map_values(|index: usize| keys[index as int])
}

/// The statuses and the failures that a batched read reports.
pub type Gathered<V, E> = (Seq<KeyStatus<V>>, Seq<Failure<E>>);

/// A batched read that has come to tier `tier`. Each tier is asked only for
/// the keys that no tier above it answered for.
pub open spec fn gathered_from<K: Clone, V: Clone, E>(
    shape: Shape,
    keys: Seq<K>,
    tier: nat,
    statuses: Seq<KeyStatus<V>>,
    unresolved: Seq<usize>,
    failures: Seq<Failure<E>>,
    trace: Seq<Event<K, V, E>>,
) -> Option<(Seq<Event<K, V, E>>, Result<Gathered<V, E>, Fault<E>>)>
    decreases shape.tiers() - tier,
{
    if tier >= shape.tiers() || unresolved.len() == 0 {
        let statuses = concluded(statuses, unresolved, failures);
        match promoted_from(shape, keys, statuses, 1, trace) {
            Some(rest) => Some((rest, Ok((statuses, failures)))),
            None => None,
        }
    } else if trace.len() == 0 || trace[0].tier != tier {
        None
    } else {
        match trace[0].call {
            Call::GetMany { keys: asked, values } => if !copies(at(keys, unresolved), asked) {
                None
            } else {
                match values {
                    Ok(found) => {
                        let count = if found.len() < unresolved.len() {
                            found.len()
                        } else {
                            unresolved.len()
                        };
                        let (statuses, missing) = resolved(
                            statuses,
                            unresolved,
                            found,
                            tier,
                            count,
                        );
                        gathered_from(
                            shape,
                            keys,
                            tier + 1,
                            statuses,
                            missing,
                            failures,
                            trace.skip(1),
                        )
                    },
                    Err(source) => match shape.policy.read.on_error {
                        OnReadError::FailFast => Some(
                            (trace.skip(1), Err(Fault::Tier(shape.failure(tier, source)))),
                        ),
                        OnReadError::FallThrough => gathered_from(
                            shape,
                            keys,
                            tier + 1,
                            statuses,
                            unresolved,
                            failures.push(shape.failure(tier, source)),
                            trace.skip(1),
                        ),
                    },
                }
            },
            _ => None,
        }
    }
}

/// A batched read of `keys`.
pub open spec fn gathered<K: Clone, V: Clone, E>(
    shape: Shape,
    keys: Seq<K>,
    trace: Seq<Event<K, V, E>>,
) -> Option<(Seq<Event<K, V, E>>, Result<Gathered<V, E>, Fault<E>>)> {
    gathered_from(
        shape,
        keys,
        0,
        Seq::new(keys.len(), |i: int| KeyStatus::Miss),
        Seq::new(keys.len(), |i: int| i as usize),
        Seq::empty(),
        trace,
    )
}

/// A batched read at whole-batch granularity: one inconclusive key makes the
/// batch inconclusive.
pub open spec fn degraded<V, E>(report: Result<Gathered<V, E>, Fault<E>>) -> Result<
    Seq<Option<V>>,
    Fault<E>,
> {
    match report {
        Ok((statuses, failures)) => if statuses.contains(KeyStatus::Inconclusive) {
            Err(Fault::Inconclusive(failures))
        } else {
            Ok(statuses.map_values(|status: KeyStatus<V>| status.found()))
        },
        Err(fault) => Err(fault),
    }
}

/// A write-through with the topmost `left` tiers to go. Tiers are written
/// bottom-up. What a tier displaces is demoted, or told to the caller at once
/// where the policy does not demote; `evicted` is what has fallen off so far.
pub open spec fn wrote_through<K: Clone, V: Clone, E>(
    shape: Shape,
    write: Write<K, V>,
    left: nat,
    evicted: Seq<(K, V)>,
    trace: Seq<Event<K, V, E>>,
) -> Option<(Seq<Event<K, V, E>>, Result<Seq<(K, V)>, Fault<E>>)>
    decreases left,
{
    if left == 0 {
        Some((trace, Ok(evicted)))
    } else {
        let tier = (left - 1) as nat;
        if !shape.writable(tier) {
            wrote_through(shape, write, tier, evicted, trace)
        } else if trace.len() == 0 || trace[0].tier != tier {
            None
        } else {
            match accepted(write, trace[0].call) {
                Some(Ok(displaced)) => if !shape.policy.demote_displaced {
                    wrote_through(shape, write, tier, evicted + displaced, trace.skip(1))
                } else {
                    match demoted(shape, tier + 1, displaced, trace.skip(1)) {
                        Some((rest, lost)) => wrote_through(
                            shape,
                            write,
                            tier,
                            evicted + lost,
                            rest,
                        ),
                        None => None,
                    }
                },
                Some(Err(source)) => match shape.policy.on_write_error {
                    OnWriteError::Abort => Some(
                        (trace.skip(1), Err(Fault::Tier(shape.failure(tier, source)))),
                    ),
                    OnWriteError::BestEffort => wrote_through(
                        shape,
                        write,
                        tier,
                        evicted,
                        trace.skip(1),
                    ),
                },
                None => None,
            }
        }
    }
}

/// Invalidation of `keys` in the writable tiers from `tier` up to (not
/// including) `end`. Every one of them is asked; the result lists the
/// failures.
pub open spec fn invalidated<K, V, E>(
    shape: Shape,
    keys: Removal<K>,
    tier: nat,
    end: nat,
    failures: Seq<Failure<E>>,
    trace: Seq<Event<K, V, E>>,
) -> Option<(Seq<Event<K, V, E>>, Seq<Failure<E>>)>
    decreases end - tier,
{
    if tier >= end {
        Some((trace, failures))
    } else if !shape.writable(tier) {
        invalidated(shape, keys, tier + 1, end, failures, trace)
    } else if trace.len() == 0 || trace[0].tier != tier {
        None
    } else {
        match revoked(keys, trace[0].call) {
            Some(None) => invalidated(shape, keys, tier + 1, end, failures, trace.skip(1)),
            Some(Some(source)) => invalidated(
                shape,
                keys,
                tier + 1,
                end,
                failures.push(shape.failure(tier, source)),
                trace.skip(1),
            ),
            None => None,
        }
    }
}

/// A write-around of `write` into tier `bottom`: the copies above are now
/// stale and are invalidated.
pub open spec fn wrote_around<K: Clone, V: Clone, E>(
    shape: Shape,
    write: Write<K, V>,
    bottom: nat,
    trace: Seq<Event<K, V, E>>,
) -> Option<(Seq<Event<K, V, E>>, Result<Seq<(K, V)>, Fault<E>>)> {
    if trace.len() == 0 || trace[0].tier != bottom {
        None
    } else {
        match accepted(write, trace[0].call) {
            Some(Ok(displaced)) => match invalidated(
                shape,
                write.keys(),
                0,
                bottom,
                Seq::empty(),
                trace.skip(1),
            ) {
                Some((rest, failures)) => Some(
                    (
                        rest,
                        if failures.len() > 0 {
                            Err(Fault::Partial(failures))
                        } else {
                            Ok(displaced)
                        },
                    ),
                ),
                None => None,
            },
            Some(Err(source)) => Some(
                (trace.skip(1), Err(Fault::Tier(shape.failure(bottom, source)))),
            ),
            None => None,
        }
    }
}

/// Whether a tier accepts `write` while it is written through the first `left`
/// tiers.
pub open spec fn taken<K: Clone, V: Clone, E>(
    shape: Shape,
    write: Write<K, V>,
    left: nat,
    trace: Seq<Event<K, V, E>>,
) -> bool
    decreases left,
{
    if left == 0 || trace.len() == 0 {
        false
    } else if !shape.writable((left - 1) as nat) {
        taken(shape, write, (left - 1) as nat, trace)
    } else {
        match accepted(write, trace[0].call) {
            Some(Ok(_)) => true,
            _ => taken(shape, write, (left - 1) as nat, trace.skip(1)),
        }
    }
}

/// A write. What is written through, and no tier took, falls off the bottom
/// itself.
pub open spec fn wrote<K: Clone, V: Clone, E>(
    shape: Shape,
    write: Write<K, V>,
    trace: Seq<Event<K, V, E>>,
) -> Option<(Seq<Event<K, V, E>>, Result<Seq<(K, V)>, Fault<E>>)> {
    match shape.bottom(shape.tiers()) {
        None => Some((trace, Err(Fault::ReadOnly))),
        Some(bottom) => match shape.policy.write {
            WriteMode::WriteThrough => match wrote_through(
                shape,
                write,
                shape.tiers(),
                Seq::empty(),
                trace,
            ) {
                Some((rest, Ok(evicted))) => Some(
                    (
                        rest,
                        Ok(
                            if taken(shape, write, shape.tiers(), trace) {
                                evicted
                            } else {
                                evicted + entries_of(write)
                            },
                        ),
                    ),
                ),
                other => other,
            },
            WriteMode::WriteAround => wrote_around(shape, write, bottom, trace),
        },
    }
}

/// A removal that has come to tier `tier`. Every writable tier is asked, also
/// after failures.
pub open spec fn removed_from<K, V, E>(
    shape: Shape,
    key: K,
    tier: nat,
    existed: bool,
    failures: Seq<Failure<E>>,
    trace: Seq<Event<K, V, E>>,
) -> Option<(Seq<Event<K, V, E>>, Result<bool, Fault<E>>)>
    decreases shape.tiers() - tier,
{
    if tier >= shape.tiers() {
        Some(
            (
                trace,
                if failures.len() > 0 {
                    Err(Fault::Partial(failures))
                } else {
                    Ok(existed)
                },
            ),
        )
    } else if !shape.writable(tier) {
        removed_from(shape, key, tier + 1, existed, failures, trace)
    } else if trace.len() == 0 || trace[0].tier != tier {
        None
    } else {
        match trace[0].call {
            Call::Delete { key: k, removed } => if k != key {
                None
            } else {
                match removed {
                    Ok(present) => removed_from(
                        shape,
                        key,
                        tier + 1,
                        existed || present,
                        failures,
                        trace.skip(1),
                    ),
                    Err(source) => removed_from(
                        shape,
                        key,
                        tier + 1,
                        existed,
                        failures.push(shape.failure(tier, source)),
                        trace.skip(1),
                    ),
                }
            },
            _ => None,
        }
    }
}

/// The flags `removed` joined with the answers `flags` of one more tier.
pub open spec fn joined(removed: Seq<bool>, flags: Seq<bool>) -> Seq<bool> {
    Seq::new(removed.len(), |i: int| removed[i] || (i < flags.len() && flags[i]))
}

/// A batched removal that has come to tier `tier`.
pub open spec fn cleared_from<K, V, E>(
    shape: Shape,
    keys: Seq<K>,
    tier: nat,
    removed: Seq<bool>,
    failures: Seq<Failure<E>>,
    trace: Seq<Event<K, V, E>>,
) -> Option<(Seq<Event<K, V, E>>, (Seq<bool>, Seq<Failure<E>>))>
    decreases shape.tiers() - tier,
{
    if tier >= shape.tiers() {
        Some((trace, (removed, failures)))
    } else if !shape.writable(tier) {
        cleared_from(shape, keys, tier + 1, removed, failures, trace)
    } else if trace.len() == 0 || trace[0].tier != tier {
        None
    } else {
        match trace[0].call {
            Call::DeleteMany { keys: k, flags } => if k != keys {
                None
            } else {
                match flags {
                    Ok(flags) => cleared_from(
                        shape,
                        keys,
                        tier + 1,
                        joined(removed, flags),
                        failures,
                        trace.skip(1),
                    ),
                    Err(source) => cleared_from(
                        shape,
                        keys,
                        tier + 1,
                        removed,
                        failures.push(shape.failure(tier, source)),
                        trace.skip(1),
                    ),
                }
            },
            _ => None,
        }
    }
}

/// A batched removal of `keys`.
pub open spec fn cleared<K, V, E>(
    shape: Shape,
    keys: Seq<K>,
    trace: Seq<Event<K, V, E>>,
) -> Option<(Seq<Event<K, V, E>>, (Seq<bool>, Seq<Failure<E>>))> {
    cleared_from(
        shape,
        keys,
        0,
        Seq::new(keys.len(), |i: int| false),
        Seq::empty(),
        trace,
    )
}

} // verus!
