//! What a router guarantees over well-behaved tiers.
//!
//! The contracts of [`Router`](crate::router::Router) say call by call what is
//! asked of the tiers. The laws of this module follow from them for *fair*
//! tiers, which answer from their contents and displace only what they hold.
//! A fair tier may refuse an insert, which then touches no other key; where a
//! law needs that none does, it says so.

use vstd::prelude::*;

use crate::conduct;
use crate::error::{Failure, Fault};
use crate::outcomes;
use crate::policy::{OnWriteError, Promote, WriteMode};
use crate::read;
use crate::replay;
use crate::replay::{Over, Removal, Shape, Write};
use crate::report::KeyStatus;
use crate::router::Router;
use crate::stack;
use crate::stack::Event;
use crate::tier::{Call, Tier, TierRead, TierWrite};

verus! {

/// Clones of an `A` are equal to the original.
pub open spec fn faithful_clone<A: Clone>() -> bool {
    forall|a: A, b: A| #[trigger] cloned(a, b) ==> a == b
}

/// `contents` after inserting `entries` in order.
pub open spec fn inserted<K, V>(contents: Map<K, V>, entries: Seq<(K, V)>) -> Map<K, V>
    decreases entries.len(),
{
    if entries.len() == 0 {
        contents
    } else {
        inserted(contents, entries.drop_last()).insert(entries.last().0, entries.last().1)
    }
}

/// The value that `entries` leave for `key`.
pub open spec fn value_in<K, V>(entries: Seq<(K, V)>, key: K) -> Option<V>
    decreases entries.len(),
{
    if entries.len() == 0 {
        None
    } else if entries.last().0 == key {
        Some(entries.last().1)
    } else {
        value_in(entries.drop_last(), key)
    }
}

/// Whether `entries` list `key`.
pub open spec fn lists<K, V>(entries: Seq<(K, V)>, key: K) -> bool {
    exists|i: int| 0 <= i < entries.len() && (#[trigger] entries[i]).0 == key
}

/// What `contents` hold for `key`.
pub open spec fn lookup<K, V>(contents: Map<K, V>, key: K) -> Option<V> {
    if contents.contains_key(key) {
        Some(contents[key])
    } else {
        None
    }
}

/// `contents` without the keys of `entries`.
pub open spec fn without<K, V>(contents: Map<K, V>, entries: Seq<(K, V)>) -> Map<K, V> {
    contents.remove_keys(Set::new(|key: K| lists(entries, key)))
}

/// Whether all of `entries` are in `contents`.
pub open spec fn drawn_from<K, V>(entries: Seq<(K, V)>, contents: Map<K, V>) -> bool {
    forall|i: int|
        0 <= i < entries.len() ==> lookup(contents, (#[trigger] entries[i]).0) == Some(entries[i].1)
}

/// What each entry of a batched insert displaced, in the order of the entries.
pub type Parts<K, V> = Seq<Seq<(K, V)>>;

/// All that a batched insert displaced.
pub open spec fn all_of<K, V>(parts: Parts<K, V>) -> Seq<(K, V)>
    decreases parts.len(),
{
    if parts.len() == 0 {
        Seq::empty()
    } else {
        all_of(parts.drop_last()) + parts.last()
    }
}

/// What a tier that held `contents` holds after `entries` were inserted in
/// order and each displaced its part.
pub open spec fn settled<K, V>(
    contents: Map<K, V>,
    entries: Seq<(K, V)>,
    parts: Parts<K, V>,
) -> Map<K, V>
    decreases entries.len(),
{
    if entries.len() == 0 {
        contents
    } else {
        let (key, value) = entries.last();
        without(
            settled(contents, entries.drop_last(), parts.drop_last()).insert(key, value),
            parts.last(),
        )
    }
}

/// Whether each of `entries` displaced only what the tier held once it was
/// inserted.
pub open spec fn fair_parts<K, V>(
    contents: Map<K, V>,
    entries: Seq<(K, V)>,
    parts: Parts<K, V>,
) -> bool
    decreases entries.len(),
{
    &&& parts.len() == entries.len()
    &&& entries.len() > 0 ==> {
        let (key, value) = entries.last();
        let before = settled(contents, entries.drop_last(), parts.drop_last());
        &&& fair_parts(contents, entries.drop_last(), parts.drop_last())
        &&& drawn_from(parts.last(), before.insert(key, value))
    }
}

/// What a tier that refused an insert holds for its key.
pub enum Left {
    /// What it held before.
    AsItWas,
    /// Nothing.
    Gone,
    /// The new value, although it said otherwise.
    There,
}

/// How a call went, as far as its answer leaves that open.
pub struct Way<K, V> {
    /// What each entry of an accepted batch displaced. A batch may take effect
    /// at once or entry by entry.
    pub parts: Parts<K, V>,
    /// What became of the key of a refused insert.
    pub left: Left,
}

/// A fair answer of a tier that holds `contents`.
pub open spec fn fair_call<K, V, E>(
    contents: Map<K, V>,
    call: Call<K, V, E>,
    way: Way<K, V>,
) -> bool {
    match call {
        Call::Get { key, found } => found == Ok::<_, E>(lookup(contents, key)),
        Call::Exists { key, present } => present == Ok::<_, E>(contents.contains_key(key)),
        Call::GetMany { keys, values } => values matches Ok(values) && values == keys.map_values(
            |key: K| lookup(contents, key),
        ),
        Call::Put { key, value, displaced } => displaced matches Ok(displaced) ==> fair_parts(
            contents,
            seq![(key, value)],
            seq![displaced],
        ),
        Call::PutMany { entries, displaced } => {
            &&& displaced matches Ok(displaced)
            &&& displaced == all_of(way.parts)
            &&& fair_parts(contents, entries, way.parts)
        },
        Call::Delete { key, removed } => removed == Ok::<_, E>(contents.contains_key(key)),
        Call::DeleteMany { keys, flags } => flags is Ok,
    }
}

/// `contents` after the insert of `key` was refused.
pub open spec fn after_refusal<K, V>(
    contents: Map<K, V>,
    key: K,
    value: V,
    left: Left,
) -> Map<K, V> {
    match left {
        Left::AsItWas => contents,
        Left::Gone => contents.remove(key),
        Left::There => contents.insert(key, value),
    }
}

/// What a fair tier holds after `call`.
pub open spec fn held_after<K, V, E>(
    contents: Map<K, V>,
    call: Call<K, V, E>,
    way: Way<K, V>,
) -> Map<K, V> {
    match call {
        Call::Put { key, value, displaced: Ok(displaced) } => settled(
            contents,
            seq![(key, value)],
            seq![displaced],
        ),
        Call::Put { key, value, .. } => after_refusal(contents, key, value, way.left),
        Call::PutMany { entries, .. } => settled(contents, entries, way.parts),
        Call::Delete { key, .. } => contents.remove(key),
        Call::DeleteMany { keys, .. } => contents.remove_keys(keys.to_set()),
        _ => contents,
    }
}

/// How the calls of a trace went: for the one with which a trace of `n` calls
/// begins, `how(n)`.
pub type Ways<K, V> = spec_fn(nat) -> Way<K, V>;

/// What the tiers hold after the first call of `trace`.
pub open spec fn step<K, V, E>(
    how: Ways<K, V>,
    world: Seq<Map<K, V>>,
    trace: Seq<Event<K, V, E>>,
) -> Seq<Map<K, V>> {
    let tier = trace[0].tier as int;
    world.update(tier, held_after(world[tier], trace[0].call, how(trace.len())))
}

/// What the tiers hold after `trace`, starting from `world`.
pub open spec fn run<K, V, E>(
    how: Ways<K, V>,
    world: Seq<Map<K, V>>,
    trace: Seq<Event<K, V, E>>,
) -> Seq<Map<K, V>>
    decreases trace.len(),
{
    if trace.len() == 0 {
        world
    } else {
        run(how, step(how, world, trace), trace.skip(1))
    }
}

/// Whether every answer in `trace` is fair, starting from `world`.
pub open spec fn fair<K, V, E>(
    how: Ways<K, V>,
    world: Seq<Map<K, V>>,
    trace: Seq<Event<K, V, E>>,
) -> bool
    decreases trace.len(),
{
    trace.len() > 0 ==> {
        &&& trace[0].tier < world.len()
        &&& fair_call(world[trace[0].tier as int], trace[0].call, how(trace.len()))
        &&& fair(how, step(how, world, trace), trace.skip(1))
    }
}

/// Whether a tier from `lo` down holds `key`.
pub open spec fn held<K, V>(world: Seq<Map<K, V>>, lo: nat, key: K) -> bool {
    exists|i: int| lo <= i < world.len() && (#[trigger] world[i]).contains_key(key)
}

/// Whether a tier from `lo` down, other than the `ignored` ones, holds `key`.
spec fn held_by<K, V>(ignored: Seq<bool>, world: Seq<Map<K, V>>, lo: nat, key: K) -> bool {
    exists|i: int| lo <= i < world.len() && !ignored[i] && (#[trigger] world[i]).contains_key(key)
}

/// Whether every tier served every call of `trace`.
pub open spec fn unfailing<K, V, E>(trace: Seq<Event<K, V, E>>) -> bool {
    forall|i: int| 0 <= i < trace.len() ==> !(#[trigger] trace[i]).call.failed()
}

/// Whether no tier refuses to insert `key`.
pub open spec fn unrefused<K, V, E>(trace: Seq<Event<K, V, E>>, key: K) -> bool {
    forall|i: int|
        0 <= i < trace.len() ==> !((#[trigger] trace[i]).call matches Call::Put {
            key: k,
            displaced,
            ..
        } && k == key && displaced is Err)
}

proof fn lemma_rest<K, V, E>(part: Seq<Event<K, V, E>>, rest: Seq<Event<K, V, E>>, key: K)
    ensures
        unfailing(part + rest) ==> unfailing(rest),
        unrefused(part + rest, key) ==> unrefused(rest, key),
{
    let all = part + rest;
    assert forall|i: int| 0 <= i < rest.len() implies #[trigger] rest[i] == all[part.len() + i] by {
    }
}

/// No tier is ignored.
spec fn none_ignored(tiers: nat) -> Seq<bool> {
    Seq::new(tiers, |i: int| false)
}

proof fn lemma_held_by<K, V>(world: Seq<Map<K, V>>, lo: nat, key: K)
    ensures
        held_by(none_ignored(world.len()), world, lo, key) == held(world, lo, key),
{
    let ignored = none_ignored(world.len());
    if held(world, lo, key) {
        let i = choose|i: int| lo <= i < world.len() && (#[trigger] world[i]).contains_key(key);
        assert(!ignored[i] && world[i].contains_key(key));
    }
}

/// What the first tier from `lo` down that holds `key` holds for it.
pub open spec fn first<K, V>(world: Seq<Map<K, V>>, lo: nat, key: K) -> Option<V>
    decreases world.len() - lo,
{
    if lo >= world.len() {
        None
    } else if world[lo as int].contains_key(key) {
        Some(world[lo as int][key])
    } else {
        first(world, lo + 1, key)
    }
}

/// What the first tier from `lo` down that holds `key`, `ignored` ones aside,
/// holds for it.
spec fn first_of<K, V>(ignored: Seq<bool>, world: Seq<Map<K, V>>, lo: nat, key: K) -> Option<V>
    decreases world.len() - lo,
{
    if lo >= world.len() {
        None
    } else if !ignored[lo as int] && world[lo as int].contains_key(key) {
        Some(world[lo as int][key])
    } else {
        first_of(ignored, world, lo + 1, key)
    }
}

/// Only what the tiers hold for `key` matters.
proof fn lemma_same_lookups<K, V>(
    ignored: Seq<bool>,
    a: Seq<Map<K, V>>,
    b: Seq<Map<K, V>>,
    lo: nat,
    key: K,
)
    requires
        a.len() == b.len(),
        forall|i: int| lo <= i < a.len() ==> lookup(#[trigger] a[i], key) == lookup(b[i], key),
    ensures
        first_of(ignored, a, lo, key) == first_of(ignored, b, lo, key),
    decreases a.len() - lo,
{
    if lo < a.len() {
        assert(lookup(a[lo as int], key) == lookup(b[lo as int], key));
        lemma_same_lookups(ignored, a, b, lo + 1, key);
    }
}

/// Tiers that hold the same for `key` above tier `mid`: either the topmost copy
/// is there, or it is to be found from `mid` down.
proof fn lemma_first_above<K, V>(
    ignored: Seq<bool>,
    a: Seq<Map<K, V>>,
    b: Seq<Map<K, V>>,
    lo: nat,
    mid: nat,
    key: K,
)
    requires
        a.len() == b.len(),
        lo <= mid <= a.len(),
        forall|i: int| lo <= i < mid ==> lookup(#[trigger] a[i], key) == lookup(b[i], key),
    ensures
        first_of(ignored, a, lo, key) == first_of(ignored, b, lo, key) || {
            &&& first_of(ignored, a, lo, key) == first_of(ignored, a, mid, key)
            &&& first_of(ignored, b, lo, key) == first_of(ignored, b, mid, key)
        },
    decreases mid - lo,
{
    if lo < mid {
        assert(lookup(a[lo as int], key) == lookup(b[lo as int], key));
        lemma_first_above(ignored, a, b, lo + 1, mid, key);
    }
}

/// The topmost copy is the only one.
proof fn lemma_only_copy<K, V>(
    ignored: Seq<bool>,
    world: Seq<Map<K, V>>,
    lo: nat,
    at: nat,
    key: K,
)
    requires
        lo <= at < world.len(),
        !ignored[at as int],
        world[at as int].contains_key(key),
        forall|i: int| lo <= i < at && !ignored[i] ==> !(#[trigger] world[i]).contains_key(key),
    ensures
        first_of(ignored, world, lo, key) == Some(world[at as int][key]),
    decreases at - lo,
{
    if lo < at {
        let top = world[lo as int];
        lemma_only_copy(ignored, world, lo + 1, at, key);
    }
}

proof fn lemma_inserted<K, V>(contents: Map<K, V>, entries: Seq<(K, V)>, key: K)
    ensures
        lookup(inserted(contents, entries), key) == (match value_in(entries, key) {
            Some(value) => Some(value),
            None => lookup(contents, key),
        }),
        value_in(entries, key) is Some <==> lists(entries, key),
    decreases entries.len(),
{
    if entries.len() > 0 {
        lemma_inserted(contents, entries.drop_last(), key);
        if lists(entries.drop_last(), key) {
            let i = choose|i: int|
                0 <= i < entries.drop_last().len() && (#[trigger] entries.drop_last()[i]).0 == key;
            assert(entries[i].0 == key);
        }
        if lists(entries, key) && entries.last().0 != key {
            let i = choose|i: int| 0 <= i < entries.len() && (#[trigger] entries[i]).0 == key;
            assert(entries.drop_last()[i].0 == key);
        }
        if entries.last().0 == key {
            assert(entries[entries.len() - 1].0 == key);
        }
    }
}

proof fn lemma_value_in_concat<K, V>(a: Seq<(K, V)>, b: Seq<(K, V)>, key: K)
    ensures
        value_in(a + b, key) == (match value_in(b, key) {
            Some(value) => Some(value),
            None => value_in(a, key),
        }),
    decreases b.len(),
{
    let c = a + b;
    if b.len() == 0 {
        assert(c =~= a);
    } else {
        assert(c.drop_last() =~= a + b.drop_last());
        assert(c.last() == b.last());
        lemma_value_in_concat(a, b.drop_last(), key);
    }
}

proof fn lemma_value_contained<K, V>(entries: Seq<(K, V)>, key: K, value: V)
    requires
        value_in(entries, key) == Some(value),
    ensures
        entries.contains((key, value)),
    decreases entries.len(),
{
    if entries.last().0 == key {
        assert(entries[entries.len() - 1] == (key, value));
    } else {
        let front = entries.drop_last();
        lemma_value_contained(front, key, value);
        assert(entries[front.index_of((key, value))] == (key, value));
    }
}

/// Entries that are drawn from the same contents do not contradict them.
proof fn lemma_drawn<K, V>(entries: Seq<(K, V)>, contents: Map<K, V>, key: K)
    requires
        drawn_from(entries, contents),
    ensures
        value_in(entries, key) is Some ==> value_in(entries, key) == lookup(contents, key),
        value_in(entries, key) is Some <==> lists(entries, key),
    decreases entries.len(),
{
    lemma_inserted(contents, entries, key);
    if entries.len() > 0 {
        let front = entries.drop_last();
        assert forall|i: int| 0 <= i < front.len() implies lookup(
            contents,
            (#[trigger] front[i]).0,
        ) == Some(front[i].1) by {
            assert(front[i] == entries[i]);
        }
        lemma_drawn(front, contents, key);
        assert(entries[entries.len() - 1] == entries.last());
    }
}

/// What becomes of `key` where `entries` are inserted: the newest of its
/// values stays, or is the last that is displaced.
proof fn lemma_settled<K, V>(
    contents: Map<K, V>,
    entries: Seq<(K, V)>,
    parts: Parts<K, V>,
    key: K,
)
    requires
        fair_parts(contents, entries, parts),
    ensures
        ({
            let after = settled(contents, entries, parts);
            let out = value_in(all_of(parts), key);
            match (value_in(entries, key), lookup(contents, key)) {
                (Some(value), _) => if after.contains_key(key) {
                    after[key] == value
                } else {
                    out == Some(value)
                },
                (None, Some(value)) => if after.contains_key(key) {
                    after[key] == value
                } else {
                    out == Some(value)
                },
                (None, None) => !after.contains_key(key) && out is None,
            }
        }),
    decreases entries.len(),
{
    if entries.len() == 0 {
        assert(all_of(parts) =~= Seq::empty());
    } else {
        let front = entries.drop_last();
        let (k, v) = entries.last();
        let before = settled(contents, front, parts.drop_last());
        lemma_settled(contents, front, parts.drop_last(), key);
        lemma_drawn(parts.last(), before.insert(k, v), key);
        lemma_value_in_concat(all_of(parts.drop_last()), parts.last(), key);
    }
}

/// One fair insert of `entries` into tier `tier` loses no key.
proof fn lemma_insert<K, V>(
    ignored: Seq<bool>,
    world: Seq<Map<K, V>>,
    tier: nat,
    entries: Seq<(K, V)>,
    parts: Parts<K, V>,
    lo: nat,
    key: K,
)
    requires
        lo <= tier < world.len(),
        !ignored[tier as int],
        fair_parts(world[tier as int], entries, parts),
    ensures
        ({
            let after = world.update(tier as int, settled(world[tier as int], entries, parts));
            held_by(ignored, world, lo, key) || lists(entries, key) ==> held_by(
                ignored,
                after,
                lo,
                key,
            ) || lists(all_of(parts), key)
        }),
{
    let after = world.update(tier as int, settled(world[tier as int], entries, parts));
    lemma_settled(world[tier as int], entries, parts, key);
    lemma_inserted(world[tier as int], entries, key);
    lemma_inserted(world[tier as int], all_of(parts), key);
    if after[tier as int].contains_key(key) {
        assert(held_by(ignored, after, lo, key));
    }
    if held_by(ignored, world, lo, key) {
        let i = choose|i: int|
            lo <= i < world.len() && !ignored[i] && (#[trigger] world[i]).contains_key(key);
        if i != tier {
            assert(after[i].contains_key(key));
        }
    }
}

/// A refused insert loses at most its own key.
proof fn lemma_refused<K, V>(
    ignored: Seq<bool>,
    world: Seq<Map<K, V>>,
    tier: nat,
    entry: (K, V),
    left: Left,
    lo: nat,
    key: K,
)
    requires
        tier < world.len(),
    ensures
        ({
            let after = world.update(
                tier as int,
                after_refusal(world[tier as int], entry.0, entry.1, left),
            );
            &&& held_by(ignored, world, lo, key) && (entry.0 != key || tier < lo) ==> held_by(
                ignored,
                after,
                lo,
                key,
            )
        }),
{
    let after = world.update(
        tier as int,
        after_refusal(world[tier as int], entry.0, entry.1, left),
    );
    if held_by(ignored, world, lo, key) && (entry.0 != key || tier < lo) {
        let i = choose|i: int|
            lo <= i < world.len() && !ignored[i] && (#[trigger] world[i]).contains_key(key);
        assert(after[i].contains_key(key));
    }
}

proof fn lemma_lists_concat<K, V>(a: Seq<(K, V)>, b: Seq<(K, V)>, key: K)
    ensures
        lists(a + b, key) <==> lists(a, key) || lists(b, key),
{
    let c = a + b;
    if lists(c, key) {
        let i = choose|i: int| 0 <= i < c.len() && (#[trigger] c[i]).0 == key;
        if i < a.len() {
            assert(a[i].0 == key);
        } else {
            assert(b[i - a.len()].0 == key);
        }
    }
    if lists(a, key) {
        let i = choose|i: int| 0 <= i < a.len() && (#[trigger] a[i]).0 == key;
        assert(c[i].0 == key);
    }
    if lists(b, key) {
        let i = choose|i: int| 0 <= i < b.len() && (#[trigger] b[i]).0 == key;
        assert(c[i + a.len()].0 == key);
    }
}

/// From tier `lo` down `key` was not lost between `world`, with `entries` on
/// their way, and `after`, with `out` left over.
spec fn kept<K, V>(
    ignored: Seq<bool>,
    world: Seq<Map<K, V>>,
    entries: Seq<(K, V)>,
    after: Seq<Map<K, V>>,
    out: Seq<(K, V)>,
    lo: nat,
    key: K,
) -> bool {
    held_by(ignored, world, lo, key) || lists(entries, key) ==> held_by(
        ignored,
        after,
        lo,
        key,
    ) || lists(out, key)
}

/// All that is left over.
spec fn leftover<K, V>(over: Over<K, V>) -> Seq<(K, V)> {
    over.displaced + over.refused
}

/// Inserting `entries` one by one into tier `target`: no key is lost, and the
/// newest value of `key` stays, or is the last that is displaced, or is refused.
proof fn lemma_poured<K: Clone, V: Clone, E>(
    how: Ways<K, V>,
    ignored: Seq<bool>,
    world: Seq<Map<K, V>>,
    target: nat,
    entries: Seq<(K, V)>,
    over: Over<K, V>,
    trace: Seq<Event<K, V, E>>,
    key: K,
    value: V,
) -> (after: Seq<Map<K, V>>)
    requires
        faithful_clone::<K>(),
        faithful_clone::<V>(),
        fair(how, world, trace),
        target < world.len(),
        !ignored[target as int],
        replay::poured(target, entries, over, trace) is Some,
    ensures
        ({
            let (rest, out) = replay::poured(target, entries, over, trace)->0;
            let left = after[target as int];
            let newest = match value_in(entries, key) {
                Some(v) => Some(v),
                None => lookup(world[target as int], key),
            };
            &&& fair(how, after, rest)
            &&& run(how, after, rest) == run(how, world, trace)
            &&& after.len() == world.len()
            &&& forall|i: int|
                0 <= i < world.len() && i != target ==> #[trigger] after[i] == world[i]
            &&& forall|lo: nat|
                lo <= target ==> #[trigger] kept(
                    ignored,
                    world,
                    leftover(over) + entries,
                    after,
                    leftover(out),
                    lo,
                    key,
                )
            &&& newest is None ==> !left.contains_key(key) && value_in(out.displaced, key)
                == value_in(over.displaced, key)
            &&& newest == Some(value) && !out.refused.contains((key, value)) ==> {
                if left.contains_key(key) {
                    left[key] == value
                } else {
                    value_in(out.displaced, key) == Some(value)
                }
            }
        }),
    decreases entries.len(),
{
    if entries.len() == 0 {
        assert(leftover(over) + entries =~= leftover(over));
        world
    } else {
        let entry = entries[0];
        let one = seq![entry];
        let tail = entries.skip(1);
        let next = step(how, world, trace);
        let top = world[target as int];
        let answer = trace[0].call->Put_displaced;
        let more = over.after(entry, answer);
        let after = lemma_poured(
            how,
            ignored,
            next,
            target,
            tail,
            more,
            trace.skip(1),
            key,
            value,
        );
        let (rest, out) = replay::poured(target, entries, over, trace)->0;
        assert(one + tail =~= entries);
        lemma_value_in_concat(one, tail, key);
        lemma_lists_concat(one, tail, key);
        lemma_lists_concat(over.displaced, over.refused, key);
        lemma_lists_concat(leftover(over), entries, key);
        lemma_lists_concat(more.displaced, more.refused, key);
        lemma_lists_concat(leftover(more), tail, key);
        match answer {
            Ok(pushed) => {
                let part = seq![pushed];
                reveal_with_fuel(all_of, 2);
                assert(all_of(part) =~= pushed);
                lemma_settled(top, one, part, key);
                lemma_value_in_concat(over.displaced, pushed, key);
                lemma_lists_concat(over.displaced, pushed, key);
            },
            Err(_) => {
                let ghost tail_part = conduct::lemma_poured_part(
                    target,
                    tail,
                    more,
                    trace.skip(1),
                );
                assert(over.refused.push(entry) =~= over.refused + one);
                lemma_lists_concat(over.refused, one, key);
                assert(more.refused[over.refused.len() as int] == entry);
                assert(more.refused.contains(entry));
                assert(one[0].0 == entry.0);
                reveal_with_fuel(value_in, 2);
                if entry.0 == key && entry.1 == value {
                    assert(entry == (key, value));
                }
            },
        }
        assert forall|lo: nat| lo <= target implies #[trigger] kept(
            ignored,
            world,
            leftover(over) + entries,
            after,
            leftover(out),
            lo,
            key,
        ) by {
            assert(kept(ignored, next, leftover(more) + tail, after, leftover(out), lo, key));
            match answer {
                Ok(pushed) => {
                    let part = seq![pushed];
                    reveal_with_fuel(all_of, 2);
                    assert(all_of(part) =~= pushed);
                    lemma_insert(ignored, world, target, one, part, lo, key);
                },
                Err(_) => {
                    let left = how(trace.len()).left;
                    lemma_refused(ignored, world, target, entry, left, lo, key);
                },
            }
        }
        after
    }
}

/// Demotion loses nothing, and puts no older value above a newer one.
proof fn lemma_demoted<K: Clone, V: Clone, E>(
    how: Ways<K, V>,
    ignored: Seq<bool>,
    shape: Shape,
    world: Seq<Map<K, V>>,
    target: nat,
    entries: Seq<(K, V)>,
    trace: Seq<Event<K, V, E>>,
    key: K,
    value: V,
) -> (after: Seq<Map<K, V>>)
    requires
        faithful_clone::<K>(),
        faithful_clone::<V>(),
        fair(how, world, trace),
        world.len() == shape.tiers(),
        forall|i: nat| #[trigger] shape.writable(i) ==> !ignored[i as int],
        replay::demoted(shape, target, entries, trace) is Some,
    ensures
        ({
            let (rest, out) = replay::demoted(shape, target, entries, trace)->0;
            let newest = match value_in(entries, key) {
                Some(v) => Some(v),
                None => first_of(shape.read_only, world, target, key),
            };
            &&& fair(how, after, rest)
            &&& run(how, after, rest) == run(how, world, trace)
            &&& after.len() == world.len()
            &&& unfailing(trace) ==> unfailing(rest)
            &&& unrefused(trace, key) ==> unrefused(rest, key)
            &&& forall|i: int|
                0 <= i < world.len() && (i < target || !shape.writable(i as nat))
                    ==> #[trigger] after[i] == world[i]
            &&& forall|lo: nat|
                lo <= target ==> #[trigger] kept(ignored, world, entries, after, out, lo, key)
            &&& newest == Some(value) && !out.contains((key, value)) ==> first_of(
                shape.read_only,
                after,
                target,
                key,
            ) == Some(value)
        }),
    decreases shape.tiers() - target,
{
    let part = conduct::lemma_demoted_part(shape, target, entries, trace);
    lemma_rest(part, (replay::demoted(shape, target, entries, trace)->0).0, key);
    if target >= shape.tiers() || entries.len() == 0 {
        if value_in(entries, key) == Some(value) {
            lemma_value_contained(entries, key, value);
        }
        world
    } else if !shape.writable(target) {
        let after = lemma_demoted(
            how,
            ignored,
            shape,
            world,
            target + 1,
            entries,
            trace,
            key,
            value,
        );
        assert(after[target as int] == world[target as int]);
        after
    } else {
        let none = Over::<K, V>::none();
        let mid = lemma_poured(how, ignored, world, target, entries, none, trace, key, value);
        let (rest, over) = replay::poured(target, entries, none, trace)->0;
        let after = lemma_demoted(
            how,
            ignored,
            shape,
            mid,
            target + 1,
            over.displaced,
            rest,
            key,
            value,
        );
        let (_, fallen) = replay::demoted(shape, target + 1, over.displaced, rest)->0;
        let out = over.refused + fallen;
        assert(leftover(none) + entries =~= entries);
        lemma_lists_concat(over.displaced, over.refused, key);
        lemma_lists_concat(over.refused, fallen, key);
        assert forall|lo: nat| lo <= target implies #[trigger] kept(
            ignored,
            world,
            entries,
            after,
            out,
            lo,
            key,
        ) by {
            assert(kept(
                ignored,
                world,
                leftover(none) + entries,
                mid,
                leftover(over),
                lo,
                key,
            ));
            assert(kept(ignored, mid, over.displaced, after, fallen, lo, key));
        }
        lemma_same_lookups(shape.read_only, world, mid, target + 1, key);
        assert(after[target as int] == mid[target as int]);
        if !out.contains((key, value)) {
            if over.refused.contains((key, value)) {
                assert(out[over.refused.index_of((key, value))] == (key, value));
            }
            if fallen.contains((key, value)) {
                assert(out[over.refused.len() + fallen.index_of((key, value))] == (key, value));
            }
        }
        after
    }
}

/// What each entry of a write displaced.
spec fn parts_of<K, V, E>(
    write: Write<K, V>,
    call: Call<K, V, E>,
    parts: Parts<K, V>,
) -> Parts<K, V> {
    match (write, call) {
        (Write::One { .. }, Call::Put { displaced: Ok(displaced), .. }) => seq![displaced],
        _ => parts,
    }
}

proof fn lemma_accepted<K: Clone, V: Clone, E>(
    world: Map<K, V>,
    write: Write<K, V>,
    call: Call<K, V, E>,
    way: Way<K, V>,
)
    requires
        faithful_clone::<K>(),
        faithful_clone::<V>(),
        fair_call(world, call, way),
        replay::accepted(write, call) is Some,
    ensures
        match replay::accepted(write, call)->0 {
            Ok(displaced) => {
                let own = parts_of(write, call, way.parts);
                &&& displaced == all_of(own)
                &&& displaced == conduct::spill(call)
                &&& fair_parts(world, replay::entries_of(write), own)
                &&& held_after(world, call, way) == settled(world, replay::entries_of(write), own)
            },
            Err(_) => {
                &&& write is One
                &&& held_after(world, call, way) == after_refusal(
                    world,
                    write->One_key,
                    write->One_value,
                    way.left,
                )
            },
        },
{
    match (write, call) {
        (Write::Many { entries }, Call::PutMany { entries: copies, .. }) => {
            assert forall|i: int| 0 <= i < entries.len() implies entries[i] == copies[i] by {
                assert(cloned(entries[i].0, copies[i].0));
                assert(cloned(entries[i].1, copies[i].1));
            }
            assert(entries =~= copies);
        },
        (Write::One { .. }, Call::Put { displaced: Ok(displaced), .. }) => {
            reveal_with_fuel(all_of, 2);
            assert(all_of(seq![displaced]) =~= displaced);
        },
        _ => {},
    }
}

proof fn lemma_wrote_through<K: Clone, V: Clone, E>(
    how: Ways<K, V>,
    ignored: Seq<bool>,
    shape: Shape,
    world: Seq<Map<K, V>>,
    write: Write<K, V>,
    left: nat,
    evicted: Seq<(K, V)>,
    trace: Seq<Event<K, V, E>>,
    key: K,
    value: V,
) -> (after: Seq<Map<K, V>>)
    requires
        faithful_clone::<K>(),
        faithful_clone::<V>(),
        fair(how, world, trace),
        world.len() == shape.tiers(),
        forall|i: nat| #[trigger] shape.writable(i) ==> !ignored[i as int],
        left <= shape.tiers(),
        replay::wrote_through(shape, write, left, evicted, trace) is Some,
    ensures
        ({
            let (rest, result) = replay::wrote_through(shape, write, left, evicted, trace)->0;
            let entries = replay::entries_of(write);
            let ro = shape.read_only;
            &&& fair(how, after, rest)
            &&& run(how, after, rest) == run(how, world, trace)
            &&& after.len() == world.len()
            &&& result matches Ok(out) ==> {
                &&& held_by(ignored, world, left, key) || lists(evicted, key) || (!lists(
                    entries,
                    key,
                ) && held_by(ignored, world, 0, key)) || (lists(entries, key) && replay::taken(
                    shape,
                    write,
                    left,
                    trace,
                )) ==> held_by(ignored, after, 0, key) || lists(out, key)
                &&& forall|entry: (K, V)| #[trigger] evicted.contains(entry) ==> out.contains(entry)
                &&& value_in(entries, key) == Some(value) && undisturbed(shape, trace, key)
                    && !out.contains((key, value)) && (first_of(ro, world, left, key) == Some(value)
                    || shape.bottom(left) is Some) ==> first_of(ro, after, 0, key) == Some(value)
                &&& !lists(entries, key) && !out.contains((key, value)) && first_of(
                    ro,
                    world,
                    0,
                    key,
                ) == Some(value) ==> first_of(ro, after, 0, key) == Some(value)
            }
            &&& forall|i: int|
                0 <= i < world.len() && !shape.writable(i as nat) ==> #[trigger] after[i]
                    == world[i]
        }),
    decreases left,
{
    if left == 0 {
        world
    } else {
        let tier = (left - 1) as nat;
        let entries = replay::entries_of(write);
        let ro = shape.read_only;
        if held_by(ignored, world, left, key) {
            let i = choose|i: int|
                left <= i < world.len() && !ignored[i] && (#[trigger] world[i]).contains_key(key);
            assert(held_by(ignored, world, tier, key));
        }
        if !shape.writable(tier) {
            lemma_wrote_through(how, ignored, shape, world, write, tier, evicted, trace, key, value)
        } else {
            let way = how(trace.len());
            let next = step(how, world, trace);
            let top = world[tier as int];
            assert(trace =~= seq![trace[0]] + trace.skip(1));
            lemma_rest(seq![trace[0]], trace.skip(1), key);
            lemma_accepted(top, write, trace[0].call, way);
            lemma_inserted(top, entries, key);
            lemma_same_lookups(ro, world, next, left, key);
            if replay::accepted(write, trace[0].call)->0 is Err {
                lemma_refused(ignored, world, tier, entries[0], way.left, 0, key);
                lemma_refused(ignored, world, tier, entries[0], way.left, left, key);
                if entries[0].0 == key {
                    assert(lists(entries, key));
                } else {
                    assert(value_in(entries, key) is None);
                    lemma_same_lookups(ro, world, next, 0, key);
                }
                if held_by(ignored, next, left, key) {
                    let i = choose|i: int|
                        left <= i < next.len() && !ignored[i] && (#[trigger] next[i]).contains_key(
                            key,
                        );
                    assert(held_by(ignored, next, tier, key));
                }
                match shape.policy.on_write_error {
                    OnWriteError::Abort => next,
                    OnWriteError::BestEffort => lemma_wrote_through(
                        how,
                        ignored,
                        shape,
                        next,
                        write,
                        tier,
                        evicted,
                        trace.skip(1),
                        key,
                        value,
                    ),
                }
            } else {
                let parts = parts_of(write, trace[0].call, way.parts);
                let displaced = all_of(parts);
                lemma_insert(ignored, world, tier, entries, parts, 0, key);
                lemma_insert(ignored, world, tier, entries, parts, tier, key);
                lemma_settled(top, entries, parts, key);
                if !shape.policy.demote_displaced {
                    let over = evicted + displaced;
                    lemma_lists_concat(evicted, displaced, key);
                    lemma_first_above(ro, world, next, 0, tier, key);
                    let after = lemma_wrote_through(
                        how,
                        ignored,
                        shape,
                        next,
                        write,
                        tier,
                        over,
                        trace.skip(1),
                        key,
                        value,
                    );
                    lemma_contained(evicted, displaced);
                    if value_in(displaced, key) == Some(value) {
                        lemma_value_contained(displaced, key, value);
                    }
                    after
                } else {
                    let mid = lemma_demoted(
                        how,
                        ignored,
                        shape,
                        next,
                        left,
                        displaced,
                        trace.skip(1),
                        key,
                        value,
                    );
                    let (rest, lost) = replay::demoted(shape, left, displaced, trace.skip(1))->0;
                    let over = evicted + lost;
                    assert(kept(ignored, next, displaced, mid, lost, 0, key));
                    assert(kept(ignored, next, displaced, mid, lost, tier, key));
                    assert(mid[tier as int] == next[tier as int]);
                    lemma_lists_concat(evicted, lost, key);
                    lemma_contained(evicted, lost);
                    lemma_first_above(ro, world, mid, 0, tier, key);
                    lemma_wrote_through(
                        how,
                        ignored,
                        shape,
                        mid,
                        write,
                        tier,
                        over,
                        rest,
                        key,
                        value,
                    )
                }
            }
        }
    }
}

proof fn lemma_contained<K, V>(a: Seq<(K, V)>, b: Seq<(K, V)>)
    ensures
        forall|entry: (K, V)| #[trigger] a.contains(entry) ==> (a + b).contains(entry),
        forall|entry: (K, V)| #[trigger] b.contains(entry) ==> (a + b).contains(entry),
{
    assert forall|entry: (K, V)| #[trigger] a.contains(entry) implies (a + b).contains(entry) by {
        assert((a + b)[a.index_of(entry)] == entry);
    }
    assert forall|entry: (K, V)| #[trigger] b.contains(entry) implies (a + b).contains(entry) by {
        assert((a + b)[a.len() + b.index_of(entry)] == entry);
    }
}

proof fn lemma_invalidated<K, V, E>(
    how: Ways<K, V>,
    shape: Shape,
    world: Seq<Map<K, V>>,
    keys: Removal<K>,
    tier: nat,
    end: nat,
    failures: Seq<Failure<E>>,
    trace: Seq<Event<K, V, E>>,
) -> (after: Seq<Map<K, V>>)
    requires
        fair(how, world, trace),
        world.len() == shape.tiers(),
        end <= shape.tiers(),
        replay::invalidated(shape, keys, tier, end, failures, trace) is Some,
    ensures
        ({
            let (rest, found) = replay::invalidated(shape, keys, tier, end, failures, trace)->0;
            &&& found == failures
            &&& fair(how, after, rest)
            &&& run(how, after, rest) == run(how, world, trace)
            &&& after.len() == world.len()
            &&& forall|i: int|
                0 <= i < world.len() ==> #[trigger] after[i] == if tier <= i < end
                    && shape.writable(i as nat) {
                    match keys {
                        Removal::One { key } => world[i].remove(key),
                        Removal::Many { keys } => world[i].remove_keys(keys.to_set()),
                    }
                } else {
                    world[i]
                }
        }),
    decreases end - tier,
{
    if tier >= end {
        world
    } else if !shape.writable(tier) {
        lemma_invalidated(how, shape, world, keys, tier + 1, end, failures, trace)
    } else {
        let next = step(how, world, trace);
        lemma_invalidated(how, shape, next, keys, tier + 1, end, failures, trace.skip(1))
    }
}

proof fn lemma_keys<K, V>(write: Write<K, V>, key: K)
    ensures
        lists(replay::entries_of(write), key) <==> match write.keys() {
            Removal::One { key: k } => k == key,
            Removal::Many { keys } => keys.to_set().contains(key),
        },
{
    let entries = replay::entries_of(write);
    match write {
        Write::One { .. } => {
            assert(entries[0].0 == write->One_key);
        },
        Write::Many { .. } => {
            let keys = write.keys()->Many_keys;
            if lists(entries, key) {
                let i = choose|i: int| 0 <= i < entries.len() && (#[trigger] entries[i]).0 == key;
                assert(keys[i] == key);
            }
            if keys.contains(key) {
                let i = choose|i: int| 0 <= i < keys.len() && keys[i] == key;
                assert(entries[i].0 == key);
            }
        },
    }
}

/// Whether no tier that keeps an older copy of `key` stands in the way of a
/// write that succeeds: refusals abort it, or no tier refuses the key.
pub open spec fn undisturbed<K, V, E>(
    shape: Shape,
    trace: Seq<Event<K, V, E>>,
    key: K,
) -> bool {
    shape.policy.on_write_error == OnWriteError::Abort || unrefused(trace, key)
}

/// A write over fair tiers, whatever its mode.
proof fn lemma_wrote<K: Clone, V: Clone, E>(
    how: Ways<K, V>,
    ignored: Seq<bool>,
    shape: Shape,
    world: Seq<Map<K, V>>,
    write: Write<K, V>,
    trace: Seq<Event<K, V, E>>,
    key: K,
    value: V,
)
    requires
        faithful_clone::<K>(),
        faithful_clone::<V>(),
        fair(how, world, trace),
        world.len() == shape.tiers(),
        replay::wrote(shape, write, trace) matches Some((rest, result)) && rest.len() == 0
            && result is Ok,
        forall|i: nat| #[trigger] shape.writable(i) ==> !ignored[i as int],
    ensures
        run(how, world, trace).len() == world.len(),
        forall|i: int|
            0 <= i < world.len() && !shape.writable(i as nat) ==> #[trigger] run(
                how,
                world,
                trace,
            )[i] == world[i],
        held_by(ignored, world, 0, key) || lists(replay::entries_of(write), key) ==> held_by(
            ignored,
            run(how, world, trace),
            0,
            key,
        ) || lists((replay::wrote(shape, write, trace)->0).1->Ok_0, key),
        !(replay::wrote(shape, write, trace)->0).1->Ok_0.contains((key, value)) && (
        if lists(replay::entries_of(write), key) {
            value_in(replay::entries_of(write), key) == Some(value) && undisturbed(
                shape,
                trace,
                key,
            )
        } else {
            first_of(shape.read_only, world, 0, key) == Some(value)
        }) ==> first_of(shape.read_only, run(how, world, trace), 0, key) == Some(value),
{
    let none = Seq::<(K, V)>::empty();
    let bottom = shape.bottom(shape.tiers())->0;
    replay::lemma_bottom(shape, shape.tiers());
    match shape.policy.write {
        WriteMode::WriteThrough => {
            let after = lemma_wrote_through(
                how,
                ignored,
                shape,
                world,
                write,
                shape.tiers(),
                none,
                trace,
                key,
                value,
            );
            assert(run(how, after, (replay::wrote(shape, write, trace)->0).0) == after);
            let (rest, lost) = replay::wrote_through(
                shape,
                write,
                shape.tiers(),
                none,
                trace,
            )->0;
            let entries = replay::entries_of(write);
            lemma_lists_concat(lost->Ok_0, entries, key);
            lemma_contained(lost->Ok_0, entries);
            lemma_inserted(Map::empty(), entries, key);
            if value_in(entries, key) == Some(value) {
                lemma_value_contained(entries, key, value);
            }
        },
        WriteMode::WriteAround => {
            let entries = replay::entries_of(write);
            let parts = parts_of(write, trace[0].call, how(trace.len()).parts);
            lemma_accepted(world[bottom as int], write, trace[0].call, how(trace.len()));
            let displaced = all_of(parts);
            let next = step(how, world, trace);
            lemma_inserted(world[bottom as int], entries, key);
            lemma_inserted(world[bottom as int], displaced, key);
            lemma_insert(ignored, world, bottom, entries, parts, 0, key);
            lemma_settled(world[bottom as int], entries, parts, key);
            let after = lemma_invalidated(
                how,
                shape,
                next,
                write.keys(),
                0,
                bottom,
                Seq::empty(),
                trace.skip(1),
            );
            lemma_keys(write, key);
            assert(after == run(how, world, trace));
            if value_in(displaced, key) == Some(value) {
                lemma_value_contained(displaced, key, value);
            }
            assert(after[bottom as int] == next[bottom as int]);
            if lists(entries, key) {
                if value_in(entries, key) == Some(value) && !displaced.contains((key, value)) {
                    assert forall|i: int|
                        0 <= i < bottom && !shape.read_only[i] implies !(
                    #[trigger] after[i]).contains_key(key) by {
                        assert(shape.writable(i as nat));
                    }
                    lemma_only_copy(shape.read_only, after, 0, bottom, key);
                }
            } else {
                assert forall|i: int| 0 <= i < after.len() && i != bottom implies lookup(
                    #[trigger] after[i],
                    key,
                ) == lookup(world[i], key) by {
                    assert(next[i] == world[i]);
                }
                lemma_first_above(shape.read_only, world, after, 0, bottom, key);
                lemma_same_lookups(shape.read_only, world, after, bottom + 1, key);
            }
            if lists(entries, key) {
                if !lists(displaced, key) {
                    assert(after[bottom as int].contains_key(key));
                }
            } else if held_by(ignored, next, 0, key) {
                let i = choose|i: int|
                    0 <= i < next.len() && !ignored[i] && (#[trigger] next[i]).contains_key(key);
                assert(after[i].contains_key(key));
            }
        },
    }
}

proof fn lemma_first_none<K, V>(world: Seq<Map<K, V>>, lo: nat, key: K)
    requires
        !held(world, lo, key),
    ensures
        first(world, lo, key) is None,
    decreases world.len() - lo,
{
    if lo < world.len() {
        assert(!world[lo as int].contains_key(key));
        if held(world, lo + 1, key) {
            let i = choose|i: int|
                lo + 1 <= i < world.len() && (#[trigger] world[i]).contains_key(key);
            assert(world[i].contains_key(key));
        }
        lemma_first_none(world, lo + 1, key);
    }
}

/// Whether an `ignored` tier holds `key` and no tier above it does.
pub open spec fn shadowed<K, V>(
    ignored: Seq<bool>,
    world: Seq<Map<K, V>>,
    lo: nat,
    key: K,
) -> bool {
    exists|i: int|
        lo <= i < world.len() && ignored[i] && (#[trigger] world[i]).contains_key(key) && forall|
            j: int,
        |
            lo <= j < i ==> !(#[trigger] world[j]).contains_key(key)
}

/// A key that is held has a topmost copy.
pub proof fn lemma_first_held<K, V>(world: Seq<Map<K, V>>, lo: nat, key: K)
    requires
        held(world, lo, key),
    ensures
        first(world, lo, key) is Some,
    decreases world.len() - lo,
{
    let i = choose|i: int| lo <= i < world.len() && (#[trigger] world[i]).contains_key(key);
    assert(world[i].contains_key(key));
    if !world[lo as int].contains_key(key) {
        assert(held(world, lo + 1, key));
        lemma_first_held(world, lo + 1, key);
    }
}

/// Where no `ignored` tier holds the topmost copy, ignoring them makes no
/// difference.
proof fn lemma_unshadowed<K, V>(ignored: Seq<bool>, world: Seq<Map<K, V>>, lo: nat, key: K)
    requires
        !shadowed(ignored, world, lo, key),
    ensures
        first(world, lo, key) == first_of(ignored, world, lo, key),
    decreases world.len() - lo,
{
    if lo < world.len() {
        let top = world[lo as int];
        if top.contains_key(key) {
            if ignored[lo as int] {
                assert(shadowed(ignored, world, lo, key));
            }
        } else {
            if shadowed(ignored, world, lo + 1, key) {
                let k = choose|k: int|
                    lo + 1 <= k < world.len() && ignored[k] && (#[trigger] world[k]).contains_key(
                        key,
                    ) && forall|j: int|
                        lo + 1 <= j < k ==> !(#[trigger] world[j]).contains_key(key);
                assert forall|j: int| lo <= j < k implies !(#[trigger] world[j]).contains_key(
                    key,
                ) by {}
                assert(world[k].contains_key(key));
            }
            lemma_unshadowed(ignored, world, lo + 1, key);
        }
    }
}

/// What each of `tiers` holds, as `reads` tells of one.
pub open spec fn holdings<T: Tier>(
    reads: spec_fn(T) -> Map<T::Key, T::Value>,
    tiers: Seq<T>,
) -> Seq<Map<T::Key, T::Value>> {
    tiers.map_values(reads)
}

/// Whether a tier's own promise makes it fair: what it holds is what `reads`
/// tells, and a call goes the way that `ways` tells.
pub open spec fn promises_fairness<T: Tier>(
    reads: spec_fn(T) -> Map<T::Key, T::Value>,
    ways: spec_fn(T, Call<T::Key, T::Value, T::Error>) -> Way<T::Key, T::Value>,
) -> bool {
    forall|x: T, y: T, call: Call<T::Key, T::Value, T::Error>| #[trigger]
        T::promised(x, y, call) ==> {
            &&& fair_call(reads(x), call, ways(x, call))
            &&& reads(y) == held_after(reads(x), call, ways(x, call))
        }
}

/// How the calls of `trace` went, which took the tiers through `moments`.
pub open spec fn ways_along<T: Tier>(
    ways: spec_fn(T, Call<T::Key, T::Value, T::Error>) -> Way<T::Key, T::Value>,
    moments: Seq<Seq<T>>,
    trace: Seq<Event<T::Key, T::Value, T::Error>>,
) -> Ways<T::Key, T::Value> {
    |left: nat|
        {
            let n = trace.len() - left;
            ways(moments[n][trace[n].tier as int], trace[n].call)
        }
}

/// The tiers of a router, after each call of its trace.
pub open spec fn moments_of<T>(router: Router<T>) -> Seq<Seq<T>> where
    T: TierRead + TierWrite,
    T::Key: Clone,
    T::Value: Clone,
 {
    Seq::new(router.trace().len() + 1, |n: int| router.moment(n))
}

/// One call of a tier that promises to be fair.
proof fn lemma_promised_call<T: Tier>(
    reads: spec_fn(T) -> Map<T::Key, T::Value>,
    ways: spec_fn(T, Call<T::Key, T::Value, T::Error>) -> Way<T::Key, T::Value>,
    now: Seq<T>,
    event: Event<T::Key, T::Value, T::Error>,
    next: Seq<T>,
)
    requires
        promises_fairness(reads, ways),
        stack::follows(now, event, next),
    ensures
        ({
            let tier = event.tier as int;
            let way = ways(now[tier], event.call);
            &&& event.tier < holdings(reads, now).len()
            &&& fair_call(holdings(reads, now)[tier], event.call, way)
            &&& holdings(reads, now).update(
                tier,
                held_after(holdings(reads, now)[tier], event.call, way),
            ) == holdings(reads, next)
        }),
{
    let tier = event.tier as int;
    let way = ways(now[tier], event.call);
    assert(T::promised(now[tier], next[tier], event.call));
    let changed = holdings(reads, now).update(
        tier,
        held_after(holdings(reads, now)[tier], event.call, way),
    );
    assert(next == now.update(tier, next[tier]));
    assert(changed =~= holdings(reads, next));
}

proof fn lemma_promised_fair<T: Tier>(
    reads: spec_fn(T) -> Map<T::Key, T::Value>,
    ways: spec_fn(T, Call<T::Key, T::Value, T::Error>) -> Way<T::Key, T::Value>,
    moments: Seq<Seq<T>>,
    trace: Seq<Event<T::Key, T::Value, T::Error>>,
    n: int,
)
    requires
        promises_fairness(reads, ways),
        moments.len() == trace.len() + 1,
        forall|m: int|
            0 <= m < trace.len() ==> stack::follows(
                moments[m],
                #[trigger] trace[m],
                moments[m + 1],
            ),
        0 <= n <= trace.len(),
    ensures
        fair(ways_along(ways, moments, trace), holdings(reads, moments[n]), trace.skip(n)),
        run(ways_along(ways, moments, trace), holdings(reads, moments[n]), trace.skip(n))
            == holdings(reads, moments[trace.len() as int]),
    decreases trace.len() - n,
{
    let rest = trace.skip(n);
    let how = ways_along(ways, moments, trace);
    if rest.len() > 0 {
        let event = trace[n];
        assert(stack::follows(moments[n], event, moments[n + 1]));
        lemma_promised_call(reads, ways, moments[n], event, moments[n + 1]);
        assert(rest[0] == event);
        assert(how(rest.len()) == ways(moments[n][event.tier as int], event.call));
        assert(step(how, holdings(reads, moments[n]), rest) == holdings(reads, moments[n + 1]));
        assert(rest.skip(1) =~= trace.skip(n + 1));
        lemma_promised_fair(reads, ways, moments, trace, n + 1);
    }
}

/// Tiers that promise to be fair are: over them, what a router asked since
/// `before` is a fair trace that leads from what the tiers held to what they
/// hold, so that every law of this module applies to it.
pub proof fn law_promises_make_fair<T>(
    reads: spec_fn(T) -> Map<T::Key, T::Value>,
    ways: spec_fn(T, Call<T::Key, T::Value, T::Error>) -> Way<T::Key, T::Value>,
    before: Router<T>,
    after: Router<T>,
) where T: TierRead + TierWrite, T::Key: Clone, T::Value: Clone
    requires
        promises_fairness(reads, ways),
        before.inv(),
        after.after(before),
    ensures
        ({
            let how = ways_along(ways, moments_of(after), after.trace());
            let old_world = Seq::new(before.shape().tiers(), |i: int| reads(before.routed(i)));
            let new_world = Seq::new(after.shape().tiers(), |i: int| reads(after.routed(i)));
            &&& fair(how, old_world, after.since(before))
            &&& run(how, old_world, after.since(before)) == new_world
        }),
{
    let old_world = Seq::new(before.shape().tiers(), |i: int| reads(before.routed(i)));
    let new_world = Seq::new(after.shape().tiers(), |i: int| reads(after.routed(i)));
    let start = before.trace().len() as int;
    let end = after.trace().len() as int;
    before.law_promises_are_kept();
    after.law_promises_are_kept();
    let moments = moments_of(after);
    assert forall|m: int| 0 <= m < after.trace().len() implies stack::follows(
        moments[m],
        #[trigger] after.trace()[m],
        moments[m + 1],
    ) by {
        assert(stack::follows(after.moment(m), after.trace()[m], after.moment(m + 1)));
    }
    lemma_promised_fair(reads, ways, moments, after.trace(), start);
    assert(after.moment(start) == before.moment(start));
    assert forall|i: int| 0 <= i < old_world.len() implies old_world[i] == holdings(
        reads,
        after.moment(start),
    )[i] by {
        assert(before.moment(start)[i] == before.routed(i));
    }
    assert(old_world =~= holdings(reads, after.moment(start)));
    assert forall|i: int| 0 <= i < new_world.len() implies new_world[i] == holdings(
        reads,
        after.moment(end),
    )[i] by {
        assert(after.moment(end)[i] == after.routed(i));
    }
    assert(new_world =~= holdings(reads, after.moment(end)));
}

/// A read over fair tiers answers with the topmost copy, or with a miss if
/// there is none.
pub proof fn law_read_finds_the_topmost_copy<K: Clone, V: Clone, E>(
    how: Ways<K, V>,
    shape: Shape,
    world: Seq<Map<K, V>>,
    key: K,
    tier: nat,
    trace: Seq<Event<K, V, E>>,
)
    requires
        fair(how, world, trace),
        world.len() == shape.tiers(),
        replay::read_from(shape, key, tier, Seq::empty(), trace) is Some,
    ensures
        (replay::read_from(shape, key, tier, Seq::empty(), trace)->0).1 == Ok::<_, Fault<E>>(
            first(world, tier, key),
        ),
    decreases shape.tiers() - tier,
{
    if tier < shape.tiers() {
        assert(step(how, world, trace) =~= world);
        if !world[tier as int].contains_key(key) {
            law_read_finds_the_topmost_copy(how, shape, world, key, tier + 1, trace.skip(1));
        }
    }
}

/// What a read gives back of a write: over fair tiers, a value that was
/// written, and that is not told to the caller as lost, is what the next read of
/// its key returns, whatever tiers refused of what was demoted into them. A
/// read-only tier, which is out of the write's reach, can stand in the way: by
/// holding the key above every copy. So can a tier that refused the new value
/// and kept an older one, where refusals do not abort.
pub proof fn law_read_your_write<K: Clone, V: Clone, E>(
    how: Ways<K, V>,
    later: Ways<K, V>,
    shape: Shape,
    world: Seq<Map<K, V>>,
    write: Write<K, V>,
    key: K,
    value: V,
    writing: Seq<Event<K, V, E>>,
    evicted: Seq<(K, V)>,
    reading: Seq<Event<K, V, E>>,
    found: Result<Option<V>, Fault<E>>,
)
    requires
        faithful_clone::<K>(),
        faithful_clone::<V>(),
        world.len() == shape.tiers(),
        value_in(replay::entries_of(write), key) == Some(value),
        fair(how, world, writing),
        replay::wrote(shape, write, writing) == Some(
            (Seq::<Event<K, V, E>>::empty(), Ok::<_, Fault<E>>(evicted)),
        ),
        !evicted.contains((key, value)),
        undisturbed(shape, writing, key),
        !shadowed(shape.read_only, run(how, world, writing), 0, key),
        fair(later, run(how, world, writing), reading),
        replay::read_from(shape, key, 0, Seq::empty(), reading) == Some(
            (Seq::<Event<K, V, E>>::empty(), found),
        ),
    ensures
        found == Ok::<_, Fault<E>>(Some(value)),
{
    let after = run(how, world, writing);
    lemma_wrote(how, shape.read_only, shape, world, write, writing, key, value);
    lemma_inserted(Map::empty(), replay::entries_of(write), key);
    law_read_finds_the_topmost_copy(later, shape, after, key, 0, reading);
    lemma_unshadowed(shape.read_only, after, 0, key);
}

/// A write leaves read-only tiers as they are, so one that stands below all
/// writable tiers, such as the origin of a cache, never stands in the way of
/// reading a write back.
pub proof fn law_origins_shadow_no_write<K: Clone, V: Clone, E>(
    how: Ways<K, V>,
    shape: Shape,
    world: Seq<Map<K, V>>,
    write: Write<K, V>,
    key: K,
    writing: Seq<Event<K, V, E>>,
    evicted: Seq<(K, V)>,
    bottom: nat,
)
    requires
        faithful_clone::<K>(),
        faithful_clone::<V>(),
        world.len() == shape.tiers(),
        lists(replay::entries_of(write), key),
        fair(how, world, writing),
        replay::wrote(shape, write, writing) == Some(
            (Seq::<Event<K, V, E>>::empty(), Ok::<_, Fault<E>>(evicted)),
        ),
        !lists(evicted, key),
        shape.bottom(shape.tiers()) == Some(bottom),
        forall|i: int|
            0 <= i < bottom && shape.read_only[i] ==> !(#[trigger] world[i]).contains_key(key),
    ensures
        !shadowed(shape.read_only, run(how, world, writing), 0, key),
        forall|i: int|
            0 <= i < world.len() && shape.read_only[i] ==> #[trigger] run(how, world, writing)[i]
                == world[i],
{
    let after = run(how, world, writing);
    let ignored = shape.read_only;
    lemma_wrote(how, ignored, shape, world, write, writing, key, arbitrary());
    replay::lemma_bottom(shape, shape.tiers());
    assert forall|i: int| 0 <= i < world.len() && shape.read_only[i] implies #[trigger] after[i]
        == world[i] by {
        assert(!shape.writable(i as nat));
    }
    if shadowed(ignored, after, 0, key) {
        let i = choose|i: int|
            0 <= i < after.len() && ignored[i] && (#[trigger] after[i]).contains_key(key) && forall|
                j: int,
            |
                0 <= j < i ==> !(#[trigger] after[j]).contains_key(key);
        assert(after[i] == world[i]);
        assert(!shape.writable(i as nat));
        assert(bottom < i);
        let k = choose|k: int|
            0 <= k < after.len() && !ignored[k] && (#[trigger] after[k]).contains_key(key);
        assert(shape.writable(k as nat));
        assert(after[k].contains_key(key));
    }
}

/// Eviction is never silent: over fair tiers, which may refuse what is written
/// or demoted into them, whatever a write pushes out of the whole stack, or
/// cannot place in it, is told to the caller.
pub proof fn law_eviction_is_never_silent<K: Clone, V: Clone, E>(
    how: Ways<K, V>,
    shape: Shape,
    world: Seq<Map<K, V>>,
    write: Write<K, V>,
    writing: Seq<Event<K, V, E>>,
    evicted: Seq<(K, V)>,
    key: K,
)
    requires
        faithful_clone::<K>(),
        faithful_clone::<V>(),
        world.len() == shape.tiers(),
        fair(how, world, writing),
        replay::wrote(shape, write, writing) == Some(
            (Seq::<Event<K, V, E>>::empty(), Ok::<_, Fault<E>>(evicted)),
        ),
        held(world, 0, key) || lists(replay::entries_of(write), key),
    ensures
        held(run(how, world, writing), 0, key) || lists(evicted, key),
{
    let ignored = none_ignored(world.len());
    lemma_wrote(how, ignored, shape, world, write, writing, key, arbitrary());
    lemma_held_by(world, 0, key);
    lemma_held_by(run(how, world, writing), 0, key);
}

/// A write changes no other entry: over fair tiers, which may refuse what is
/// written or demoted into them, the topmost copy of a key that is not written
/// stays what it was, or is told to the caller. Read-only tiers must not stand
/// in between: a copy that is demoted past one would be shadowed by its own.
pub proof fn law_other_entries_keep_their_values<K: Clone, V: Clone, E>(
    how: Ways<K, V>,
    shape: Shape,
    world: Seq<Map<K, V>>,
    write: Write<K, V>,
    writing: Seq<Event<K, V, E>>,
    evicted: Seq<(K, V)>,
    key: K,
    value: V,
)
    requires
        faithful_clone::<K>(),
        faithful_clone::<V>(),
        world.len() == shape.tiers(),
        fair(how, world, writing),
        replay::wrote(shape, write, writing) == Some(
            (Seq::<Event<K, V, E>>::empty(), Ok::<_, Fault<E>>(evicted)),
        ),
        !lists(replay::entries_of(write), key),
        first(world, 0, key) == Some(value),
        !shadowed(shape.read_only, world, 0, key),
        !shadowed(shape.read_only, run(how, world, writing), 0, key),
    ensures
        first(run(how, world, writing), 0, key) == Some(value) || evicted.contains((key, value)),
{
    lemma_unshadowed(shape.read_only, world, 0, key);
    lemma_wrote(how, shape.read_only, shape, world, write, writing, key, value);
    lemma_unshadowed(shape.read_only, run(how, world, writing), 0, key);
}

/// Calls change what the tiers hold, not how many there are.
pub proof fn lemma_run_len<K, V, E>(
    how: Ways<K, V>,
    world: Seq<Map<K, V>>,
    trace: Seq<Event<K, V, E>>,
)
    requires
        fair(how, world, trace),
    ensures
        run(how, world, trace).len() == world.len(),
    decreases trace.len(),
{
    if trace.len() > 0 {
        lemma_run_len(how, step(how, world, trace), trace.skip(1));
    }
}

proof fn lemma_removed<K, V, E>(
    how: Ways<K, V>,
    shape: Shape,
    world: Seq<Map<K, V>>,
    key: K,
    tier: nat,
    existed: bool,
    trace: Seq<Event<K, V, E>>,
) -> (after: Seq<Map<K, V>>)
    requires
        fair(how, world, trace),
        world.len() == shape.tiers(),
        replay::removed_from(shape, key, tier, existed, Seq::empty(), trace) is Some,
    ensures
        ({
            let (rest, result) = replay::removed_from(
                shape,
                key,
                tier,
                existed,
                Seq::empty(),
                trace,
            )->0;
            &&& fair(how, after, rest)
            &&& run(how, after, rest) == run(how, world, trace)
            &&& after.len() == world.len()
            &&& result == Ok::<_, Fault<E>>(
                existed || exists|i: int|
                    tier <= i < world.len() && shape.writable(i as nat) && (
                    #[trigger] world[i]).contains_key(key),
            )
            &&& forall|i: int|
                0 <= i < world.len() ==> #[trigger] after[i] == if tier <= i && shape.writable(
                    i as nat,
                ) {
                    world[i].remove(key)
                } else {
                    world[i]
                }
        }),
    decreases shape.tiers() - tier,
{
    if tier >= shape.tiers() {
        world
    } else if !shape.writable(tier) {
        lemma_removed(how, shape, world, key, tier + 1, existed, trace)
    } else {
        let next = step(how, world, trace);
        let present = world[tier as int].contains_key(key);
        let after = lemma_removed(
            how,
            shape,
            next,
            key,
            tier + 1,
            existed || present,
            trace.skip(1),
        );
        assert forall|i: int| tier < i < world.len() implies #[trigger] next[i] == world[i] by {}
        assert((exists|i: int|
            tier + 1 <= i < next.len() && shape.writable(i as nat) && (
            #[trigger] next[i]).contains_key(key)) == (exists|i: int|
            tier + 1 <= i < world.len() && shape.writable(i as nat) && (
            #[trigger] world[i]).contains_key(key))) by {
            if exists|i: int|
                tier + 1 <= i < world.len() && shape.writable(i as nat) && (
                #[trigger] world[i]).contains_key(key) {
                let i = choose|i: int|
                    tier + 1 <= i < world.len() && shape.writable(i as nat) && (
                    #[trigger] world[i]).contains_key(key);
                assert(next[i].contains_key(key));
            }
        }
        after
    }
}

/// Deletes are all-tier: over fair tiers, of which the read-only ones do not
/// hold the key, a removal says whether any tier held it, and no read finds it
/// afterwards.
pub proof fn law_deleted_keys_stay_away<K: Clone, V: Clone, E>(
    how: Ways<K, V>,
    later: Ways<K, V>,
    shape: Shape,
    world: Seq<Map<K, V>>,
    key: K,
    removing: Seq<Event<K, V, E>>,
    removed: Result<bool, Fault<E>>,
    reading: Seq<Event<K, V, E>>,
    found: Result<Option<V>, Fault<E>>,
)
    requires
        world.len() == shape.tiers(),
        forall|i: int|
            0 <= i < world.len() && shape.read_only[i] ==> !(#[trigger] world[i]).contains_key(key),
        fair(how, world, removing),
        replay::removed_from(shape, key, 0, false, Seq::empty(), removing) == Some(
            (Seq::<Event<K, V, E>>::empty(), removed),
        ),
        fair(later, run(how, world, removing), reading),
        replay::read_from(shape, key, 0, Seq::empty(), reading) == Some(
            (Seq::<Event<K, V, E>>::empty(), found),
        ),
    ensures
        removed == Ok::<_, Fault<E>>(held(world, 0, key)),
        found == Ok::<_, Fault<E>>(None::<V>),
{
    let after = lemma_removed(how, shape, world, key, 0, false, removing);
    assert(after == run(how, world, removing));
    assert(!held(after, 0, key)) by {
        if held(after, 0, key) {
            let i = choose|i: int| 0 <= i < after.len() && (#[trigger] after[i]).contains_key(key);
            assert(after[i] == world[i] || after[i] == world[i].remove(key));
            assert(!world[i].contains_key(key));
        }
    }
    if held(world, 0, key) {
        let i = choose|i: int| 0 <= i < world.len() && (#[trigger] world[i]).contains_key(key);
        assert(shape.writable(i as nat));
        assert(world[i].contains_key(key));
    }
    law_read_finds_the_topmost_copy(later, shape, after, key, 0, reading);
    lemma_first_none(after, 0, key);
}

/// An existence check over fair tiers says whether a read would find the key,
/// and changes nothing.
pub proof fn law_contains_agrees_with_get<K: Clone, V: Clone, E>(
    how: Ways<K, V>,
    shape: Shape,
    world: Seq<Map<K, V>>,
    key: K,
    tier: nat,
    asking: Seq<Event<K, V, E>>,
)
    requires
        fair(how, world, asking),
        world.len() == shape.tiers(),
        replay::sought_from(shape, key, tier, Seq::empty(), asking) matches Some((rest, _))
            && rest.len() == 0,
    ensures
        (replay::sought_from(shape, key, tier, Seq::empty(), asking)->0).1 == Ok::<_, Fault<E>>(
            first(world, tier, key) is Some,
        ),
        run(how, world, asking) == world,
    decreases shape.tiers() - tier,
{
    if tier < shape.tiers() {
        assert(step(how, world, asking) =~= world);
        if !world[tier as int].contains_key(key) {
            law_contains_agrees_with_get(how, shape, world, key, tier + 1, asking.skip(1));
        }
    }
}

/// A batched read over fair tiers answers every key as a read of that key alone
/// would: with the topmost copy, or with a confirmed miss. No tier fails it.
pub proof fn law_batched_read_finds_the_topmost_copies<K: Clone, V: Clone, E>(
    how: Ways<K, V>,
    shape: Shape,
    world: Seq<Map<K, V>>,
    keys: Seq<K>,
    trace: Seq<Event<K, V, E>>,
    i: int,
)
    requires
        faithful_clone::<K>(),
        fair(how, world, trace),
        world.len() == shape.tiers(),
        shape.tiers() <= usize::MAX,
        keys.len() <= usize::MAX,
        replay::gathered(shape, keys, trace) is Some,
        0 <= i < keys.len(),
    ensures
        (replay::gathered(shape, keys, trace)->0).1 matches Ok((statuses, failures)) && {
            &&& failures.len() == 0
            &&& statuses.len() == keys.len()
            &&& !(statuses[i] is Inconclusive)
            &&& statuses[i].found() == first(world, 0, keys[i])
        },
{
    let all = Seq::new(keys.len(), |j: int| j as usize);
    let none = Seq::new(keys.len(), |j: int| KeyStatus::<V>::Miss);
    assert forall|j: int| 0 <= j < none.len() implies (#[trigger] none[j] is Miss <==> all.contains(
        j as usize,
    )) by {
        assert(all[j] == j as usize);
    }
    lemma_gathered_first(how, shape, world, keys, 0, none, all, trace, i);
}

proof fn lemma_gathered_first<K: Clone, V: Clone, E>(
    how: Ways<K, V>,
    shape: Shape,
    world: Seq<Map<K, V>>,
    keys: Seq<K>,
    tier: nat,
    statuses: Seq<KeyStatus<V>>,
    unresolved: Seq<usize>,
    trace: Seq<Event<K, V, E>>,
    i: int,
)
    requires
        faithful_clone::<K>(),
        fair(how, world, trace),
        world.len() == shape.tiers(),
        shape.tiers() <= usize::MAX,
        keys.len() <= usize::MAX,
        statuses.len() == keys.len(),
        conduct::in_step(statuses, unresolved),
        0 <= i < keys.len(),
        !(statuses[i] is Inconclusive),
        replay::gathered_from(shape, keys, tier, statuses, unresolved, Seq::empty(), trace) is Some,
    ensures
        (replay::gathered_from(
            shape,
            keys,
            tier,
            statuses,
            unresolved,
            Seq::empty(),
            trace,
        )->0).1 matches Ok((known, failures)) && {
            &&& failures.len() == 0
            &&& known.len() == keys.len()
            &&& !(known[i] is Inconclusive)
            &&& statuses[i] is Hit ==> known[i] == statuses[i]
            &&& statuses[i] is Miss ==> known[i].found() == first(world, tier, keys[i])
        },
    decreases shape.tiers() - tier,
{
    if tier >= shape.tiers() || unresolved.len() == 0 {
        if statuses[i] is Miss {
            assert(unresolved.contains(i as usize));
        }
    } else {
        let wanted = replay::at(keys, unresolved);
        let asked = trace[0].call->GetMany_keys;
        let found = trace[0].call->GetMany_values->Ok_0;
        assert(step(how, world, trace) =~= world);
        assert(asked =~= wanted) by {
            assert forall|j: int| 0 <= j < wanted.len() implies #[trigger] asked[j] == wanted[j] by {
                assert(cloned(wanted[j], asked[j]));
            }
        }
        let count = unresolved.len();
        conduct::lemma_resolved(statuses, unresolved, found, tier, count);
        conduct::lemma_resolved_in_step(statuses, unresolved, found, tier);
        let (now, missing) = replay::resolved(statuses, unresolved, found, tier, count);
        if statuses[i] is Miss {
            let j = choose|j: int| 0 <= j < unresolved.len() && unresolved[j] == i as usize;
            assert(unresolved[j] == i);
            assert(found[j] == lookup(world[tier as int], keys[i]));
        } else {
            assert forall|j: int| 0 <= j < count implies #[trigger] unresolved[j] != i by {
                if unresolved[j] == i {
                    assert(unresolved.contains(i as usize));
                }
            }
        }
        lemma_gathered_first(how, shape, world, keys, tier + 1, now, missing, trace.skip(1), i);
    }
}

proof fn lemma_cleared<K, V, E>(
    how: Ways<K, V>,
    shape: Shape,
    world: Seq<Map<K, V>>,
    keys: Seq<K>,
    tier: nat,
    removed: Seq<bool>,
    trace: Seq<Event<K, V, E>>,
) -> (after: Seq<Map<K, V>>)
    requires
        fair(how, world, trace),
        world.len() == shape.tiers(),
        replay::cleared_from(shape, keys, tier, removed, Seq::empty(), trace) is Some,
    ensures
        ({
            let (rest, (_, failures)) = replay::cleared_from(
                shape,
                keys,
                tier,
                removed,
                Seq::empty(),
                trace,
            )->0;
            &&& failures.len() == 0
            &&& fair(how, after, rest)
            &&& run(how, after, rest) == run(how, world, trace)
            &&& after.len() == world.len()
            &&& forall|i: int|
                0 <= i < world.len() ==> #[trigger] after[i] == if tier <= i && shape.writable(
                    i as nat,
                ) {
                    world[i].remove_keys(keys.to_set())
                } else {
                    world[i]
                }
        }),
    decreases shape.tiers() - tier,
{
    if tier >= shape.tiers() {
        world
    } else if !shape.writable(tier) {
        lemma_cleared(how, shape, world, keys, tier + 1, removed, trace)
    } else {
        let next = step(how, world, trace);
        let flags = trace[0].call->DeleteMany_flags->Ok_0;
        let after = lemma_cleared(
            how,
            shape,
            next,
            keys,
            tier + 1,
            replay::joined(removed, flags),
            trace.skip(1),
        );
        assert forall|i: int| tier < i < world.len() implies #[trigger] next[i] == world[i] by {}
        after
    }
}

/// Batched deletes are all-tier too: over fair tiers, of which the read-only
/// ones do not hold the key, no tier fails a batched removal, and no read finds
/// any of its keys afterwards.
pub proof fn law_batched_deleted_keys_stay_away<K: Clone, V: Clone, E>(
    how: Ways<K, V>,
    later: Ways<K, V>,
    shape: Shape,
    world: Seq<Map<K, V>>,
    keys: Seq<K>,
    removing: Seq<Event<K, V, E>>,
    report: (Seq<bool>, Seq<Failure<E>>),
    key: K,
    reading: Seq<Event<K, V, E>>,
    found: Result<Option<V>, Fault<E>>,
)
    requires
        world.len() == shape.tiers(),
        keys.contains(key),
        forall|i: int|
            0 <= i < world.len() && shape.read_only[i] ==> !(#[trigger] world[i]).contains_key(key),
        fair(how, world, removing),
        replay::cleared(shape, keys, removing) == Some((Seq::<Event<K, V, E>>::empty(), report)),
        fair(later, run(how, world, removing), reading),
        replay::read_from(shape, key, 0, Seq::empty(), reading) == Some(
            (Seq::<Event<K, V, E>>::empty(), found),
        ),
    ensures
        report.1.len() == 0,
        found == Ok::<_, Fault<E>>(None::<V>),
{
    let none = Seq::new(keys.len(), |i: int| false);
    let after = lemma_cleared(how, shape, world, keys, 0, none, removing);
    assert(after == run(how, world, removing));
    assert(keys.to_set().contains(key));
    assert(!held(after, 0, key)) by {
        if held(after, 0, key) {
            let i = choose|i: int| 0 <= i < after.len() && (#[trigger] after[i]).contains_key(key);
            assert(after[i] == world[i] || after[i] == world[i].remove_keys(keys.to_set()));
            assert(!world[i].contains_key(key));
        }
    }
    law_read_finds_the_topmost_copy(later, shape, after, key, 0, reading);
    lemma_first_none(after, 0, key);
}

/// Whether tier `tier` never displaces anything in `trace`: it is unbounded, or
/// has room.
pub open spec fn roomy<K, V, E>(tier: nat, trace: Seq<Event<K, V, E>>) -> bool {
    forall|i: int|
        0 <= i < trace.len() && (#[trigger] trace[i]).tier == tier ==> match trace[i].call {
            Call::Put { displaced, .. } => displaced matches Ok(displaced) && displaced.len() == 0,
            Call::PutMany { displaced: Ok(displaced), .. } => displaced.len() == 0,
            _ => true,
        }
}

proof fn lemma_roomy_rest<K, V, E>(tier: nat, trace: Seq<Event<K, V, E>>)
    requires
        roomy(tier, trace),
        trace.len() > 0,
    ensures
        roomy(tier, trace.skip(1)),
{
    let tail = trace.skip(1);
    assert forall|i: int|
        0 <= i < tail.len() && (#[trigger] tail[i]).tier == tier implies match tail[i].call {
        Call::Put { displaced, .. } => displaced matches Ok(displaced) && displaced.len() == 0,
        Call::PutMany { displaced: Ok(displaced), .. } => displaced.len() == 0,
        _ => true,
    } by {
        assert(tail[i] == trace[i + 1]);
    }
}

proof fn lemma_poured_roomy<K: Clone, V: Clone, E>(
    bottom: nat,
    target: nat,
    entries: Seq<(K, V)>,
    over: Over<K, V>,
    trace: Seq<Event<K, V, E>>,
)
    requires
        roomy(bottom, trace),
        unfailing(trace),
        replay::poured(target, entries, over, trace) is Some,
    ensures
        ({
            let (rest, out) = replay::poured(target, entries, over, trace)->0;
            &&& roomy(bottom, rest)
            &&& unfailing(rest)
            &&& out.refused == over.refused
            &&& target == bottom && over.displaced.len() == 0 ==> out.displaced.len() == 0
        }),
    decreases entries.len(),
{
    if entries.len() > 0 {
        let more = over.after(entries[0], trace[0].call->Put_displaced);
        lemma_roomy_rest(bottom, trace);
        assert(trace =~= seq![trace[0]] + trace.skip(1));
        lemma_rest(seq![trace[0]], trace.skip(1), entries[0].0);
        assert(!trace[0].call.failed());
        lemma_poured_roomy(bottom, target, entries.skip(1), more, trace.skip(1));
    }
}

proof fn lemma_demoted_roomy<K: Clone, V: Clone, E>(
    shape: Shape,
    bottom: nat,
    target: nat,
    entries: Seq<(K, V)>,
    trace: Seq<Event<K, V, E>>,
)
    requires
        roomy(bottom, trace),
        unfailing(trace),
        shape.writable(bottom),
        target <= bottom || entries.len() == 0,
        replay::demoted(shape, target, entries, trace) is Some,
    ensures
        roomy(bottom, (replay::demoted(shape, target, entries, trace)->0).0),
        (replay::demoted(shape, target, entries, trace)->0).1.len() == 0,
    decreases shape.tiers() - target,
{
    if target >= shape.tiers() || entries.len() == 0 {
    } else if !shape.writable(target) {
        lemma_demoted_roomy(shape, bottom, target + 1, entries, trace);
    } else {
        let none = Over::<K, V>::none();
        let (rest, over) = replay::poured(target, entries, none, trace)->0;
        lemma_poured_roomy(bottom, target, entries, none, trace);
        lemma_demoted_roomy(shape, bottom, target + 1, over.displaced, rest);
    }
}

/// Promotion into roomy stacks loses nothing.
proof fn lemma_filled_keeps<K: Clone, V: Clone, E>(
    how: Ways<K, V>,
    shape: Shape,
    world: Seq<Map<K, V>>,
    write: Write<K, V>,
    target: nat,
    end: nat,
    bottom: nat,
    trace: Seq<Event<K, V, E>>,
    key: K,
) -> (after: Seq<Map<K, V>>)
    requires
        faithful_clone::<K>(),
        faithful_clone::<V>(),
        fair(how, world, trace),
        world.len() == shape.tiers(),
        end <= shape.tiers(),
        shape.policy.demote_displaced,
        shape.bottom(shape.tiers()) == Some(bottom),
        roomy(bottom, trace),
        unfailing(trace),
        replay::filled(shape, write, target, end, trace) is Some,
    ensures
        ({
            let rest = replay::filled(shape, write, target, end, trace)->0;
            &&& fair(how, after, rest)
            &&& run(how, after, rest) == run(how, world, trace)
            &&& after.len() == world.len()
            &&& roomy(bottom, rest)
            &&& unfailing(rest)
            &&& held(world, 0, key) ==> held(after, 0, key)
        }),
    decreases end - target,
{
    if target >= end {
        world
    } else if !shape.writable(target) {
        lemma_filled_keeps(how, shape, world, write, target + 1, end, bottom, trace, key)
    } else {
        replay::lemma_bottom(shape, shape.tiers());
        assert(target <= bottom);
        let next = step(how, world, trace);
        assert(!trace[0].call.failed());
        lemma_accepted(world[target as int], write, trace[0].call, how(trace.len()));
        let parts = parts_of(write, trace[0].call, how(trace.len()).parts);
        let displaced = all_of(parts);
        let ignored = none_ignored(world.len());
        lemma_insert(ignored, world, target, replay::entries_of(write), parts, 0, key);
        lemma_held_by(world, 0, key);
        lemma_held_by(next, 0, key);
        lemma_roomy_rest(bottom, trace);
        assert(trace =~= seq![trace[0]] + trace.skip(1));
        lemma_rest(seq![trace[0]], trace.skip(1), key);
        if displaced.len() > 0 {
            assert(target != bottom);
            let tail = trace.skip(1);
            lemma_demoted_roomy(shape, bottom, target + 1, displaced, tail);
            let mid = lemma_demoted(
                how,
                ignored,
                shape,
                next,
                target + 1,
                displaced,
                tail,
                key,
                arbitrary(),
            );
            let (rest, out) = replay::demoted(shape, target + 1, displaced, tail)->0;
            assert(kept(ignored, next, displaced, mid, out, 0, key));
            lemma_held_by(mid, 0, key);
            lemma_filled_keeps(how, shape, mid, write, target + 1, end, bottom, rest, key)
        } else {
            lemma_filled_keeps(how, shape, next, write, target + 1, end, bottom, trace.skip(1), key)
        }
    }
}

/// Rollover keeps what promotion displaces reachable: over fair tiers, of which
/// the bottommost writable one has room, a read with demotion loses no key.
pub proof fn law_reads_lose_nothing<K: Clone, V: Clone, E>(
    how: Ways<K, V>,
    shape: Shape,
    world: Seq<Map<K, V>>,
    wanted: K,
    tier: nat,
    bottom: nat,
    trace: Seq<Event<K, V, E>>,
    key: K,
)
    requires
        faithful_clone::<K>(),
        faithful_clone::<V>(),
        fair(how, world, trace),
        world.len() == shape.tiers(),
        shape.policy.demote_displaced,
        shape.bottom(shape.tiers()) == Some(bottom),
        roomy(bottom, trace),
        unfailing(trace),
        replay::read_from(shape, wanted, tier, Seq::empty(), trace) matches Some((rest, _))
            && rest.len() == 0,
        held(world, 0, key),
    ensures
        held(run(how, world, trace), 0, key),
    decreases shape.tiers() - tier,
{
    if tier < shape.tiers() {
        assert(step(how, world, trace) =~= world);
        lemma_roomy_rest(bottom, trace);
        assert(trace =~= seq![trace[0]] + trace.skip(1));
        lemma_rest(seq![trace[0]], trace.skip(1), key);
        match trace[0].call->Get_found->Ok_0 {
            Some(value) => {
                let write = Write::One { key: wanted, value };
                let end = read::promotions(shape.policy.read, tier);
                let after = lemma_filled_keeps(
                    how,
                    shape,
                    world,
                    write,
                    0,
                    end,
                    bottom,
                    trace.skip(1),
                    key,
                );
                assert(held(after, 0, key));
            },
            None => {
                law_reads_lose_nothing(
                    how,
                    shape,
                    world,
                    wanted,
                    tier + 1,
                    bottom,
                    trace.skip(1),
                    key,
                );
            },
        }
    }
}

proof fn lemma_promoted_keeps<K: Clone, V: Clone, E>(
    how: Ways<K, V>,
    shape: Shape,
    world: Seq<Map<K, V>>,
    keys: Seq<K>,
    statuses: Seq<KeyStatus<V>>,
    tier: nat,
    bottom: nat,
    trace: Seq<Event<K, V, E>>,
    key: K,
)
    requires
        faithful_clone::<K>(),
        faithful_clone::<V>(),
        fair(how, world, trace),
        world.len() == shape.tiers(),
        shape.policy.demote_displaced,
        shape.bottom(shape.tiers()) == Some(bottom),
        roomy(bottom, trace),
        unfailing(trace),
        replay::promoted_from(shape, keys, statuses, tier, trace) matches Some(rest) && rest.len()
            == 0,
        held(world, 0, key),
    ensures
        held(run(how, world, trace), 0, key),
    decreases shape.tiers() - tier,
{
    if tier < shape.tiers() && shape.policy.read.promote != Promote::Never {
        let entries = replay::hits_of(keys, statuses, tier, keys.len());
        if entries.len() == 0 {
            lemma_promoted_keeps(how, shape, world, keys, statuses, tier + 1, bottom, trace, key);
        } else {
            let write = Write::Many { entries };
            let end = read::promotions(shape.policy.read, tier);
            let after = lemma_filled_keeps(how, shape, world, write, 0, end, bottom, trace, key);
            let rest = replay::filled(shape, write, 0, end, trace)->0;
            lemma_promoted_keeps(how, shape, after, keys, statuses, tier + 1, bottom, rest, key);
        }
    }
}

/// A batched read with demotion loses no key either.
pub proof fn law_batched_reads_lose_nothing<K: Clone, V: Clone, E>(
    how: Ways<K, V>,
    shape: Shape,
    world: Seq<Map<K, V>>,
    keys: Seq<K>,
    bottom: nat,
    trace: Seq<Event<K, V, E>>,
    key: K,
)
    requires
        faithful_clone::<K>(),
        faithful_clone::<V>(),
        fair(how, world, trace),
        world.len() == shape.tiers(),
        shape.policy.demote_displaced,
        shape.bottom(shape.tiers()) == Some(bottom),
        roomy(bottom, trace),
        unfailing(trace),
        replay::gathered(shape, keys, trace) matches Some((rest, _)) && rest.len() == 0,
        held(world, 0, key),
    ensures
        held(run(how, world, trace), 0, key),
{
    lemma_gathered_keeps(
        how,
        shape,
        world,
        keys,
        0,
        Seq::new(keys.len(), |j: int| KeyStatus::Miss),
        Seq::new(keys.len(), |j: int| j as usize),
        bottom,
        trace,
        key,
    );
}

proof fn lemma_gathered_keeps<K: Clone, V: Clone, E>(
    how: Ways<K, V>,
    shape: Shape,
    world: Seq<Map<K, V>>,
    keys: Seq<K>,
    tier: nat,
    statuses: Seq<KeyStatus<V>>,
    unresolved: Seq<usize>,
    bottom: nat,
    trace: Seq<Event<K, V, E>>,
    key: K,
)
    requires
        faithful_clone::<K>(),
        faithful_clone::<V>(),
        fair(how, world, trace),
        world.len() == shape.tiers(),
        shape.policy.demote_displaced,
        shape.bottom(shape.tiers()) == Some(bottom),
        roomy(bottom, trace),
        unfailing(trace),
        replay::gathered_from(shape, keys, tier, statuses, unresolved, Seq::empty(), trace)
            matches Some((rest, _)) && rest.len() == 0,
        held(world, 0, key),
    ensures
        held(run(how, world, trace), 0, key),
    decreases shape.tiers() - tier,
{
    if tier >= shape.tiers() || unresolved.len() == 0 {
        let known = replay::concluded(statuses, unresolved, Seq::<Failure<E>>::empty());
        lemma_promoted_keeps(how, shape, world, keys, known, 1, bottom, trace, key);
    } else {
        let found = trace[0].call->GetMany_values->Ok_0;
        assert(step(how, world, trace) =~= world);
        lemma_roomy_rest(bottom, trace);
        assert(trace =~= seq![trace[0]] + trace.skip(1));
        lemma_rest(seq![trace[0]], trace.skip(1), key);
        let count = if found.len() < unresolved.len() {
            found.len()
        } else {
            unresolved.len()
        };
        let (now, missing) = replay::resolved(statuses, unresolved, found, tier, count);
        lemma_gathered_keeps(
            how,
            shape,
            world,
            keys,
            tier + 1,
            now,
            missing,
            bottom,
            trace.skip(1),
            key,
        );
    }
}

/// Whether no call of `trace` is refused, and none displaces anything.
pub open spec fn smooth<K, V, E>(trace: Seq<Event<K, V, E>>) -> bool {
    forall|i: int|
        0 <= i < trace.len() ==> {
            &&& outcomes::error_in((#[trigger] trace[i]).call) is None
            &&& outcomes::pushed_out(trace[i].call).len() == 0
        }
}

/// Whether tier `tier` is given the entry of `key` and `value` in `trace`.
spec fn given<K, V, E>(trace: Seq<Event<K, V, E>>, tier: nat, key: K, value: V) -> bool {
    exists|n: int|
        0 <= n < trace.len() && (#[trigger] trace[n]).tier == tier && outcomes::carries(
            trace[n].call,
            key,
            value,
        )
}

/// A tier with room that is given `key` with one value only holds it in the end.
proof fn lemma_placed<K, V, E>(
    how: Ways<K, V>,
    world: Seq<Map<K, V>>,
    trace: Seq<Event<K, V, E>>,
    tier: nat,
    key: K,
    value: V,
)
    requires
        fair(how, world, trace),
        smooth(trace),
        tier < world.len(),
        forall|i: int|
            0 <= i < trace.len() ==> !((#[trigger] trace[i]).call is Delete)
                && !(trace[i].call is DeleteMany),
        forall|n: int, v: V|
            0 <= n < trace.len() && trace[n].tier == tier && #[trigger] outcomes::carries(
                trace[n].call,
                key,
                v,
            ) ==> v == value,
        lookup(world[tier as int], key) == Some(value) || given(trace, tier, key, value),
    ensures
        lookup(run(how, world, trace)[tier as int], key) == Some(value),
    decreases trace.len(),
{
    if trace.len() > 0 {
        let event = trace[0];
        let tail = trace.skip(1);
        let next = step(how, world, trace);
        let held = world[tier as int];
        assert forall|i: int| 0 <= i < tail.len() implies #[trigger] tail[i] == trace[i + 1] by {}
        assert(outcomes::error_in(event.call) is None && outcomes::pushed_out(event.call).len()
            == 0);
        assert(lookup(next[tier as int], key) == Some(value) || given(tail, tier, key, value)) by {
            if event.tier == tier && outcomes::carries(event.call, key, value) {
                lemma_put_smooth(held, event.call, how(trace.len()), key, value);
            } else if given(trace, tier, key, value) {
                let n = choose|n: int|
                    0 <= n < trace.len() && (#[trigger] trace[n]).tier == tier && outcomes::carries(
                        trace[n].call,
                        key,
                        value,
                    );
                assert(tail[n - 1] == trace[n]);
            } else if event.tier == tier {
                lemma_put_smooth(held, event.call, how(trace.len()), key, value);
            }
        }
        assert forall|n: int, v: V|
            0 <= n < tail.len() && tail[n].tier == tier && #[trigger] outcomes::carries(
                tail[n].call,
                key,
                v,
            ) implies v == value by {
            assert(outcomes::carries(trace[n + 1].call, key, v));
        }
        lemma_placed(how, next, tail, tier, key, value);
    }
}

proof fn lemma_put_smooth<K, V, E>(
    held: Map<K, V>,
    call: Call<K, V, E>,
    way: Way<K, V>,
    key: K,
    value: V,
)
    requires
        fair_call(held, call, way),
        outcomes::error_in(call) is None,
        outcomes::pushed_out(call).len() == 0,
        !(call is Delete) && !(call is DeleteMany),
        forall|v: V| #[trigger] outcomes::carries(call, key, v) ==> v == value,
        lookup(held, key) == Some(value) || outcomes::carries(call, key, value),
    ensures
        lookup(held_after(held, call, way), key) == Some(value),
{
    match call {
        Call::Put { key: k, value: v, displaced } => {
            let entries = seq![(k, v)];
            let parts = seq![displaced->Ok_0];
            lemma_settled(held, entries, parts, key);
            assert(parts.drop_last() =~= Seq::empty());
            assert(entries.drop_last() =~= Seq::empty());
            reveal_with_fuel(all_of, 2);
            reveal_with_fuel(value_in, 2);
            assert(all_of(parts) =~= Seq::empty());
            if k == key {
                assert(outcomes::carries(call, key, v));
            }
        },
        Call::PutMany { entries, displaced } => {
            lemma_settled(held, entries, way.parts, key);
            lemma_inserted(held, entries, key);
            assert(all_of(way.parts).len() == 0);
            match value_in(entries, key) {
                Some(v) => {
                    lemma_value_contained(entries, key, v);
                    assert(outcomes::carries(call, key, v));
                },
                None => {
                    if outcomes::carries(call, key, value) {
                        let slot = entries.index_of((key, value));
                        assert(entries[slot].0 == key);
                    }
                },
            }
        },
        _ => {},
    }
}

/// A batched read leaves copies where the policy wants them: over fair tiers
/// none of which refuses or displaces anything, a key that was found in some
/// tier is afterwards held, with the value that was returned, by every open tier
/// above it if all are to get a copy, and by the topmost one if it alone is.
pub proof fn law_batched_reads_leave_copies_above<K: Clone, V: Clone, E>(
    how: Ways<K, V>,
    shape: Shape,
    world: Seq<Map<K, V>>,
    keys: Seq<K>,
    trace: Seq<Event<K, V, E>>,
    statuses: Seq<KeyStatus<V>>,
    failures: Seq<Failure<E>>,
    i: int,
    above: nat,
)
    requires
        faithful_clone::<K>(),
        faithful_clone::<V>(),
        fair(how, world, trace),
        smooth(trace),
        world.len() == shape.tiers(),
        shape.tiers() <= usize::MAX,
        keys.len() <= usize::MAX,
        replay::gathered(shape, keys, trace) == Some(
            (Seq::<Event<K, V, E>>::empty(), Ok::<_, Fault<E>>((statuses, failures))),
        ),
        0 <= i < keys.len(),
        statuses[i] is Hit,
        above < statuses[i]->tier,
        !shape.read_only[above as int],
        shape.policy.read.promote == Promote::AllAbove || (shape.policy.read.promote
            == Promote::TopOnly && above == 0),
    ensures
        lookup(run(how, world, trace)[above as int], keys[i]) == Some(statuses[i]->value),
{
    let result = Ok::<_, Fault<E>>((statuses, failures));
    let probes = outcomes::law_batched_reads_promote_what_they_find(shape, keys, trace, result);
    let moved = trace.skip(probes);
    let own = outcomes::finds(keys, statuses, keys.len());
    let key = keys[i];
    let value = statuses[i]->value;
    let none = Seq::new(keys.len(), |j: int| KeyStatus::<V>::Miss);
    let all = Seq::new(keys.len(), |j: int| j as usize);
    outcomes::lemma_gathered_named(shape, keys, 0, none, all, Seq::<Failure<E>>::empty(), trace);
    law_batched_read_finds_the_topmost_copies(how, shape, world, keys, trace, i);
    assert(outcomes::open_to(shape, above));
    assert(outcomes::offered(moved, 0, above, key, value));
    let n = choose|n: int|
        0 <= n < moved.len() && (#[trigger] moved[n]).tier == above && outcomes::inserts(
            moved[n].call,
            key,
            value,
        );
    assert forall|j: int| 0 <= j < moved.len() implies #[trigger] moved[j] == trace[j + probes] by {
    }
    assert(outcomes::carries(trace[n + probes].call, key, value)) by {
        assert(moved[n] == trace[n + probes]);
        match moved[n].call {
            Call::PutMany { entries, .. } => {
                let slot = choose|slot: int|
                    0 <= slot < entries.len() && cloned(key, (#[trigger] entries[slot]).0)
                        && cloned(value, entries[slot].1);
                assert(entries[slot] == (key, value));
                assert(entries.contains((key, value)));
            },
            _ => {},
        }
    }
    assert(given(trace, above, key, value)) by {
        assert(trace[n + probes].tier == above);
    }
    assert forall|m: int, v: V|
        0 <= m < trace.len() && trace[m].tier == above && #[trigger] outcomes::carries(
            trace[m].call,
            key,
            v,
        ) implies v == value by {
        assert(m >= probes);
        let at = m - probes;
        assert(moved[at] == trace[m]);
        assert(outcomes::carries(moved[at].call, key, v));
        let entry = choose|entry: (K, V)| #[trigger]
            outcomes::known(moved, at, own, entry) && cloned(entry.0, key) && cloned(entry.1, v);
        assert(own.contains(entry)) by {
            if !own.contains(entry) {
                let j = choose|j: int|
                    0 <= j < at && outcomes::pushed_out((#[trigger] moved[j]).call).contains(entry);
                assert(outcomes::pushed_out(trace[j + probes].call).len() == 0);
            }
        }
        let other = outcomes::lemma_finds_found(keys, statuses, keys.len(), entry);
        law_batched_read_finds_the_topmost_copies(how, shape, world, keys, trace, other);
    }
    assert forall|m: int| 0 <= m < trace.len() implies !((#[trigger] trace[m]).call is Delete)
        && !(trace[m].call is DeleteMany) by {
        if m >= probes {
            assert(moved[m - probes] == trace[m]);
        }
    }
    lemma_placed(how, world, trace, above, key, value);
}

/// A read leaves copies where the policy wants them, as a batched read does: over
/// fair tiers none of which refuses or displaces anything, a key that was found
/// in the tier number `hit`, and in none above, is afterwards held, with the value
/// that was returned, by every open tier above it if all are to get a copy, and
/// by the topmost one if it alone is.
pub proof fn law_reads_leave_copies_above<K: Clone, V: Clone, E>(
    how: Ways<K, V>,
    shape: Shape,
    world: Seq<Map<K, V>>,
    key: K,
    trace: Seq<Event<K, V, E>>,
    value: V,
    hit: nat,
    above: nat,
)
    requires
        faithful_clone::<K>(),
        faithful_clone::<V>(),
        fair(how, world, trace),
        smooth(trace),
        world.len() == shape.tiers(),
        replay::read_from(shape, key, 0, Seq::empty(), trace) == Some(
            (Seq::<Event<K, V, E>>::empty(), Ok::<_, Fault<E>>(Some(value))),
        ),
        hit < world.len(),
        world[hit as int].contains_key(key),
        forall|t: int| 0 <= t < hit ==> !(#[trigger] world[t]).contains_key(key),
        above < hit,
        !shape.read_only[above as int],
        shape.policy.read.promote == Promote::AllAbove || (shape.policy.read.promote
            == Promote::TopOnly && above == 0),
    ensures
        lookup(run(how, world, trace)[above as int], key) == Some(value),
{
    let found = Ok::<_, Fault<E>>(Some(value));
    let probes = outcomes::law_reads_tell_what_the_tiers_said(shape, key, trace, found);
    let moved = trace.skip(probes);
    let write = Write::One { key, value };
    lemma_probes_fair(how, world, trace, probes);
    assert(probes - 1 == hit) by {
        let last = (probes - 1) as int;
        assert(fair_call(world[last], trace[last].call, how((trace.len() - last) as nat)));
        if hit < probes - 1 {
            let at = hit as int;
            assert(fair_call(world[at], trace[at].call, how((trace.len() - at) as nat)));
        }
    }
    assert(outcomes::open_to(shape, above));
    assert(outcomes::handed(moved, above, write));
    let n = choose|n: int|
        0 <= n < moved.len() && (#[trigger] moved[n]).tier == above && outcomes::hands_on(
            write,
            moved[n].call,
        );
    assert(moved[n] == trace[n + probes]);
    assert(given(trace, above, key, value)) by {
        assert(trace[n + probes].tier == above);
    }
    assert forall|m: int, v: V|
        0 <= m < trace.len() && trace[m].tier == above && #[trigger] outcomes::carries(
            trace[m].call,
            key,
            v,
        ) implies v == value by {
        assert(m >= probes);
        let at = m - probes;
        assert(moved[at] == trace[m]);
        assert(outcomes::carries(moved[at].call, key, v));
        let own = outcomes::carried(write);
        let entry = choose|entry: (K, V)| #[trigger]
            outcomes::known(moved, at, own, entry) && cloned(entry.0, key) && cloned(entry.1, v);
        assert(own.contains(entry)) by {
            if !own.contains(entry) {
                let j = choose|j: int|
                    0 <= j < at && outcomes::pushed_out((#[trigger] moved[j]).call).contains(entry);
                assert(moved[j] == trace[j + probes]);
                assert(outcomes::pushed_out(trace[j + probes].call).len() == 0);
            }
        }
        assert(entry == (key, value));
    }
    assert forall|m: int| 0 <= m < trace.len() implies !((#[trigger] trace[m]).call is Delete)
        && !(trace[m].call is DeleteMany) by {
        if m >= probes {
            assert(moved[m - probes] == trace[m]);
        }
    }
    lemma_placed(how, world, trace, above, key, value);
}

/// Lookups change nothing: each of the first `probes` calls is answered from the
/// same contents.
proof fn lemma_probes_fair<K, V, E>(
    how: Ways<K, V>,
    world: Seq<Map<K, V>>,
    trace: Seq<Event<K, V, E>>,
    probes: int,
)
    requires
        fair(how, world, trace),
        0 <= probes <= trace.len(),
        forall|i: int| 0 <= i < probes ==> (#[trigger] trace[i]).call is Get,
    ensures
        forall|i: int|
            0 <= i < probes ==> (#[trigger] trace[i]).tier < world.len() && fair_call(
                world[trace[i].tier as int],
                trace[i].call,
                how((trace.len() - i) as nat),
            ),
    decreases probes,
{
    if probes > 0 {
        let tail = trace.skip(1);
        assert(step(how, world, trace) =~= world);
        assert forall|i: int| 0 <= i < probes - 1 implies (#[trigger] tail[i]).call is Get by {
            assert(tail[i] == trace[i + 1]);
        }
        lemma_probes_fair(how, world, tail, probes - 1);
        assert forall|i: int| 0 <= i < probes implies (#[trigger] trace[i]).tier < world.len()
            && fair_call(
            world[trace[i].tier as int],
            trace[i].call,
            how((trace.len() - i) as nat),
        ) by {
            if i > 0 {
                assert(tail[i - 1] == trace[i]);
            }
        }
    }
}

/// A batched removal says what was there: over tiers that flag truthfully which
/// of the keys they held, a key that stood earlier in the batch having been
/// removed with its first mention, the flag of a key is set exactly where one of
/// the open tiers held it.
pub proof fn law_batched_removals_say_what_was_there<K, V, E>(
    shape: Shape,
    world: Seq<Map<K, V>>,
    keys: Seq<K>,
    removing: Seq<Event<K, V, E>>,
    removed: Seq<bool>,
    failures: Seq<Failure<E>>,
    i: int,
)
    requires
        world.len() == shape.tiers(),
        replay::cleared(shape, keys, removing) == Some(
            (Seq::<Event<K, V, E>>::empty(), (removed, failures)),
        ),
        forall|n: int|
            0 <= n < removing.len() ==> ((#[trigger] removing[n]).call matches Call::DeleteMany {
                flags: Ok(flags),
                ..
            } && flags.len() == keys.len() && forall|j: int|
                0 <= j < keys.len() ==> (#[trigger] flags[j] <==> world[removing[n].tier as int].contains_key(
                    keys[j],
                ) && !keys.take(j).contains(keys[j]))),
        0 <= i < keys.len(),
    ensures
        failures.len() == 0,
        removed[i] <==> !keys.take(i).contains(keys[i]) && exists|t: int|
            0 <= t < world.len() && !shape.read_only[t] && (#[trigger] world[t]).contains_key(
                keys[i],
            ),
{
    outcomes::law_removal_flags_join_all_answers(shape, keys, removing, removed, failures);
    outcomes::lemma_no_troubles(shape, removing);
    if removed[i] {
        let n = choose|n: int|
            0 <= n < removing.len() && ((#[trigger] removing[n]).call matches Call::DeleteMany {
                flags: Ok(flags),
                ..
            } && i < flags.len() && flags[i]);
        assert(world[removing[n].tier as int].contains_key(keys[i]));
    }
    if !keys.take(i).contains(keys[i]) && exists|t: int|
        0 <= t < world.len() && !shape.read_only[t] && (#[trigger] world[t]).contains_key(
            keys[i],
        ) {
        let t = choose|t: int|
            0 <= t < world.len() && !shape.read_only[t] && (#[trigger] world[t]).contains_key(
                keys[i],
            );
        assert(outcomes::open_to(shape, t as nat));
        let n = choose|n: int| 0 <= n < removing.len() && (#[trigger] removing[n]).tier == t as nat;
        let flags = removing[n].call->DeleteMany_flags->Ok_0;
        assert(flags[i]);
        assert(removing[n].call matches Call::DeleteMany { flags: Ok(flags), .. } && i < flags.len()
            && flags[i]);
    }
}

} // verus!
