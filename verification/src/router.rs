//! The tier router: mechanism, not policy.
//!
//! [`Router`] drives the sans-io [`ReadFlow`] against real tiers. All semantic
//! choices (promotion, error fall-through, write propagation, demotion) come
//! from [`Policy`].
//!
//! The router implements the tier traits itself, so a router can be a tier of
//! another router: hierarchies compose.

use vstd::prelude::*;

use crate::error;
use crate::error::{Failure, Fault, RouterError, TierFailure};
use crate::policy::{OnReadError, OnWriteError, Policy, Promote, ReadPolicy, WriteMode};
use crate::read;
use crate::read::{Probe, ReadFlow, ReadOutcome, ReadStep};
use crate::replay;
use crate::replay::{Over, Removal, Shape, Write};
use crate::report::{DeleteReport, KeyStatus, ReadReport};
use crate::stack;
use crate::stack::{Event, Stack, TierStats};
use crate::tier;
use crate::tier::{Call, Displaced, Tier, TierRead, TierWrite};

verus! {

/// Routes reads and writes across an ordered stack of tiers.
///
/// Tier `0` is the topmost (fastest); reads probe downward. Behaviour is
/// governed entirely by [`Policy`]. Construct with [`Router::builder`].
pub struct Router<T: TierRead + TierWrite> {
    stack: Stack<T>,
    policy: Policy,
    log: Ghost<Seq<Call<T::Key, T::Value, RouterError<T::Error>>>>,
}

/// Builder for [`Router`]; add tiers top-down.
pub struct RouterBuilder<T: TierRead + TierWrite> {
    stack: Stack<T>,
    policy: Policy,
}

/// Something to be written, of which each tier gets a copy.
enum Load<'a, K, V> {
    One { key: &'a K, value: &'a V },
    Many { entries: &'a Vec<(K, V)> },
    Hits { keys: &'a [K], statuses: &'a Vec<KeyStatus<V>>, tier: usize },
}

impl<K, V> Load<'_, K, V> {
    spec fn wf(&self) -> bool {
        self matches Load::Hits { keys, statuses, .. } ==> keys@.len() == statuses@.len()
    }
}

impl<K, V> View for Load<'_, K, V> {
    type V = Write<K, V>;

    closed spec fn view(&self) -> Write<K, V> {
        match self {
            Load::One { key, value } => Write::One { key: **key, value: **value },
            Load::Many { entries } => Write::Many { entries: entries@ },
            Load::Hits { keys, statuses, tier } => Write::Many {
                entries: replay::hits_of(keys@, statuses@, *tier as nat, keys@.len()),
            },
        }
    }
}

/// Keys whose copies are stale.
enum Stale<'a, K> {
    One { key: &'a K },
    Many { keys: &'a Vec<K> },
}

impl<K> View for Stale<'_, K> {
    type V = Removal<K>;

    closed spec fn view(&self) -> Removal<K> {
        match self {
            Stale::One { key } => Removal::One { key: **key },
            Stale::Many { keys } => Removal::Many { keys: keys@ },
        }
    }
}

fn copy_entries<K: Clone, V: Clone>(entries: &Vec<(K, V)>) -> (clones: Vec<(K, V)>)
    ensures
        replay::copied_entries(entries@, clones@),
{
    let mut clones: Vec<(K, V)> = Vec::with_capacity(entries.len());
    let mut i: usize = 0;
    while i < entries.len()
        invariant
            i <= entries.len(),
            clones@.len() == i,
            forall|j: int|
                0 <= j < i ==> {
                    &&& cloned((#[trigger] entries@[j]).0, clones@[j].0)
                    &&& cloned(entries@[j].1, clones@[j].1)
                },
        decreases entries.len() - i,
    {
        let entry = &entries[i];
        clones.push((entry.0.clone(), entry.1.clone()));
        i += 1;
    }
    clones
}

fn copy_hits<K: Clone, V: Clone>(
    keys: &[K],
    statuses: &Vec<KeyStatus<V>>,
    tier: usize,
) -> (clones: Vec<(K, V)>)
    requires
        keys@.len() == statuses@.len(),
    ensures
        replay::copied_entries(
            replay::hits_of(keys@, statuses@, tier as nat, keys@.len()),
            clones@,
        ),
{
    let mut clones: Vec<(K, V)> = Vec::new();
    let mut i: usize = 0;
    while i < keys.len()
        invariant
            i <= keys@.len(),
            keys@.len() == statuses@.len(),
            replay::copied_entries(
                replay::hits_of(keys@, statuses@, tier as nat, i as nat),
                clones@,
            ),
        decreases keys@.len() - i,
    {
        if let KeyStatus::Hit { tier: served, value } = &statuses[i] {
            if *served == tier {
                clones.push((keys[i].clone(), value.clone()));
            }
        }
        i += 1;
    }
    clones
}

fn has_hits<K, V>(keys: &[K], statuses: &Vec<KeyStatus<V>>, tier: usize) -> (any: bool)
    requires
        keys@.len() == statuses@.len(),
    ensures
        any == (replay::hits_of(keys@, statuses@, tier as nat, keys@.len()).len() > 0),
{
    let mut any = false;
    let mut i: usize = 0;
    while i < statuses.len()
        invariant
            i <= statuses@.len(),
            any == (replay::hits_of(keys@, statuses@, tier as nat, i as nat).len() > 0),
        decreases statuses@.len() - i,
    {
        if let KeyStatus::Hit { tier: served, .. } = &statuses[i] {
            if *served == tier {
                any = true;
            }
        }
        i += 1;
    }
    any
}

fn copy_keys<K: Clone>(keys: &[K], indices: &Vec<usize>) -> (clones: Vec<K>)
    requires
        forall|i: int| 0 <= i < indices@.len() ==> #[trigger] indices@[i] < keys@.len(),
    ensures
        replay::copies(replay::at(keys@, indices@), clones@),
{
    let mut clones: Vec<K> = Vec::with_capacity(indices.len());
    let mut i: usize = 0;
    while i < indices.len()
        invariant
            i <= indices@.len(),
            forall|j: int| 0 <= j < indices@.len() ==> #[trigger] indices@[j] < keys@.len(),
            clones@.len() == i,
            forall|j: int| 0 <= j < i ==> cloned(keys@[#[trigger] indices@[j] as int], clones@[j]),
        decreases indices@.len() - i,
    {
        clones.push(keys[indices[i]].clone());
        i += 1;
    }
    clones
}

impl<T> RouterBuilder<T> where T: TierRead + TierWrite, T::Key: Clone, T::Value: Clone {
    /// The builder's internal invariant.
    pub closed spec fn wf(&self) -> bool {
        &&& self.stack.inv()
        &&& self.stack.trace() == Seq::<Event<T::Key, T::Value, T::Error>>::empty()
    }

    /// What a router built now would be.
    pub closed spec fn shape(&self) -> Shape {
        Shape {
            names: self.stack.names(),
            read_only: self.stack.read_only(),
            policy: self.policy,
        }
    }

    /// The tier added as number `tier`.
    pub closed spec fn added(&self, tier: int) -> T {
        self.stack.tier(tier)
    }

    /// Appends `tier` below all previously added tiers (first added is the
    /// topmost/fastest).
    #[must_use]
    pub fn tier(self, tier: T) -> (builder: Self)
        requires
            self.wf(),
            tier.inv(),
        ensures
            builder.wf(),
            builder.shape() == (Shape {
                names: self.shape().names.push(tier.label()),
                read_only: self.shape().read_only.push(false),
                policy: self.shape().policy,
            }),
            builder.added(self.shape().names.len() as int) == tier,
            forall|i: int|
                0 <= i < self.shape().names.len() ==> #[trigger] builder.added(i) == self.added(i),
    {
        let mut stack = self.stack;
        stack.push(tier, false);
        RouterBuilder { stack, policy: self.policy }
    }

    /// Appends `tier` below all previously added tiers as an origin that is
    /// read from but never written.
    #[must_use]
    pub fn read_only_tier(self, tier: T) -> (builder: Self)
        requires
            self.wf(),
            tier.inv(),
        ensures
            builder.wf(),
            builder.shape() == (Shape {
                names: self.shape().names.push(tier.label()),
                read_only: self.shape().read_only.push(true),
                policy: self.shape().policy,
            }),
            builder.added(self.shape().names.len() as int) == tier,
            forall|i: int|
                0 <= i < self.shape().names.len() ==> #[trigger] builder.added(i) == self.added(i),
    {
        let mut stack = self.stack;
        stack.push(tier, true);
        RouterBuilder { stack, policy: self.policy }
    }

    /// Replaces the routing policy (defaults to [`Policy::default`]).
    #[must_use]
    pub fn policy(self, policy: Policy) -> (builder: Self)
        requires
            self.wf(),
        ensures
            builder.wf(),
            builder.shape() == (Shape { policy, ..self.shape() }),
            forall|i: int| #[trigger] builder.added(i) == self.added(i),
    {
        RouterBuilder { stack: self.stack, policy }
    }

    /// Finishes the router. A router over zero tiers is a configuration bug.
    #[must_use]
    pub fn build(self) -> (router: Router<T>)
        requires
            self.wf(),
            self.shape().tiers() > 0,
        ensures
            router.inv(),
            router.shape() == self.shape(),
            router.trace() == Seq::<Event<T::Key, T::Value, T::Error>>::empty(),
            router.history() == Seq::<Call<T::Key, T::Value, RouterError<T::Error>>>::empty(),
            forall|i: int| #[trigger] router.routed(i) == self.added(i),
    {
        proof {
            self.stack.lemma_len();
        }
        Router { stack: self.stack, policy: self.policy, log: Ghost(Seq::empty()) }
    }
}

impl<T> Router<T> where T: TierRead + TierWrite, T::Key: Clone, T::Value: Clone {
    /// Tiers and policy.
    pub closed spec fn shape(&self) -> Shape {
        Shape {
            names: self.stack.names(),
            read_only: self.stack.read_only(),
            policy: self.policy,
        }
    }

    /// Everything asked of the tiers, in order.
    pub closed spec fn trace(&self) -> Seq<Event<T::Key, T::Value, T::Error>> {
        self.stack.trace()
    }

    /// Tier `tier` itself.
    pub closed spec fn routed(&self, tier: int) -> T {
        self.stack.tier(tier)
    }

    /// The calls that tier `tier` had served before it was added.
    pub closed spec fn born(&self, tier: int) -> Seq<Call<T::Key, T::Value, T::Error>> {
        self.stack.born(tier)
    }

    /// What has been asked of the tiers since `before`.
    pub open spec fn since(&self, before: Router<T>) -> Seq<Event<T::Key, T::Value, T::Error>> {
        self.trace().skip(before.trace().len() as int)
    }

    /// `self` is `before` after some more calls to its tiers.
    pub open spec fn after(&self, before: Router<T>) -> bool {
        &&& self.inv()
        &&& self.shape() == before.shape()
        &&& before.trace().is_prefix_of(self.trace())
        &&& forall|i: int|
            0 <= i < self.shape().tiers() ==> #[trigger] self.born(i) == before.born(i)
        &&& forall|n: int|
            0 <= n <= before.trace().len() ==> #[trigger] self.moment(n) == before.moment(n)
    }

    /// The tiers as they were after the first `n` calls of the trace.
    pub closed spec fn moment(&self, n: int) -> Seq<T> {
        self.stack.moment(n)
    }

    /// Every call of the trace changed the tiers as the tier that served it
    /// promises, up to what they are now.
    pub proof fn law_promises_are_kept(&self)
        requires
            self.inv(),
        ensures
            forall|n: int|
                0 <= n < self.trace().len() ==> stack::follows(
                    self.moment(n),
                    #[trigger] self.trace()[n],
                    self.moment(n + 1),
                ),
            self.moment(self.trace().len() as int).len() == self.shape().tiers(),
            forall|i: int|
                0 <= i < self.shape().tiers() ==> #[trigger] self.moment(
                    self.trace().len() as int,
                )[i] == self.routed(i),
    {
        self.stack.law_promises_are_kept();
        assert forall|n: int| 0 <= n < self.trace().len() implies stack::follows(
            self.moment(n),
            #[trigger] self.trace()[n],
            self.moment(n + 1),
        ) by {
            assert(stack::follows(
                self.stack.moment(n),
                self.stack.trace()[n],
                self.stack.moment(n + 1),
            ));
        }
        let now = self.trace().len() as int;
        assert forall|i: int| 0 <= i < self.shape().tiers() implies #[trigger] self.moment(now)[i]
            == self.routed(i) by {
            assert(self.stack.moment(now)[i] == self.stack.tier(i));
        }
    }

    /// The calls of the trace are the calls that the tiers served.
    pub proof fn law_trace_is_faithful(&self, tier: int)
        requires
            self.inv(),
            0 <= tier < self.shape().tiers(),
        ensures
            self.routed(tier).inv(),
            self.routed(tier).history() == self.born(tier) + stack::calls_on(
                self.trace(),
                tier as nat,
            ),
    {
        self.stack.law_trace_is_faithful(tier);
    }

    /// `self` is `before` after exactly the calls `done`.
    spec fn ran(
        &self,
        before: Router<T>,
        done: Seq<Event<T::Key, T::Value, T::Error>>,
    ) -> bool {
        &&& self.inv()
        &&& self.shape() == before.shape()
        &&& self.log == before.log
        &&& self.trace() == before.trace() + done
        &&& forall|i: int|
            0 <= i < self.shape().tiers() ==> #[trigger] self.born(i) == before.born(i)
        &&& forall|n: int|
            0 <= n <= before.trace().len() ==> #[trigger] self.moment(n) == before.moment(n)
    }

    /// One more call after `done`.
    proof fn lemma_step(
        self,
        mid: Router<T>,
        start: Router<T>,
        done: Seq<Event<T::Key, T::Value, T::Error>>,
        event: Event<T::Key, T::Value, T::Error>,
    )
        requires
            mid.ran(start, done),
            self.stack.served(mid.stack, event.tier, event.call),
            self.policy == mid.policy,
            self.log == mid.log,
        ensures
            self.ran(start, done.push(event)),
    {
        assert(self.trace() =~= start.trace() + done.push(event));
        assert forall|i: int| 0 <= i < self.shape().tiers() implies #[trigger] self.born(i)
            == start.born(i) by {
            assert(self.stack.born(i) == mid.stack.born(i));
            assert(mid.born(i) == start.born(i));
        }
        assert forall|n: int| 0 <= n <= start.trace().len() implies #[trigger] self.moment(n)
            == start.moment(n) by {
            assert(self.stack.moment(n) == mid.stack.moment(n));
            assert(mid.moment(n) == start.moment(n));
        }
    }

    /// The calls `more` after `done`.
    proof fn lemma_chain(
        self,
        mid: Router<T>,
        start: Router<T>,
        done: Seq<Event<T::Key, T::Value, T::Error>>,
        more: Seq<Event<T::Key, T::Value, T::Error>>,
    )
        requires
            mid.ran(start, done),
            self.ran(mid, more),
        ensures
            self.ran(start, done + more),
    {
        assert(self.trace() =~= start.trace() + (done + more));
        assert forall|i: int| 0 <= i < self.shape().tiers() implies #[trigger] self.born(i)
            == start.born(i) by {
            assert(mid.born(i) == start.born(i));
        }
        assert forall|n: int| 0 <= n <= start.trace().len() implies #[trigger] self.moment(n)
            == start.moment(n) by {
            assert(mid.moment(n) == start.moment(n));
        }
    }

    /// Records a call that the router itself served.
    fn record(
        &mut self,
        call: Ghost<Call<T::Key, T::Value, RouterError<T::Error>>>,
        start: Ghost<Router<T>>,
    )
        requires
            old(self).after(start@),
        ensures
            final(self).after(start@),
            final(self).since(start@) == old(self).since(start@),
            final(self).history() == old(self).history().push(call@),
    {
        self.log = Ghost(self.log@.push(call@));
        proof {
            assert forall|i: int| 0 <= i < self.shape().tiers() implies #[trigger] self.born(i)
                == start@.born(i) by {
                assert(old(self).born(i) == start@.born(i));
            }
            assert forall|n: int| 0 <= n <= start@.trace().len() implies #[trigger] self.moment(n)
                == start@.moment(n) by {
                assert(old(self).moment(n) == start@.moment(n));
            }
        }
    }

    /// A run is told apart by its calls.
    proof fn lemma_since(self, start: Router<T>, done: Seq<Event<T::Key, T::Value, T::Error>>)
        requires
            self.ran(start, done),
        ensures
            self.since(start) == done,
            self.after(start),
    {
        assert(self.since(start) =~= done);
    }
}

impl<T> Tier for Router<T> where T: TierRead + TierWrite, T::Key: Clone, T::Value: Clone {
    type Key = T::Key;

    type Value = T::Value;

    type Error = RouterError<T::Error>;

    closed spec fn inv(&self) -> bool {
        &&& self.stack.inv()
        &&& self.stack.names().len() > 0
        &&& self.stack.names().len() == self.stack.read_only().len()
        &&& self.stack.names().len() <= usize::MAX
    }

    closed spec fn history(&self) -> Seq<Call<T::Key, T::Value, RouterError<T::Error>>> {
        self.log@
    }

    open spec fn label(&self) -> Seq<char> {
        "router"@
    }

    /// The calls made to the tiers in between are those of the operation, and
    /// what they gave is what it returned.
    open spec fn promised(
        before: Self,
        after: Self,
        call: Call<T::Key, T::Value, RouterError<T::Error>>,
    ) -> bool {
        let shape = before.shape();
        let trace = after.since(before);
        let none = Seq::<Event<T::Key, T::Value, T::Error>>::empty();
        &&& after.after(before)
        &&& match call {
            Call::Get { key, found } => replay::read_from(shape, key, 0, Seq::empty(), trace)
                == Some((none, error::answer(found))),
            Call::Exists { key, present } => replay::sought_from(
                shape,
                key,
                0,
                Seq::empty(),
                trace,
            ) == Some((none, error::answer(present))),
            Call::GetMany { keys, values } => replay::gathered(shape, keys, trace) matches Some(
                (rest, report),
            ) && rest == none && error::answer(values) == replay::degraded(report),
            Call::Put { key, value, displaced } => replay::wrote(
                shape,
                Write::One { key, value },
                trace,
            ) == Some((none, error::answer(displaced))),
            Call::PutMany { entries, displaced } => replay::wrote(
                shape,
                Write::Many { entries },
                trace,
            ) == Some((none, error::answer(displaced))),
            Call::Delete { key, removed } => replay::removed_from(
                shape,
                key,
                0,
                false,
                Seq::empty(),
                trace,
            ) == Some((none, error::answer(removed))),
            Call::DeleteMany { keys, flags } => replay::cleared(shape, keys, trace) matches Some(
                (rest, (removed, failures)),
            ) && rest == none && error::answer(flags) == (if failures.len() > 0 {
                Err(Fault::Partial(failures))
            } else {
                Ok(removed)
            }),
        }
    }

    fn name(&self) -> (name: &str) {
        "router"
    }
}

impl<T> Router<T> where T: TierRead + TierWrite, T::Key: Clone, T::Value: Clone {
    /// Starts building a router with the default [`Policy`].
    #[must_use]
    pub fn builder() -> (builder: RouterBuilder<T>)
        ensures
            builder.wf(),
            builder.shape() == (Shape {
                names: Seq::empty(),
                read_only: Seq::empty(),
                policy: Policy {
                    read: ReadPolicy {
                        promote: Promote::Never,
                        on_error: OnReadError::FallThrough,
                    },
                    write: WriteMode::WriteThrough,
                    on_write_error: OnWriteError::Abort,
                    demote_displaced: false,
                },
            }),
    {
        RouterBuilder { stack: Stack::new(), policy: Policy::default() }
    }

    /// The router's routing policy.
    #[must_use]
    pub fn policy(&self) -> (policy: Policy)
        ensures
            policy == self.shape().policy,
    {
        self.policy
    }

    /// Number of tiers in the stack.
    #[must_use]
    pub fn tier_count(&self) -> (count: usize)
        ensures
            count == self.shape().tiers(),
    {
        self.stack.len()
    }

    /// Inserts `entries` one by one into tier `target`. Returns what they
    /// displaced, and those that it refused.
    fn pour(&mut self, target: usize, entries: Displaced<T::Key, T::Value>) -> (over: (
        Displaced<T::Key, T::Value>,
        Displaced<T::Key, T::Value>,
    ))
        requires
            old(self).inv(),
            target < old(self).shape().tiers(),
        ensures
            final(self).ran(*old(self), final(self).since(*old(self))),
            forall|rest: Seq<Event<T::Key, T::Value, T::Error>>| #[trigger]
                replay::poured(
                    target as nat,
                    entries@,
                    Over::none(),
                    final(self).since(*old(self)) + rest,
                ) == Some((rest, Over { displaced: over.0@, refused: over.1@ })),
    {
        let ghost start = *self;
        let ghost all = entries@;
        let ghost mut done: Seq<Event<T::Key, T::Value, T::Error>> = Seq::empty();
        let mut displaced: Displaced<T::Key, T::Value> = Vec::new();
        let mut refused: Displaced<T::Key, T::Value> = Vec::new();
        proof {
            assert(self.trace() =~= start.trace() + done);
            assert(displaced@ =~= Seq::empty() && refused@ =~= Seq::empty());
            assert forall|rest: Seq<Event<T::Key, T::Value, T::Error>>| #[trigger]
                replay::poured(target as nat, all, Over::none(), done + rest) == replay::poured(
                    target as nat,
                    all.skip(0),
                    Over { displaced: displaced@, refused: refused@ },
                    rest,
                ) by {
                assert(done + rest =~= rest);
                assert(all.skip(0) =~= all);
            }
        }
        for entry in source: entries.into_iter()
            invariant
                source.seq() == all,
                start == *old(self),
                target < self.shape().tiers(),
                self.ran(start, done),
                forall|rest: Seq<Event<T::Key, T::Value, T::Error>>| #[trigger]
                    replay::poured(target as nat, all, Over::none(), done + rest)
                        == replay::poured(
                        target as nat,
                        all.skip(source.index() as int),
                        Over { displaced: displaced@, refused: refused@ },
                        rest,
                    ),
        {
            let ghost index = source.index() as int;
            let ghost held = Over { displaced: displaced@, refused: refused@ };
            let ghost before = *self;
            let (key, value) = entry;
            let ghost asked = (key, value);
            let (key_copy, value_copy) = (key.clone(), value.clone());
            let ghost sent = (key_copy, value_copy);
            let answer = self.stack.put(target, key_copy, value_copy);
            let ghost event = Event {
                tier: target as nat,
                call: Call::Put {
                    key: sent.0,
                    value: sent.1,
                    displaced: tier::seq_answer(answer),
                },
            };
            match answer {
                Ok(pushed) => {
                    let mut pushed = pushed;
                    displaced.append(&mut pushed);
                },
                Err(_) => {
                    refused.push((key, value));
                },
            }
            proof {
                let ghost prior = done;
                self.lemma_step(before, start, done, event);
                done = done.push(event);
                assert(held.after(asked, event.call->Put_displaced) == (Over {
                    displaced: displaced@,
                    refused: refused@,
                }));
                assert forall|rest: Seq<Event<T::Key, T::Value, T::Error>>| #[trigger]
                    replay::poured(target as nat, all, Over::none(), done + rest)
                        == replay::poured(
                        target as nat,
                        all.skip(index + 1),
                        Over { displaced: displaced@, refused: refused@ },
                        rest,
                    ) by {
                    let full = seq![event] + rest;
                    assert(prior + full =~= done + rest);
                    assert(full.skip(1) =~= rest);
                    assert(all.skip(index).skip(1) =~= all.skip(index + 1));
                    assert(all.skip(index)[0] == asked);
                }
            }
        }
        proof {
            self.lemma_since(start, done);
            assert(all.skip(all.len() as int).len() == 0);
        }
        (displaced, refused)
    }

    /// Pushes entries displaced from tier `from` down the hierarchy,
    /// cascading further displacements. Returns whatever fell off the bottom
    /// (i.e. was evicted from the store entirely).
    ///
    /// An entry that its tier refuses goes no further, but it is not dropped
    /// either: it is returned as well.
    fn demote(&mut self, from: usize, entries: Displaced<T::Key, T::Value>) -> (lost: Displaced<
        T::Key,
        T::Value,
    >)
        requires
            old(self).inv(),
            from < old(self).shape().tiers(),
        ensures
            final(self).ran(*old(self), final(self).since(*old(self))),
            forall|rest: Seq<Event<T::Key, T::Value, T::Error>>| #[trigger]
                replay::demoted(
                    old(self).shape(),
                    (from + 1) as nat,
                    entries@,
                    final(self).since(*old(self)) + rest,
                ) == Some((rest, lost@)),
    {
        let ghost start = *self;
        let ghost shape = self.shape();
        let ghost all = entries@;
        let ghost mut done: Seq<Event<T::Key, T::Value, T::Error>> = Seq::empty();
        let mut lost: Displaced<T::Key, T::Value> = Vec::new();
        let mut current = entries;
        let mut target: usize = from + 1;
        proof {
            assert(self.trace() =~= start.trace() + done);
            assert forall|rest: Seq<Event<T::Key, T::Value, T::Error>>| #[trigger]
                replay::demoted(shape, (from + 1) as nat, all, done + rest) == replay::told_first(
                    lost@,
                    replay::demoted(shape, target as nat, current@, rest),
                ) by {
                assert(done + rest =~= rest);
                let result = replay::demoted(shape, target as nat, current@, rest);
                if let Some((left, out)) = result {
                    assert(lost@ + out =~= out);
                }
            }
        }
        while target < self.stack.len() && current.len() > 0
            invariant
                start == *old(self),
                shape == start.shape(),
                target <= shape.tiers(),
                self.ran(start, done),
                forall|rest: Seq<Event<T::Key, T::Value, T::Error>>| #[trigger]
                    replay::demoted(shape, (from + 1) as nat, all, done + rest)
                        == replay::told_first(
                        lost@,
                        replay::demoted(shape, target as nat, current@, rest),
                    ),
            decreases shape.tiers() - target,
        {
            let ghost held = current@;
            let ghost told = lost@;
            let ghost before = *self;
            if self.stack.writable(target) {
                let (next, mut refused) = self.pour(target, current);
                let ghost over = Over { displaced: next@, refused: refused@ };
                lost.append(&mut refused);
                proof {
                    let ghost prior = done;
                    let ghost more = self.since(before);
                    self.lemma_chain(before, start, done, more);
                    done = done + more;
                    assert forall|rest: Seq<Event<T::Key, T::Value, T::Error>>| #[trigger]
                        replay::demoted(shape, (from + 1) as nat, all, done + rest)
                            == replay::told_first(
                            lost@,
                            replay::demoted(shape, (target + 1) as nat, next@, rest),
                        ) by {
                        assert(prior + (more + rest) =~= done + rest);
                        assert(replay::poured(target as nat, held, Over::none(), more + rest)
                            == Some((rest, over)));
                        let result = replay::demoted(shape, (target + 1) as nat, next@, rest);
                        if let Some((left, out)) = result {
                            assert(told + (over.refused + out) =~= lost@ + out);
                        }
                    }
                }
                current = next;
            }
            target += 1;
        }
        proof {
            self.lemma_since(start, done);
        }
        let ghost told = lost@;
        let ghost fallen = current@;
        lost.append(&mut current);
        assert(lost@ == told + fallen);
        lost
    }

    /// Writes a copy of `load` into tier `target`.
    fn store(&mut self, target: usize, load: &Load<'_, T::Key, T::Value>) -> (displaced: Result<
        Displaced<T::Key, T::Value>,
        T::Error,
    >)
        requires
            old(self).inv(),
            target < old(self).shape().tiers(),
            load.wf(),
        ensures
            final(self).trace().len() == old(self).trace().len() + 1,
            final(self).ran(*old(self), seq![final(self).trace().last()]),
            final(self).trace().last().tier == target,
            replay::accepted(load@, final(self).trace().last().call) == Some(
                tier::seq_answer(displaced),
            ),
    {
        let ghost start = *self;
        let displaced = match load {
            Load::One { key, value } => self.stack.put(target, (*key).clone(), (*value).clone()),
            Load::Many { entries } => self.stack.put_many(target, copy_entries(*entries)),
            Load::Hits { keys, statuses, tier } => self.stack.put_many(
                target,
                copy_hits(*keys, *statuses, *tier),
            ),
        };
        proof {
            let ghost event = self.trace().last();
            assert(start.trace() =~= start.trace() + Seq::<
                Event<T::Key, T::Value, T::Error>,
            >::empty());
            self.lemma_step(start, start, Seq::empty(), event);
            assert(Seq::<Event<T::Key, T::Value, T::Error>>::empty().push(event) =~= seq![event]);
        }
        displaced
    }

    /// Copies `load` into tier `target` if it is writable. Best effort: a
    /// failed promotion must not fail the read. Entries that the copy displaces
    /// roll over into the next tier down.
    fn promote(&mut self, target: usize, load: &Load<'_, T::Key, T::Value>)
        requires
            old(self).inv(),
            target < old(self).shape().tiers(),
            load.wf(),
        ensures
            final(self).ran(*old(self), final(self).since(*old(self))),
            forall|end: nat, rest: Seq<Event<T::Key, T::Value, T::Error>>|
                target < end ==> #[trigger] replay::filled(
                    old(self).shape(),
                    load@,
                    target as nat,
                    end,
                    final(self).since(*old(self)) + rest,
                ) == replay::filled(old(self).shape(), load@, (target + 1) as nat, end, rest),
    {
        let ghost start = *self;
        let ghost shape = self.shape();
        let ghost none = Seq::<Event<T::Key, T::Value, T::Error>>::empty();
        if !self.stack.writable(target) {
            proof {
                assert(start.trace() =~= start.trace() + none);
                self.lemma_since(start, none);
                assert forall|end: nat, rest: Seq<Event<T::Key, T::Value, T::Error>>|
                    target < end implies #[trigger] replay::filled(
                    shape,
                    load@,
                    target as nat,
                    end,
                    none + rest,
                ) == replay::filled(shape, load@, (target + 1) as nat, end, rest) by {
                    assert(none + rest =~= rest);
                }
            }
            return ;
        }
        let answer = self.store(target, load);
        let ghost stored = *self;
        let ghost event = self.trace().last();
        let ghost mut more = none;
        proof {
            assert(stored.trace() =~= stored.trace() + none);
        }
        if let Ok(displaced) = answer {
            if self.policy.demote_displaced && displaced.len() > 0 {
                let _evicted = self.demote(target, displaced);
                proof {
                    more = self.since(stored);
                }
            }
        }
        proof {
            self.lemma_chain(stored, start, seq![event], more);
            self.lemma_since(start, seq![event] + more);
            assert forall|end: nat, rest: Seq<Event<T::Key, T::Value, T::Error>>|
                target < end implies #[trigger] replay::filled(
                shape,
                load@,
                target as nat,
                end,
                self.since(start) + rest,
            ) == replay::filled(shape, load@, (target + 1) as nat, end, rest) by {
                let full = (seq![event] + more) + rest;
                assert(full.skip(1) =~= more + rest);
                assert(none + rest =~= rest);
                assert(full[0] == event);
            }
        }
    }
}

/// What is left to replay of a read that has come to `step`, with `probed`
/// tiers asked.
spec fn read_left<K: Clone, V: Clone, E>(
    shape: Shape,
    key: K,
    step: ReadStep,
    probed: nat,
    hit: Option<V>,
    failures: Seq<Failure<E>>,
    rest: Seq<Event<K, V, E>>,
) -> Option<(Seq<Event<K, V, E>>, Result<Option<V>, Fault<E>>)> {
    match step {
        ReadStep::Get { tier } => replay::read_from(shape, key, tier as nat, failures, rest),
        ReadStep::Promote { tier } => match replay::filled(
            shape,
            Write::One { key, value: hit->0 },
            tier as nat,
            read::promotions(shape.policy.read, (probed - 1) as nat),
            rest,
        ) {
            Some(rest) => Some((rest, Ok(hit))),
            None => None,
        },
        ReadStep::Done(ReadOutcome::Hit { .. }) => Some((rest, Ok(hit))),
        ReadStep::Done(ReadOutcome::Miss) => Some((rest, Ok(None))),
        ReadStep::Done(ReadOutcome::Inconclusive) => Some(
            (rest, Err(Fault::Inconclusive(failures))),
        ),
        ReadStep::Done(ReadOutcome::Failed { .. }) => Some(
            (rest, Err(Fault::Tier(failures.last()))),
        ),
    }
}

impl<T> Router<T> where T: TierRead + TierWrite, T::Key: Clone, T::Value: Clone {
    fn route_get(&mut self, key: &T::Key) -> (found: Result<
        Option<T::Value>,
        RouterError<T::Error>,
    >)
        requires
            old(self).inv(),
        ensures
            final(self).ran(*old(self), final(self).since(*old(self))),
            replay::read_from(
                old(self).shape(),
                *key,
                0,
                Seq::empty(),
                final(self).since(*old(self)),
            ) == Some((Seq::<Event<T::Key, T::Value, T::Error>>::empty(), error::answer(found))),
    {
        let ghost start = *self;
        let ghost shape = self.shape();
        let ghost mut done: Seq<Event<T::Key, T::Value, T::Error>> = Seq::empty();
        let mut flow = ReadFlow::new(self.stack.len(), self.policy.read);
        let mut hit: Option<T::Value> = None;
        let mut failures: Vec<TierFailure<T::Error>> = Vec::new();
        proof {
            assert(self.trace() =~= start.trace() + done);
            assert(error::failures_in(failures@) =~= Seq::empty());
            assert forall|rest: Seq<Event<T::Key, T::Value, T::Error>>| #[trigger]
                replay::read_from(shape, *key, 0, Seq::empty(), done + rest) == read_left(
                    shape,
                    *key,
                    flow@.next(),
                    flow@.probes.len(),
                    hit,
                    error::failures_in(failures@),
                    rest,
                ) by {
                assert(done + rest =~= rest);
            }
        }
        loop
            invariant
                start == *old(self),
                shape == start.shape(),
                self.ran(start, done),
                flow.wf(),
                flow@.valid(),
                flow@.tiers == shape.tiers(),
                flow@.policy == shape.policy.read,
                shape.tiers() <= usize::MAX,
                failures@.len() > 0 <==> flow@.probes.contains(Probe::Error),
                flow@.next() is Get ==> hit is None,
                flow@.next() is Promote ==> hit is Some,
                forall|rest: Seq<Event<T::Key, T::Value, T::Error>>| #[trigger]
                    replay::read_from(shape, *key, 0, Seq::empty(), done + rest) == read_left(
                        shape,
                        *key,
                        flow@.next(),
                        flow@.probes.len(),
                        hit,
                        error::failures_in(failures@),
                        rest,
                    ),
            decreases flow@.remaining(),
        {
            let ghost mid = *self;
            let ghost seen = flow@;
            let ghost held = error::failures_in(failures@);
            match flow.step() {
                ReadStep::Get { tier } => {
                    let found = self.stack.get(tier, key);
                    let ghost event = Event {
                        tier: tier as nat,
                        call: Call::Get { key: *key, found },
                    };
                    let ghost prior = done;
                    let probe = match found {
                        Ok(Some(value)) => {
                            hit = Some(value);
                            Probe::Hit
                        },
                        Ok(None) => Probe::Miss,
                        Err(source) => {
                            failures.push(self.stack.failure(tier, source));
                            Probe::Error
                        },
                    };
                    flow.on_get(probe);
                    proof {
                        self.lemma_step(mid, start, done, event);
                        done = done.push(event);
                        read::law_read_ends(seen, probe);
                        vstd::seq_lib::lemma_seq_contains_after_push(
                            seen.probes,
                            probe,
                            Probe::Error,
                        );
                        assert forall|rest: Seq<Event<T::Key, T::Value, T::Error>>| #[trigger]
                            replay::read_from(shape, *key, 0, Seq::empty(), done + rest)
                                == read_left(
                                shape,
                                *key,
                                flow@.next(),
                                flow@.probes.len(),
                                hit,
                                error::failures_in(failures@),
                                rest,
                            ) by {
                            let full = seq![event] + rest;
                            assert(prior + full =~= done + rest);
                            assert(full.skip(1) =~= rest);
                            reveal_with_fuel(replay::read_from, 2);
                            assert(replay::read_from(
                                shape,
                                *key,
                                0,
                                Seq::empty(),
                                prior + full,
                            ) == replay::read_from(shape, *key, tier as nat, held, full));
                            if probe == Probe::Error {
                                assert(error::failures_in(failures@) =~= held.push(
                                    shape.failure(tier as nat, found->Err_0),
                                ));
                            }
                        }
                    }
                },
                ReadStep::Promote { tier } => {
                    if let Some(value) = &hit {
                        let load = Load::One { key, value };
                        self.promote(tier, &load);
                    }
                    flow.on_promote();
                    proof {
                        let ghost more = self.since(mid);
                        let ghost prior = done;
                        self.lemma_chain(mid, start, done, more);
                        done = done + more;
                        read::law_read_ends(seen, Probe::Hit);
                        assert forall|rest: Seq<Event<T::Key, T::Value, T::Error>>| #[trigger]
                            replay::read_from(shape, *key, 0, Seq::empty(), done + rest)
                                == read_left(
                                shape,
                                *key,
                                flow@.next(),
                                flow@.probes.len(),
                                hit,
                                error::failures_in(failures@),
                                rest,
                            ) by {
                            assert(prior + (more + rest) =~= done + rest);
                        }
                    }
                },
                ReadStep::Done(outcome) => {
                    proof {
                        self.lemma_since(start, done);
                        let ghost none = Seq::<Event<T::Key, T::Value, T::Error>>::empty();
                        assert(done + none =~= done);
                        assert(replay::read_from(shape, *key, 0, Seq::empty(), done + none)
                            == read_left(
                            shape,
                            *key,
                            flow@.next(),
                            flow@.probes.len(),
                            hit,
                            error::failures_in(failures@),
                            none,
                        ));
                    }
                    return match outcome {
                        ReadOutcome::Hit { .. } => Ok(hit),
                        ReadOutcome::Miss => Ok(None),
                        ReadOutcome::Inconclusive => Err(RouterError::Inconclusive(failures)),
                        ReadOutcome::Failed { .. } => {
                            match failures.pop() {
                                Some(failure) => Err(RouterError::Tier(failure)),
                                None => Err(RouterError::Inconclusive(Vec::new())),
                            }
                        },
                    };
                },
            }
        }
    }

    fn route_contains(&mut self, key: &T::Key) -> (present: Result<bool, RouterError<T::Error>>)
        requires
            old(self).inv(),
        ensures
            final(self).ran(*old(self), final(self).since(*old(self))),
            replay::sought_from(
                old(self).shape(),
                *key,
                0,
                Seq::empty(),
                final(self).since(*old(self)),
            ) == Some((Seq::<Event<T::Key, T::Value, T::Error>>::empty(), error::answer(present))),
    {
        let ghost start = *self;
        let ghost shape = self.shape();
        let ghost mut done: Seq<Event<T::Key, T::Value, T::Error>> = Seq::empty();
        // Existence checks never promote; the read flow gives the probe order
        // and the error classification only.
        let policy = ReadPolicy { promote: Promote::Never, on_error: self.policy.read.on_error };
        let mut flow = ReadFlow::new(self.stack.len(), policy);
        let mut failures: Vec<TierFailure<T::Error>> = Vec::new();
        proof {
            assert(self.trace() =~= start.trace() + done);
            assert(error::failures_in(failures@) =~= Seq::empty());
            assert forall|rest: Seq<Event<T::Key, T::Value, T::Error>>| #[trigger]
                replay::sought_from(shape, *key, 0, Seq::empty(), done + rest) == sought_left(
                    shape,
                    *key,
                    flow@.next(),
                    error::failures_in(failures@),
                    rest,
                ) by {
                assert(done + rest =~= rest);
            }
        }
        loop
            invariant
                start == *old(self),
                shape == start.shape(),
                self.ran(start, done),
                flow.wf(),
                flow@.valid(),
                flow@.tiers == shape.tiers(),
                flow@.policy.promote == Promote::Never,
                flow@.policy.on_error == shape.policy.read.on_error,
                shape.tiers() <= usize::MAX,
                failures@.len() > 0 <==> flow@.probes.contains(Probe::Error),
                forall|rest: Seq<Event<T::Key, T::Value, T::Error>>| #[trigger]
                    replay::sought_from(shape, *key, 0, Seq::empty(), done + rest) == sought_left(
                        shape,
                        *key,
                        flow@.next(),
                        error::failures_in(failures@),
                        rest,
                    ),
            decreases flow@.remaining(),
        {
            let ghost mid = *self;
            let ghost seen = flow@;
            let ghost held = error::failures_in(failures@);
            match flow.step() {
                ReadStep::Get { tier } => {
                    let present = self.stack.contains(tier, key);
                    let ghost event = Event {
                        tier: tier as nat,
                        call: Call::Exists { key: *key, present },
                    };
                    let ghost prior = done;
                    let probe = match present {
                        Ok(true) => Probe::Hit,
                        Ok(false) => Probe::Miss,
                        Err(source) => {
                            failures.push(self.stack.failure(tier, source));
                            Probe::Error
                        },
                    };
                    flow.on_get(probe);
                    proof {
                        self.lemma_step(mid, start, done, event);
                        done = done.push(event);
                        read::law_read_ends(seen, probe);
                        vstd::seq_lib::lemma_seq_contains_after_push(
                            seen.probes,
                            probe,
                            Probe::Error,
                        );
                        assert forall|rest: Seq<Event<T::Key, T::Value, T::Error>>| #[trigger]
                            replay::sought_from(shape, *key, 0, Seq::empty(), done + rest)
                                == sought_left(
                                shape,
                                *key,
                                flow@.next(),
                                error::failures_in(failures@),
                                rest,
                            ) by {
                            let full = seq![event] + rest;
                            assert(prior + full =~= done + rest);
                            assert(full.skip(1) =~= rest);
                            reveal_with_fuel(replay::sought_from, 2);
                            assert(replay::sought_from(
                                shape,
                                *key,
                                0,
                                Seq::empty(),
                                prior + full,
                            ) == replay::sought_from(shape, *key, tier as nat, held, full));
                            if probe == Probe::Error {
                                assert(error::failures_in(failures@) =~= held.push(
                                    shape.failure(tier as nat, present->Err_0),
                                ));
                            }
                        }
                    }
                },
                ReadStep::Promote { .. } => flow.on_promote(),
                ReadStep::Done(outcome) => {
                    proof {
                        self.lemma_since(start, done);
                        let ghost none = Seq::<Event<T::Key, T::Value, T::Error>>::empty();
                        assert(done + none =~= done);
                        assert(replay::sought_from(shape, *key, 0, Seq::empty(), done + none)
                            == sought_left(
                            shape,
                            *key,
                            flow@.next(),
                            error::failures_in(failures@),
                            none,
                        ));
                    }
                    return match outcome {
                        ReadOutcome::Hit { .. } => Ok(true),
                        ReadOutcome::Miss => Ok(false),
                        ReadOutcome::Inconclusive => Err(RouterError::Inconclusive(failures)),
                        ReadOutcome::Failed { .. } => {
                            match failures.pop() {
                                Some(failure) => Err(RouterError::Tier(failure)),
                                None => Err(RouterError::Inconclusive(Vec::new())),
                            }
                        },
                    };
                },
            }
        }
    }

    /// Best-effort batched promotion after a batched read: for every tier
    /// that produced hits, copy those hits into the tiers above it per the
    /// promotion policy, demoting whatever the copies displace.
    fn promote_batch(&mut self, keys: &[T::Key], statuses: &Vec<KeyStatus<T::Value>>)
        requires
            old(self).inv(),
            keys@.len() == statuses@.len(),
        ensures
            final(self).ran(*old(self), final(self).since(*old(self))),
            forall|rest: Seq<Event<T::Key, T::Value, T::Error>>| #[trigger]
                replay::promoted_from(
                    old(self).shape(),
                    keys@,
                    statuses@,
                    1,
                    final(self).since(*old(self)) + rest,
                ) == Some(rest),
    {
        let ghost start = *self;
        let ghost shape = self.shape();
        let ghost mut done: Seq<Event<T::Key, T::Value, T::Error>> = Seq::empty();
        proof {
            assert(self.trace() =~= start.trace() + done);
            assert forall|rest: Seq<Event<T::Key, T::Value, T::Error>>| done + rest == rest by {
                assert(done + rest =~= rest);
            }
        }
        if matches!(self.policy.read.promote, Promote::Never) {
            proof {
                self.lemma_since(start, done);
            }
            return ;
        }
        let mut tier: usize = 1;
        while tier < self.stack.len()
            invariant
                start == *old(self),
                shape == start.shape(),
                1 <= tier <= shape.tiers(),
                keys@.len() == statuses@.len(),
                shape.policy.read.promote != Promote::Never,
                self.ran(start, done),
                forall|rest: Seq<Event<T::Key, T::Value, T::Error>>| #[trigger]
                    replay::promoted_from(shape, keys@, statuses@, 1, done + rest)
                        == replay::promoted_from(shape, keys@, statuses@, tier as nat, rest),
            decreases shape.tiers() - tier,
        {
            if has_hits(keys, statuses, tier) {
                let ghost mid = *self;
                let load = Load::Hits { keys, statuses, tier };
                let end: usize = match self.policy.read.promote {
                    Promote::AllAbove => tier,
                    _ => 1,
                };
                self.fill(&load, end);
                proof {
                    let ghost prior = done;
                    let ghost more = self.since(mid);
                    self.lemma_chain(mid, start, done, more);
                    done = done + more;
                    assert forall|rest: Seq<Event<T::Key, T::Value, T::Error>>| #[trigger]
                        replay::promoted_from(shape, keys@, statuses@, 1, done + rest)
                            == replay::promoted_from(
                            shape,
                            keys@,
                            statuses@,
                            (tier + 1) as nat,
                            rest,
                        ) by {
                        assert(prior + (more + rest) =~= done + rest);
                        assert(replay::filled(shape, load@, 0, end as nat, more + rest) == Some(
                            rest,
                        ));
                    }
                }
            }
            tier += 1;
        }
        proof {
            self.lemma_since(start, done);
        }
    }

    /// Copies `load` into the topmost `end` tiers.
    fn fill(&mut self, load: &Load<'_, T::Key, T::Value>, end: usize)
        requires
            old(self).inv(),
            end <= old(self).shape().tiers(),
            load.wf(),
        ensures
            final(self).ran(*old(self), final(self).since(*old(self))),
            forall|rest: Seq<Event<T::Key, T::Value, T::Error>>| #[trigger]
                replay::filled(
                    old(self).shape(),
                    load@,
                    0,
                    end as nat,
                    final(self).since(*old(self)) + rest,
                ) == Some(rest),
    {
        let ghost start = *self;
        let ghost shape = self.shape();
        let ghost mut done: Seq<Event<T::Key, T::Value, T::Error>> = Seq::empty();
        proof {
            assert(self.trace() =~= start.trace() + done);
            assert forall|rest: Seq<Event<T::Key, T::Value, T::Error>>| done + rest == rest by {
                assert(done + rest =~= rest);
            }
        }
        let mut target: usize = 0;
        while target < end
            invariant
                start == *old(self),
                shape == start.shape(),
                target <= end <= shape.tiers(),
                load.wf(),
                self.ran(start, done),
                forall|rest: Seq<Event<T::Key, T::Value, T::Error>>| #[trigger]
                    replay::filled(shape, load@, 0, end as nat, done + rest) == replay::filled(
                        shape,
                        load@,
                        target as nat,
                        end as nat,
                        rest,
                    ),
            decreases end - target,
        {
            let ghost mid = *self;
            self.promote(target, load);
            proof {
                let ghost prior = done;
                let ghost more = self.since(mid);
                self.lemma_chain(mid, start, done, more);
                done = done + more;
                assert forall|rest: Seq<Event<T::Key, T::Value, T::Error>>| #[trigger]
                    replay::filled(shape, load@, 0, end as nat, done + rest) == replay::filled(
                        shape,
                        load@,
                        (target + 1) as nat,
                        end as nat,
                        rest,
                    ) by {
                    assert(prior + (more + rest) =~= done + rest);
                }
            }
            target += 1;
        }
        proof {
            self.lemma_since(start, done);
        }
    }
}

/// What is left to replay of an existence check that has come to `step`.
spec fn sought_left<K, V, E>(
    shape: Shape,
    key: K,
    step: ReadStep,
    failures: Seq<Failure<E>>,
    rest: Seq<Event<K, V, E>>,
) -> Option<(Seq<Event<K, V, E>>, Result<bool, Fault<E>>)> {
    match step {
        ReadStep::Get { tier } => replay::sought_from(shape, key, tier as nat, failures, rest),
        ReadStep::Promote { .. } => None,
        ReadStep::Done(ReadOutcome::Hit { .. }) => Some((rest, Ok(true))),
        ReadStep::Done(ReadOutcome::Miss) => Some((rest, Ok(false))),
        ReadStep::Done(ReadOutcome::Inconclusive) => Some(
            (rest, Err(Fault::Inconclusive(failures))),
        ),
        ReadStep::Done(ReadOutcome::Failed { .. }) => Some(
            (rest, Err(Fault::Tier(failures.last()))),
        ),
    }
}

/// The statuses and the unresolved indices of a batched read.
struct Gathering<V> {
    statuses: Vec<KeyStatus<V>>,
    unresolved: Vec<usize>,
}

impl<V> Gathering<V> {
    spec fn wf(&self) -> bool {
        forall|i: int|
            0 <= i < self.unresolved@.len() ==> #[trigger] self.unresolved@[i]
                < self.statuses@.len()
    }

    fn new(count: usize) -> (gathering: Self)
        ensures
            gathering.wf(),
            gathering.statuses@ == Seq::new(count as nat, |i: int| KeyStatus::<V>::Miss),
            gathering.unresolved@ == Seq::new(count as nat, |i: int| i as usize),
    {
        let mut statuses: Vec<KeyStatus<V>> = Vec::with_capacity(count);
        let mut unresolved: Vec<usize> = Vec::with_capacity(count);
        let mut i: usize = 0;
        while i < count
            invariant
                i <= count,
                statuses@ == Seq::new(i as nat, |j: int| KeyStatus::<V>::Miss),
                unresolved@ == Seq::new(i as nat, |j: int| j as usize),
            decreases count - i,
        {
            statuses.push(KeyStatus::Miss);
            unresolved.push(i);
            i += 1;
        }
        Gathering { statuses, unresolved }
    }

    /// Takes in what tier `tier` found for the unresolved keys.
    fn resolve(&mut self, tier: usize, found: Vec<Option<V>>)
        requires
            old(self).wf(),
        ensures
            final(self).wf(),
            final(self).statuses@.len() == old(self).statuses@.len(),
            (final(self).statuses@, final(self).unresolved@) == replay::resolved(
                old(self).statuses@,
                old(self).unresolved@,
                found@,
                tier as nat,
                if found@.len() < old(self).unresolved@.len() {
                    found@.len()
                } else {
                    old(self).unresolved@.len()
                },
            ),
    {
        let ghost before = *self;
        let ghost all = found@;
        let mut still_missing: Vec<usize> = Vec::new();
        let mut seen: usize = 0;
        for value in source: found.into_iter()
            invariant
                source.seq() == all,
                before == *old(self),
                before.wf(),
                self.unresolved == before.unresolved,
                self.statuses@.len() == before.statuses@.len(),
                seen == if source.index() < before.unresolved@.len() {
                    source.index() as int
                } else {
                    before.unresolved@.len() as int
                },
                forall|i: int|
                    0 <= i < still_missing@.len() ==> #[trigger] still_missing@[i]
                        < before.statuses@.len(),
                (self.statuses@, still_missing@) == replay::resolved(
                    before.statuses@,
                    before.unresolved@,
                    all,
                    tier as nat,
                    seen as nat,
                ),
        {
            if seen < self.unresolved.len() {
                let index: usize = self.unresolved[seen];
                assert(before.unresolved@[seen as int] < before.statuses@.len());
                match value {
                    Some(value) => {
                        self.statuses[index] = KeyStatus::Hit { tier, value };
                    },
                    None => {
                        still_missing.push(index);
                    },
                }
                seen += 1;
            }
        }
        self.unresolved = still_missing;
    }

    /// Marks what is still unresolved as inconclusive.
    fn give_up(&mut self)
        requires
            old(self).wf(),
        ensures
            final(self).unresolved == old(self).unresolved,
            final(self).statuses@ == Seq::new(
                old(self).statuses@.len(),
                |i: int|
                    if old(self).unresolved@.contains(i as usize) {
                        KeyStatus::Inconclusive
                    } else {
                        old(self).statuses@[i]
                    },
            ),
    {
        let ghost before = *self;
        let mut next: usize = 0;
        while next < self.unresolved.len()
            invariant
                next <= self.unresolved@.len(),
                before == *old(self),
                before.wf(),
                self.unresolved == before.unresolved,
                self.statuses@.len() == before.statuses@.len(),
                forall|i: int|
                    0 <= i < self.statuses@.len() ==> #[trigger] self.statuses@[i] == if exists|
                        j: int,
                    |
                        0 <= j < next && #[trigger] before.unresolved@[j] == i {
                        KeyStatus::Inconclusive
                    } else {
                        before.statuses@[i]
                    },
            decreases self.unresolved@.len() - next,
        {
            let index: usize = self.unresolved[next];
            assert(before.unresolved@[next as int] < before.statuses@.len());
            let ghost held = self.statuses@;
            self.statuses[index] = KeyStatus::Inconclusive;
            assert forall|i: int| 0 <= i < self.statuses@.len() implies #[trigger] self.statuses@[i]
                == if exists|j: int|
                0 <= j < next + 1 && #[trigger] before.unresolved@[j] == i {
                KeyStatus::Inconclusive
            } else {
                before.statuses@[i]
            } by {
                if i == index {
                    assert(before.unresolved@[next as int] == i);
                } else {
                    assert(self.statuses@[i] == held[i]);
                }
            }
            next += 1;
        }
        assert forall|i: int| 0 <= i < self.statuses@.len() implies (exists|j: int|
            0 <= j < before.unresolved@.len() && #[trigger] before.unresolved@[j] == i)
            == #[trigger] before.unresolved@.contains(i as usize) by {
            assert(before.statuses@.len() == before.statuses.len());
            if before.unresolved@.contains(i as usize) {
                let j = choose|j: int|
                    0 <= j < before.unresolved@.len() && before.unresolved@[j] == i as usize;
                assert(before.unresolved@[j] == i);
            }
        }
        assert(self.statuses@ =~= Seq::new(
            before.statuses@.len(),
            |i: int|
                if before.unresolved@.contains(i as usize) {
                    KeyStatus::Inconclusive
                } else {
                    before.statuses@[i]
                },
        ));
    }
}

impl<T> Router<T> where T: TierRead + TierWrite, T::Key: Clone, T::Value: Clone {
    /// Batched read with per-key outcomes: each lower tier is probed only
    /// with the keys still missing, hits record which tier served them, and
    /// keys left unresolved past a failing tier come back as
    /// [`KeyStatus::Inconclusive`] instead of masquerading as misses: partial
    /// success never discards resolved values.
    ///
    /// Fails only under [`OnReadError::FailFast`], where the first tier error
    /// aborts the whole batch (resolved values are discarded by design).
    pub fn read_many(&mut self, keys: &[T::Key]) -> (report: Result<
        ReadReport<T::Value, T::Error>,
        RouterError<T::Error>,
    >)
        requires
            old(self).inv(),
        ensures
            final(self).after(*old(self)),
            final(self).history() == old(self).history(),
            replay::gathered(old(self).shape(), keys@, final(self).since(*old(self))) == Some(
                (
                    Seq::<Event<T::Key, T::Value, T::Error>>::empty(),
                    error::view_answer(report),
                ),
            ),
    {
        let ghost start = *self;
        let ghost shape = self.shape();
        let ghost none = Seq::<Event<T::Key, T::Value, T::Error>>::empty();
        let ghost mut done = none;
        let mut gathering = Gathering::new(keys.len());
        let mut failures: Vec<TierFailure<T::Error>> = Vec::new();
        let mut tier: usize = 0;
        proof {
            assert(self.trace() =~= start.trace() + done);
            assert(error::failures_in(failures@) =~= Seq::empty());
            assert forall|rest: Seq<Event<T::Key, T::Value, T::Error>>| #[trigger]
                replay::gathered(shape, keys@, done + rest) == replay::gathered_from(
                    shape,
                    keys@,
                    tier as nat,
                    gathering.statuses@,
                    gathering.unresolved@,
                    error::failures_in(failures@),
                    rest,
                ) by {
                assert(done + rest =~= rest);
            }
        }
        while tier < self.stack.len() && gathering.unresolved.len() > 0
            invariant
                start == *old(self),
                shape == start.shape(),
                tier <= shape.tiers(),
                self.ran(start, done),
                none == Seq::<Event<T::Key, T::Value, T::Error>>::empty(),
                gathering.wf(),
                gathering.statuses@.len() == keys@.len(),
                forall|rest: Seq<Event<T::Key, T::Value, T::Error>>| #[trigger]
                    replay::gathered(shape, keys@, done + rest) == replay::gathered_from(
                        shape,
                        keys@,
                        tier as nat,
                        gathering.statuses@,
                        gathering.unresolved@,
                        error::failures_in(failures@),
                        rest,
                    ),
            decreases shape.tiers() - tier,
        {
            let ghost mid = *self;
            let ghost held = error::failures_in(failures@);
            let ghost statuses = gathering.statuses@;
            let ghost unresolved = gathering.unresolved@;
            let subset = copy_keys(keys, &gathering.unresolved);
            let answer = self.stack.get_many(tier, subset.as_slice());
            let ghost event = Event {
                tier: tier as nat,
                call: Call::GetMany { keys: subset@, values: tier::seq_answer(answer) },
            };
            let ghost prior = done;
            proof {
                self.lemma_step(mid, start, done, event);
                done = done.push(event);
                assert forall|rest: Seq<Event<T::Key, T::Value, T::Error>>| #[trigger]
                    replay::gathered(shape, keys@, done + rest) == replay::gathered_from(
                        shape,
                        keys@,
                        tier as nat,
                        statuses,
                        unresolved,
                        held,
                        seq![event] + rest,
                    ) && (seq![event] + rest).skip(1) == rest by {
                    assert(prior + (seq![event] + rest) =~= done + rest);
                    assert((seq![event] + rest).skip(1) =~= rest);
                }
            }
            match answer {
                Ok(found) => {
                    gathering.resolve(tier, found);
                },
                Err(source) => match self.policy.read.on_error {
                    OnReadError::FailFast => {
                        let failure = self.stack.failure(tier, source);
                        proof {
                            self.lemma_since(start, done);
                            assert(done + none =~= done);
                            assert(replay::gathered(shape, keys@, done + none) == Some(
                                (
                                    none,
                                    Err::<replay::Gathered<T::Value, T::Error>, _>(
                                        Fault::Tier(failure@),
                                    ),
                                ),
                            ));
                        }
                        return Err(RouterError::Tier(failure));
                    },
                    OnReadError::FallThrough => {
                        failures.push(self.stack.failure(tier, source));
                        assert(error::failures_in(failures@) =~= held.push(
                            shape.failure(tier as nat, source),
                        ));
                    },
                },
            }
            tier += 1;
        }
        let ghost statuses = gathering.statuses@;
        if failures.len() > 0 {
            // Any key still unresolved was pending when a tier failed, so its
            // absence is unconfirmed.
            gathering.give_up();
        }
        assert(gathering.statuses@ =~= replay::concluded(
            statuses,
            gathering.unresolved@,
            error::failures_in(failures@),
        ));
        let ghost mid = *self;
        self.promote_batch(keys, &gathering.statuses);
        proof {
            let ghost more = self.since(mid);
            self.lemma_chain(mid, start, done, more);
            self.lemma_since(start, done + more);
            assert(more + none =~= more);
            assert(replay::promoted_from(shape, keys@, gathering.statuses@, 1, more + none)
                == Some(none));
            assert(replay::gathered(shape, keys@, done + more) == Some(
                (
                    none,
                    Ok::<_, Fault<T::Error>>(
                        (gathering.statuses@, error::failures_in(failures@)),
                    ),
                ),
            ));
        }
        Ok(ReadReport { statuses: gathering.statuses, failures })
    }

    /// Batched delete with per-key outcomes. Every writable tier is attempted
    /// for every key regardless of failures (skipping a tier guarantees
    /// resurrection); check [`DeleteReport::is_complete`] before trusting the
    /// flags.
    pub fn remove_many(&mut self, keys: &[T::Key]) -> (report: DeleteReport<T::Error>)
        requires
            old(self).inv(),
        ensures
            final(self).after(*old(self)),
            final(self).history() == old(self).history(),
            replay::cleared(old(self).shape(), keys@, final(self).since(*old(self))) == Some(
                (Seq::<Event<T::Key, T::Value, T::Error>>::empty(), report@),
            ),
    {
        let ghost start = *self;
        let ghost shape = self.shape();
        let ghost mut done: Seq<Event<T::Key, T::Value, T::Error>> = Seq::empty();
        let mut removed: Vec<bool> = Vec::with_capacity(keys.len());
        while removed.len() < keys.len()
            invariant
                removed@ == Seq::new(removed@.len(), |i: int| false),
                removed@.len() <= keys@.len(),
            decreases keys@.len() - removed@.len(),
        {
            removed.push(false);
        }
        let mut failures: Vec<TierFailure<T::Error>> = Vec::new();
        let mut tier: usize = 0;
        proof {
            assert(self.trace() =~= start.trace() + done);
            assert(error::failures_in(failures@) =~= Seq::empty());
            assert forall|rest: Seq<Event<T::Key, T::Value, T::Error>>| #[trigger]
                replay::cleared(shape, keys@, done + rest) == replay::cleared_from(
                    shape,
                    keys@,
                    tier as nat,
                    removed@,
                    error::failures_in(failures@),
                    rest,
                ) by {
                assert(done + rest =~= rest);
            }
        }
        while tier < self.stack.len()
            invariant
                start == *old(self),
                shape == start.shape(),
                tier <= shape.tiers(),
                self.ran(start, done),
                forall|rest: Seq<Event<T::Key, T::Value, T::Error>>| #[trigger]
                    replay::cleared(shape, keys@, done + rest) == replay::cleared_from(
                        shape,
                        keys@,
                        tier as nat,
                        removed@,
                        error::failures_in(failures@),
                        rest,
                    ),
            decreases shape.tiers() - tier,
        {
            if self.stack.writable(tier) {
                let ghost mid = *self;
                let ghost held = error::failures_in(failures@);
                let ghost known = removed@;
                let answer = self.stack.delete_many(tier, keys);
                let ghost event = Event {
                    tier: tier as nat,
                    call: Call::DeleteMany { keys: keys@, flags: tier::seq_answer(answer) },
                };
                match answer {
                    Ok(flags) => {
                        join(&mut removed, &flags);
                    },
                    Err(source) => {
                        failures.push(self.stack.failure(tier, source));
                        assert(error::failures_in(failures@) =~= held.push(
                            shape.failure(tier as nat, source),
                        ));
                    },
                }
                proof {
                    let ghost prior = done;
                    self.lemma_step(mid, start, done, event);
                    done = done.push(event);
                    assert forall|rest: Seq<Event<T::Key, T::Value, T::Error>>| #[trigger]
                        replay::cleared(shape, keys@, done + rest) == replay::cleared_from(
                            shape,
                            keys@,
                            (tier + 1) as nat,
                            removed@,
                            error::failures_in(failures@),
                            rest,
                        ) by {
                        let full = seq![event] + rest;
                        assert(prior + full =~= done + rest);
                        assert(full.skip(1) =~= rest);
                    }
                }
            }
            tier += 1;
        }
        proof {
            self.lemma_since(start, done);
            let ghost none = Seq::<Event<T::Key, T::Value, T::Error>>::empty();
            assert(done + none =~= done);
            assert(replay::cleared(shape, keys@, done + none) == Some(
                (none, (removed@, error::failures_in(failures@))),
            ));
        }
        DeleteReport { removed, failures }
    }

    fn route_delete(&mut self, key: &T::Key) -> (existed: Result<bool, RouterError<T::Error>>)
        requires
            old(self).inv(),
        ensures
            final(self).ran(*old(self), final(self).since(*old(self))),
            replay::removed_from(
                old(self).shape(),
                *key,
                0,
                false,
                Seq::empty(),
                final(self).since(*old(self)),
            ) == Some((Seq::<Event<T::Key, T::Value, T::Error>>::empty(), error::answer(existed))),
    {
        let ghost start = *self;
        let ghost shape = self.shape();
        let ghost mut done: Seq<Event<T::Key, T::Value, T::Error>> = Seq::empty();
        // Attempt every tier even after failures: leaving a copy in a lower
        // tier because an upper one errored would guarantee resurrection.
        let mut existed = false;
        let mut failures: Vec<TierFailure<T::Error>> = Vec::new();
        let mut tier: usize = 0;
        proof {
            assert(self.trace() =~= start.trace() + done);
            assert(error::failures_in(failures@) =~= Seq::empty());
            assert forall|rest: Seq<Event<T::Key, T::Value, T::Error>>| #[trigger]
                replay::removed_from(shape, *key, 0, false, Seq::empty(), done + rest)
                    == replay::removed_from(
                    shape,
                    *key,
                    tier as nat,
                    existed,
                    error::failures_in(failures@),
                    rest,
                ) by {
                assert(done + rest =~= rest);
            }
        }
        while tier < self.stack.len()
            invariant
                start == *old(self),
                shape == start.shape(),
                tier <= shape.tiers(),
                self.ran(start, done),
                forall|rest: Seq<Event<T::Key, T::Value, T::Error>>| #[trigger]
                    replay::removed_from(shape, *key, 0, false, Seq::empty(), done + rest)
                        == replay::removed_from(
                        shape,
                        *key,
                        tier as nat,
                        existed,
                        error::failures_in(failures@),
                        rest,
                    ),
            decreases shape.tiers() - tier,
        {
            if self.stack.writable(tier) {
                let ghost mid = *self;
                let ghost held = error::failures_in(failures@);
                let answer = self.stack.delete(tier, key);
                let ghost event = Event {
                    tier: tier as nat,
                    call: Call::Delete { key: *key, removed: answer },
                };
                match answer {
                    Ok(present) => {
                        existed = existed || present;
                    },
                    Err(source) => {
                        failures.push(self.stack.failure(tier, source));
                        assert(error::failures_in(failures@) =~= held.push(
                            shape.failure(tier as nat, source),
                        ));
                    },
                }
                proof {
                    let ghost prior = done;
                    self.lemma_step(mid, start, done, event);
                    done = done.push(event);
                    assert forall|rest: Seq<Event<T::Key, T::Value, T::Error>>| #[trigger]
                        replay::removed_from(shape, *key, 0, false, Seq::empty(), done + rest)
                            == replay::removed_from(
                            shape,
                            *key,
                            (tier + 1) as nat,
                            existed,
                            error::failures_in(failures@),
                            rest,
                        ) by {
                        let full = seq![event] + rest;
                        assert(prior + full =~= done + rest);
                        assert(full.skip(1) =~= rest);
                    }
                }
            }
            tier += 1;
        }
        proof {
            self.lemma_since(start, done);
            let ghost none = Seq::<Event<T::Key, T::Value, T::Error>>::empty();
            assert(done + none =~= done);
        }
        if failures.len() == 0 {
            Ok(existed)
        } else {
            Err(RouterError::Partial(failures))
        }
    }

    /// The bottommost tier that accepts writes.
    fn bottom(&self) -> (bottom: Option<usize>)
        requires
            self.inv(),
        ensures
            bottom is Some <==> self.shape().bottom(self.shape().tiers()) is Some,
            bottom matches Some(bottom) ==> {
                &&& self.shape().bottom(self.shape().tiers()) == Some(bottom as nat)
                &&& self.shape().writable(bottom as nat)
            },
    {
        let mut below: usize = self.stack.len();
        while below > 0
            invariant
                below <= self.shape().tiers(),
                self.shape().bottom(self.shape().tiers()) == self.shape().bottom(below as nat),
                self.inv(),
            decreases below,
        {
            below -= 1;
            if self.stack.writable(below) {
                return Some(below);
            }
        }
        None
    }

    /// Writes `load` into every writable tier.
    ///
    /// Bottom-up: lower tiers accept the key before upper tiers reference it,
    /// so an aborted write never leaves an upper tier claiming a key its
    /// backing tiers rejected. Also says whether any tier accepted it.
    fn write_through(&mut self, load: &Load<'_, T::Key, T::Value>) -> (outcome: (
        Result<Displaced<T::Key, T::Value>, RouterError<T::Error>>,
        bool,
    ))
        requires
            old(self).inv(),
            load.wf(),
        ensures
            final(self).ran(*old(self), final(self).since(*old(self))),
            replay::wrote_through(
                old(self).shape(),
                load@,
                old(self).shape().tiers(),
                Seq::empty(),
                final(self).since(*old(self)),
            ) == Some(
                (Seq::<Event<T::Key, T::Value, T::Error>>::empty(), error::view_answer(outcome.0)),
            ),
            outcome.0 is Ok ==> outcome.1 == replay::taken(
                old(self).shape(),
                load@,
                old(self).shape().tiers(),
                final(self).since(*old(self)),
            ),
    {
        let ghost start = *self;
        let ghost shape = self.shape();
        let ghost none = Seq::<Event<T::Key, T::Value, T::Error>>::empty();
        let ghost mut done = none;
        let mut evicted: Displaced<T::Key, T::Value> = Vec::new();
        let mut taken = false;
        let mut left: usize = self.stack.len();
        proof {
            assert(self.trace() =~= start.trace() + done);
            assert forall|rest: Seq<Event<T::Key, T::Value, T::Error>>| #[trigger]
                replay::wrote_through(shape, load@, shape.tiers(), Seq::empty(), done + rest)
                    == replay::wrote_through(shape, load@, left as nat, evicted@, rest) by {
                assert(done + rest =~= rest);
            }
            assert forall|rest: Seq<Event<T::Key, T::Value, T::Error>>| #[trigger]
                replay::taken(shape, load@, shape.tiers(), done + rest) == (taken || replay::taken(
                    shape,
                    load@,
                    left as nat,
                    rest,
                )) by {
                assert(done + rest =~= rest);
            }
        }
        while left > 0
            invariant
                start == *old(self),
                shape == start.shape(),
                left <= shape.tiers(),
                load.wf(),
                none == Seq::<Event<T::Key, T::Value, T::Error>>::empty(),
                self.ran(start, done),
                forall|rest: Seq<Event<T::Key, T::Value, T::Error>>| #[trigger]
                    replay::wrote_through(shape, load@, shape.tiers(), Seq::empty(), done + rest)
                        == replay::wrote_through(shape, load@, left as nat, evicted@, rest),
                forall|rest: Seq<Event<T::Key, T::Value, T::Error>>| #[trigger]
                    replay::taken(shape, load@, shape.tiers(), done + rest) == (taken
                        || replay::taken(shape, load@, left as nat, rest)),
            decreases left,
        {
            left -= 1;
            if self.stack.writable(left) {
                let ghost mid = *self;
                let ghost held = evicted@;
                let ghost prior = done;
                let answer = self.store(left, load);
                let ghost stored = *self;
                let ghost event = self.trace().last();
                proof {
                    self.lemma_chain(mid, start, done, seq![event]);
                    done = done + seq![event];
                    assert forall|rest: Seq<Event<T::Key, T::Value, T::Error>>| #[trigger]
                        replay::wrote_through(
                            shape,
                            load@,
                            shape.tiers(),
                            Seq::empty(),
                            done + rest,
                        ) == replay::wrote_through(
                            shape,
                            load@,
                            (left + 1) as nat,
                            held,
                            seq![event] + rest,
                        ) && (seq![event] + rest).skip(1) == rest by {
                        assert(prior + (seq![event] + rest) =~= done + rest);
                        assert((seq![event] + rest).skip(1) =~= rest);
                    }
                    assert forall|rest: Seq<Event<T::Key, T::Value, T::Error>>| #[trigger]
                        replay::taken(shape, load@, shape.tiers(), done + rest) == (taken
                            || answer is Ok || replay::taken(shape, load@, left as nat, rest)) by {
                        assert(prior + (seq![event] + rest) =~= done + rest);
                        assert((seq![event] + rest).skip(1) =~= rest);
                        assert(replay::taken(
                            shape,
                            load@,
                            shape.tiers(),
                            prior + (seq![event] + rest),
                        ) == (taken || replay::taken(
                            shape,
                            load@,
                            (left + 1) as nat,
                            seq![event] + rest,
                        )));
                    }
                }
                match answer {
                    Ok(displaced) => {
                        taken = true;
                        let ghost pushed = displaced@;
                        if self.policy.demote_displaced {
                            let mut lost = self.demote(left, displaced);
                            proof {
                                let ghost middle = done;
                                let ghost more = self.since(stored);
                                self.lemma_chain(stored, start, done, more);
                                done = done + more;
                                assert forall|rest: Seq<Event<T::Key, T::Value, T::Error>>|
                                    #[trigger]
                                    replay::wrote_through(
                                        shape,
                                        load@,
                                        shape.tiers(),
                                        Seq::empty(),
                                        done + rest,
                                    ) == replay::wrote_through(
                                        shape,
                                        load@,
                                        left as nat,
                                        held + lost@,
                                        rest,
                                    ) by {
                                    assert(middle + (more + rest) =~= done + rest);
                                    assert(replay::demoted(
                                        shape,
                                        (left + 1) as nat,
                                        pushed,
                                        more + rest,
                                    ) == Some((rest, lost@)));
                                }
                                assert forall|rest: Seq<Event<T::Key, T::Value, T::Error>>|
                                    #[trigger]
                                    replay::taken(shape, load@, shape.tiers(), done + rest) by {
                                    assert(middle + (more + rest) =~= done + rest);
                                    assert(replay::taken(
                                        shape,
                                        load@,
                                        shape.tiers(),
                                        middle + (more + rest),
                                    ));
                                }
                            }
                            evicted.append(&mut lost);
                        } else {
                            let mut lost = displaced;
                            evicted.append(&mut lost);
                        }
                    },
                    Err(source) => match self.policy.on_write_error {
                        OnWriteError::Abort => {
                            let failure = self.stack.failure(left, source);
                            proof {
                                self.lemma_since(start, done);
                                assert(done + none =~= done);
                                assert(replay::wrote_through(
                                    shape,
                                    load@,
                                    shape.tiers(),
                                    Seq::empty(),
                                    done + none,
                                ) == Some(
                                    (
                                        none,
                                        Err::<Seq<(T::Key, T::Value)>, _>(Fault::Tier(failure@)),
                                    ),
                                ));
                            }
                            return (Err(RouterError::Tier(failure)), taken);
                        },
                        OnWriteError::BestEffort => {},
                    },
                }
            }
        }
        proof {
            self.lemma_since(start, done);
            assert(done + none =~= done);
            assert(replay::taken(shape, load@, shape.tiers(), done + none) == (taken
                || replay::taken(shape, load@, 0, none)));
        }
        (Ok(evicted), taken)
    }

    /// Removes `stale` from the writable tiers above tier `end`.
    ///
    /// The copies there would shadow the new value; a failed invalidation must
    /// surface, as it means reads can return the old value.
    fn invalidate(&mut self, end: usize, stale: &Stale<'_, T::Key>) -> (failures: Vec<
        TierFailure<T::Error>,
    >)
        requires
            old(self).inv(),
            end <= old(self).shape().tiers(),
        ensures
            final(self).ran(*old(self), final(self).since(*old(self))),
            replay::invalidated(
                old(self).shape(),
                stale@,
                0,
                end as nat,
                Seq::empty(),
                final(self).since(*old(self)),
            ) == Some(
                (
                    Seq::<Event<T::Key, T::Value, T::Error>>::empty(),
                    error::failures_in(failures@),
                ),
            ),
    {
        let ghost start = *self;
        let ghost shape = self.shape();
        let ghost mut done: Seq<Event<T::Key, T::Value, T::Error>> = Seq::empty();
        let mut failures: Vec<TierFailure<T::Error>> = Vec::new();
        let mut tier: usize = 0;
        proof {
            assert(self.trace() =~= start.trace() + done);
            assert(error::failures_in(failures@) =~= Seq::empty());
            assert forall|rest: Seq<Event<T::Key, T::Value, T::Error>>| #[trigger]
                replay::invalidated(shape, stale@, 0, end as nat, Seq::empty(), done + rest)
                    == replay::invalidated(
                    shape,
                    stale@,
                    tier as nat,
                    end as nat,
                    error::failures_in(failures@),
                    rest,
                ) by {
                assert(done + rest =~= rest);
            }
        }
        while tier < end
            invariant
                start == *old(self),
                shape == start.shape(),
                tier <= end <= shape.tiers(),
                self.ran(start, done),
                forall|rest: Seq<Event<T::Key, T::Value, T::Error>>| #[trigger]
                    replay::invalidated(shape, stale@, 0, end as nat, Seq::empty(), done + rest)
                        == replay::invalidated(
                        shape,
                        stale@,
                        tier as nat,
                        end as nat,
                        error::failures_in(failures@),
                        rest,
                    ),
            decreases end - tier,
        {
            if self.stack.writable(tier) {
                let ghost mid = *self;
                let ghost held = error::failures_in(failures@);
                let rejected = match stale {
                    Stale::One { key } => match self.stack.delete(tier, *key) {
                        Ok(_) => None,
                        Err(source) => Some(source),
                    },
                    Stale::Many { keys } => match self.stack.delete_many(
                        tier,
                        (*keys).as_slice(),
                    ) {
                        Ok(_) => None,
                        Err(source) => Some(source),
                    },
                };
                let ghost event = self.trace().last();
                assert(replay::revoked(stale@, event.call) == Some(rejected));
                if let Some(source) = rejected {
                    failures.push(self.stack.failure(tier, source));
                    assert(error::failures_in(failures@) =~= held.push(
                        shape.failure(tier as nat, source),
                    ));
                }
                proof {
                    let ghost prior = done;
                    self.lemma_step(mid, start, done, event);
                    done = done.push(event);
                    assert forall|rest: Seq<Event<T::Key, T::Value, T::Error>>| #[trigger]
                        replay::invalidated(
                            shape,
                            stale@,
                            0,
                            end as nat,
                            Seq::empty(),
                            done + rest,
                        ) == replay::invalidated(
                            shape,
                            stale@,
                            (tier + 1) as nat,
                            end as nat,
                            error::failures_in(failures@),
                            rest,
                        ) by {
                        let full = seq![event] + rest;
                        assert(prior + full =~= done + rest);
                        assert(full.skip(1) =~= rest);
                    }
                }
            }
            tier += 1;
        }
        proof {
            self.lemma_since(start, done);
            let ghost none = Seq::<Event<T::Key, T::Value, T::Error>>::empty();
            assert(done + none =~= done);
        }
        failures
    }

    fn route_put(&mut self, key: T::Key, value: T::Value) -> (result: Result<
        Displaced<T::Key, T::Value>,
        RouterError<T::Error>,
    >)
        requires
            old(self).inv(),
        ensures
            final(self).ran(*old(self), final(self).since(*old(self))),
            replay::wrote(
                old(self).shape(),
                Write::One { key, value },
                final(self).since(*old(self)),
            ) == Some(
                (Seq::<Event<T::Key, T::Value, T::Error>>::empty(), error::view_answer(result)),
            ),
    {
        let ghost start = *self;
        let ghost none = Seq::<Event<T::Key, T::Value, T::Error>>::empty();
        let load = Load::One { key: &key, value: &value };
        let Some(bottom) = self.bottom() else {
            proof {
                assert(self.trace() =~= start.trace() + none);
                self.lemma_since(start, none);
            }
            return Err(RouterError::ReadOnly);
        };
        match self.policy.write {
            WriteMode::WriteThrough => match self.write_through(&load) {
                (Ok(mut evicted), taken) => {
                    if !taken {
                        let ghost before = evicted@;
                        evicted.push((key, value));
                        assert(evicted@ =~= before + seq![(key, value)]);
                    }
                    Ok(evicted)
                },
                (Err(error), _) => Err(error),
            },
            WriteMode::WriteAround => {
                let answer = self.store(bottom, &load);
                let stale = Stale::One { key: &key };
                self.finish_around(bottom, answer, &stale, Ghost(start), Ghost(load@))
            },
        }
    }

    fn route_put_many(&mut self, entries: Vec<(T::Key, T::Value)>) -> (result: Result<
        Displaced<T::Key, T::Value>,
        RouterError<T::Error>,
    >)
        requires
            old(self).inv(),
        ensures
            final(self).ran(*old(self), final(self).since(*old(self))),
            replay::wrote(
                old(self).shape(),
                Write::Many { entries: entries@ },
                final(self).since(*old(self)),
            ) == Some(
                (Seq::<Event<T::Key, T::Value, T::Error>>::empty(), error::view_answer(result)),
            ),
    {
        let ghost start = *self;
        let ghost none = Seq::<Event<T::Key, T::Value, T::Error>>::empty();
        let load = Load::Many { entries: &entries };
        let Some(bottom) = self.bottom() else {
            proof {
                assert(self.trace() =~= start.trace() + none);
                self.lemma_since(start, none);
            }
            return Err(RouterError::ReadOnly);
        };
        match self.policy.write {
            WriteMode::WriteThrough => match self.write_through(&load) {
                (Ok(mut evicted), taken) => {
                    if !taken {
                        let mut entries = entries;
                        evicted.append(&mut entries);
                    }
                    Ok(evicted)
                },
                (Err(error), _) => Err(error),
            },
            WriteMode::WriteAround => {
                let answer = self.store(bottom, &load);
                let ghost write = load@;
                let keys = into_keys(entries);
                let stale = Stale::Many { keys: &keys };
                self.finish_around(bottom, answer, &stale, Ghost(start), Ghost(write))
            },
        }
    }

    /// The second half of a write-around: what the bottom tier answered is
    /// known, and the copies above it are stale.
    fn finish_around(
        &mut self,
        bottom: usize,
        answer: Result<Displaced<T::Key, T::Value>, T::Error>,
        stale: &Stale<'_, T::Key>,
        start: Ghost<Router<T>>,
        write: Ghost<Write<T::Key, T::Value>>,
    ) -> (result: Result<Displaced<T::Key, T::Value>, RouterError<T::Error>>)
        requires
            old(self).inv(),
            bottom < old(self).shape().tiers(),
            old(self).trace().len() == start@.trace().len() + 1,
            old(self).ran(start@, seq![old(self).trace().last()]),
            old(self).trace().last().tier == bottom,
            replay::accepted(write@, old(self).trace().last().call) == Some(
                tier::seq_answer(answer),
            ),
            write@.keys() == stale@,
        ensures
            final(self).ran(start@, final(self).since(start@)),
            replay::wrote_around(
                start@.shape(),
                write@,
                bottom as nat,
                final(self).since(start@),
            ) == Some(
                (Seq::<Event<T::Key, T::Value, T::Error>>::empty(), error::view_answer(result)),
            ),
    {
        let ghost stored = *self;
        let ghost event = self.trace().last();
        let ghost none = Seq::<Event<T::Key, T::Value, T::Error>>::empty();
        match answer {
            Ok(displaced) => {
                let failures = self.invalidate(bottom, stale);
                proof {
                    let ghost more = self.since(stored);
                    self.lemma_chain(stored, start@, seq![event], more);
                    self.lemma_since(start@, seq![event] + more);
                    assert((seq![event] + more).skip(1) =~= more);
                }
                if failures.len() == 0 {
                    Ok(displaced)
                } else {
                    Err(RouterError::Partial(failures))
                }
            },
            Err(source) => {
                proof {
                    self.lemma_since(start@, seq![event]);
                    assert(seq![event].skip(1) =~= none);
                }
                Err(RouterError::Tier(self.stack.failure(bottom, source)))
            },
        }
    }

    /// Activity per tier, topmost first.
    #[must_use]
    pub fn stats(&self) -> (stats: Vec<TierStats>)
        requires
            self.inv(),
        ensures
            stats@.len() == self.shape().tiers(),
            forall|i: int|
                0 <= i < stats@.len() ==> {
                    let seen = stack::tally(stack::calls_on(self.trace(), i as nat));
                    &&& (#[trigger] stats@[i]).name@ == self.shape().names[i]
                    &&& stats@[i].read_only == self.shape().read_only[i]
                    &&& stats@[i].hits == stack::shown(seen.hits)
                    &&& stats@[i].misses == stack::shown(seen.misses)
                    &&& stats@[i].puts == stack::shown(seen.puts)
                    &&& stats@[i].errors == stack::shown(seen.errors)
                },
    {
        self.stack.stats()
    }
}

fn join(removed: &mut Vec<bool>, flags: &Vec<bool>)
    ensures
        final(removed)@ == replay::joined(old(removed)@, flags@),
{
    let ghost before = removed@;
    let mut i: usize = 0;
    while i < removed.len() && i < flags.len()
        invariant
            before == old(removed)@,
            i <= before.len(),
            i <= flags@.len(),
            removed@ == Seq::new(
                before.len(),
                |j: int| before[j] || (j < i && j < flags@.len() && flags@[j]),
            ),
        decreases before.len() - i,
    {
        let flag = removed[i] || flags[i];
        removed[i] = flag;
        i += 1;
    }
}

fn into_keys<K, V>(entries: Vec<(K, V)>) -> (keys: Vec<K>)
    ensures
        keys@ == entries@.map_values(|entry: (K, V)| entry.0),
{
    let ghost all = entries@;
    let mut keys: Vec<K> = Vec::with_capacity(entries.len());
    for entry in source: entries.into_iter()
        invariant
            source.seq() == all,
            keys@ == all.take(source.index() as int).map_values(|entry: (K, V)| entry.0),
    {
        let ghost index = source.index() as int;
        let (key, _) = entry;
        keys.push(key);
        assert(all.take(index + 1) =~= all.take(index).push(all[index]));
        assert(keys@ =~= all.take(index + 1).map_values(|entry: (K, V)| entry.0));
    }
    assert(all.take(all.len() as int) =~= all);
    keys
}

impl<T> TierRead for Router<T> where T: TierRead + TierWrite, T::Key: Clone, T::Value: Clone {
    fn get(&mut self, key: &T::Key) -> (found: Result<Option<T::Value>, RouterError<T::Error>>)
        ensures
            final(self).after(*old(self)),
            replay::read_from(
                old(self).shape(),
                *key,
                0,
                Seq::empty(),
                final(self).since(*old(self)),
            ) == Some((Seq::<Event<T::Key, T::Value, T::Error>>::empty(), error::answer(found))),
    {
        let found = self.route_get(key);
        proof {
            self.lemma_since(*old(self), self.since(*old(self)));
        }
        self.record(Ghost(Call::Get { key: *key, found }), Ghost(*old(self)));
        found
    }

    fn contains(&mut self, key: &T::Key) -> (present: Result<bool, RouterError<T::Error>>)
        ensures
            final(self).after(*old(self)),
            replay::sought_from(
                old(self).shape(),
                *key,
                0,
                Seq::empty(),
                final(self).since(*old(self)),
            ) == Some((Seq::<Event<T::Key, T::Value, T::Error>>::empty(), error::answer(present))),
    {
        let present = self.route_contains(key);
        proof {
            self.lemma_since(*old(self), self.since(*old(self)));
        }
        self.record(Ghost(Call::Exists { key: *key, present }), Ghost(*old(self)));
        present
    }

    /// Trait-level batched read: delegates to [`Router::read_many`] and
    /// degrades to the trait's whole-batch granularity (any inconclusive key
    /// makes the whole batch inconclusive). Callers holding a concrete router
    /// should prefer `read_many` for per-key statuses.
    fn get_many(&mut self, keys: &[T::Key]) -> (values: Result<
        Vec<Option<T::Value>>,
        RouterError<T::Error>,
    >)
        ensures
            final(self).after(*old(self)),
            replay::gathered(old(self).shape(), keys@, final(self).since(*old(self)))
                matches Some((rest, report)) && rest.len() == 0 && error::view_answer(values)
                == replay::degraded(report),
    {
        let values = match self.read_many(keys) {
            Ok(report) => {
                let mut inconclusive = false;
                let mut i: usize = 0;
                while i < report.statuses.len()
                    invariant
                        i <= report.statuses@.len(),
                        inconclusive == report.statuses@.take(i as int).contains(
                            KeyStatus::Inconclusive,
                        ),
                    decreases report.statuses@.len() - i,
                {
                    let ghost seen = report.statuses@.take(i as int);
                    assert(report.statuses@.take(i + 1) =~= seen.push(report.statuses@[i as int]));
                    proof {
                        vstd::seq_lib::lemma_seq_contains_after_push(
                            seen,
                            report.statuses@[i as int],
                            KeyStatus::Inconclusive,
                        );
                    }
                    if matches!(report.statuses[i], KeyStatus::Inconclusive) {
                        inconclusive = true;
                    }
                    i += 1;
                }
                assert(report.statuses@.take(i as int) =~= report.statuses@);
                if inconclusive {
                    Err(RouterError::Inconclusive(report.failures))
                } else {
                    Ok(report.into_values())
                }
            },
            Err(error) => Err(error),
        };
        self.record(
            Ghost(Call::GetMany { keys: keys@, values: tier::seq_answer(values) }),
            Ghost(*old(self)),
        );
        values
    }
}

impl<T> TierWrite for Router<T> where T: TierRead + TierWrite, T::Key: Clone, T::Value: Clone {
    fn put(&mut self, key: T::Key, value: T::Value) -> (displaced: Result<
        Displaced<T::Key, T::Value>,
        RouterError<T::Error>,
    >)
        ensures
            final(self).after(*old(self)),
            replay::wrote(
                old(self).shape(),
                Write::One { key, value },
                final(self).since(*old(self)),
            ) == Some(
                (Seq::<Event<T::Key, T::Value, T::Error>>::empty(), error::view_answer(displaced)),
            ),
    {
        let ghost asked = (key, value);
        let displaced = self.route_put(key, value);
        proof {
            self.lemma_since(*old(self), self.since(*old(self)));
        }
        self.record(
            Ghost(
                Call::Put {
                    key: asked.0,
                    value: asked.1,
                    displaced: tier::seq_answer(displaced),
                },
            ),
            Ghost(*old(self)),
        );
        displaced
    }

    fn delete(&mut self, key: &T::Key) -> (removed: Result<bool, RouterError<T::Error>>)
        ensures
            final(self).after(*old(self)),
            replay::removed_from(
                old(self).shape(),
                *key,
                0,
                false,
                Seq::empty(),
                final(self).since(*old(self)),
            ) == Some((Seq::<Event<T::Key, T::Value, T::Error>>::empty(), error::answer(removed))),
    {
        let removed = self.route_delete(key);
        proof {
            self.lemma_since(*old(self), self.since(*old(self)));
        }
        self.record(Ghost(Call::Delete { key: *key, removed }), Ghost(*old(self)));
        removed
    }

    /// Batched write with the same propagation semantics as `put`:
    /// write-through goes bottom-up per tier, write-around writes the bottom
    /// and invalidates above.
    fn put_many(&mut self, entries: Vec<(T::Key, T::Value)>) -> (displaced: Result<
        Displaced<T::Key, T::Value>,
        RouterError<T::Error>,
    >)
        ensures
            final(self).after(*old(self)),
            replay::wrote(
                old(self).shape(),
                Write::Many { entries: entries@ },
                final(self).since(*old(self)),
            ) == Some(
                (Seq::<Event<T::Key, T::Value, T::Error>>::empty(), error::view_answer(displaced)),
            ),
    {
        let ghost asked = entries@;
        let displaced = self.route_put_many(entries);
        proof {
            self.lemma_since(*old(self), self.since(*old(self)));
        }
        self.record(
            Ghost(Call::PutMany { entries: asked, displaced: tier::seq_answer(displaced) }),
            Ghost(*old(self)),
        );
        displaced
    }

    /// Trait-level batched delete: delegates to [`Router::remove_many`] and
    /// degrades any failure to the trait's whole-batch
    /// [`RouterError::Partial`]. Callers holding a concrete router should
    /// prefer `remove_many` for per-key flags alongside the failures.
    fn delete_many(&mut self, keys: &[T::Key]) -> (removed: Result<
        Vec<bool>,
        RouterError<T::Error>,
    >)
        ensures
            final(self).after(*old(self)),
            replay::cleared(old(self).shape(), keys@, final(self).since(*old(self)))
                matches Some((rest, (flags, failures))) && rest.len() == 0 && error::view_answer(
                removed,
            ) == (if failures.len() > 0 {
                Err(Fault::Partial(failures))
            } else {
                Ok(flags)
            }),
    {
        let report = self.remove_many(keys);
        let removed = if report.is_complete() {
            Ok(report.removed)
        } else {
            Err(RouterError::Partial(report.failures))
        };
        self.record(
            Ghost(Call::DeleteMany { keys: keys@, flags: tier::seq_answer(removed) }),
            Ghost(*old(self)),
        );
        removed
    }
}

} // verus!
