//! An authoritative tiered store built on top of the generic router.
//!
//! A cache optimises availability (fall through failures, refill later); a
//! store answers for the data itself:
//!
//! - **Reads fail fast.** A failing tier is an error, not a detour.
//! - **Loss is loud.** A write that pushes entries off the *bottom* tier, or
//!   displaces entries that the tier below refuses, shrank the store;
//!   [`TieredStore::put`] returns them in [`StoreError::Evicted`], the caller's
//!   last chance to save the data. (Bounded upper tiers are fine: demotion rolls
//!   their overflow down losslessly.)
//! - **Nothing moves behind your back.** No promotion by default; data lives
//!   where it was written until you say otherwise.
//!
//! [`TieredStore`] implements the tier traits itself, so it can be the bottom
//! tier of a router. The trait face is *mechanical*: as a tier, `put` returns
//! displaced entries per the rollover contract (an enclosing router needs
//! them); the loud [`StoreError::Evicted`] stance lives on the inherent API for
//! direct users.

use vstd::prelude::*;
use vstd::string::StringExecFns;

use crate::conduct;
use crate::error;
use crate::error::{Fault, RouterError};
use crate::laws;
use crate::policy::{OnReadError, OnWriteError, Policy, Promote, ReadPolicy, WriteMode};
use crate::replay;
use crate::replay::{Shape, Write};
use crate::report::{DeleteReport, ReadReport};
use crate::router::{Router, RouterBuilder};
use crate::stack::Event;
use crate::text;
use crate::text::{numeral, wrap};
use crate::tier::{Call, Displaced, Tier, TierRead, TierWrite};

verus! {

/// Authoritative tiered store over an ordered tier stack.
pub struct TieredStore<T: TierRead + TierWrite> {
    router: Router<T>,
}

/// Builder for [`TieredStore`]; add tiers top-down (fastest first).
pub struct TieredStoreBuilder<T: TierRead + TierWrite> {
    router: RouterBuilder<T>,
}

/// Error from a [`TieredStore`] operation.
#[derive(Debug)]
pub enum StoreError<K, V, E> {
    /// The underlying router failed (tier error, inconclusive read, partial
    /// delete).
    Router(RouterError<E>),
    /// A write displaced these entries off the bottommost tier, or no tier took
    /// them: for a store that is data loss, not eviction. They are returned so the caller can
    /// still persist them elsewhere.
    Evicted(Displaced<K, V>),
}

impl<K, V, E> From<RouterError<E>> for StoreError<K, V, E> {
    fn from(error: RouterError<E>) -> (store_error: Self) {
        StoreError::Router(error)
    }
}

impl<K, V, E> vstd::std_specs::convert::FromSpecImpl<RouterError<E>> for StoreError<K, V, E> {
    open spec fn obeys_from_spec() -> bool {
        true
    }

    open spec fn from_spec(error: RouterError<E>) -> Self {
        StoreError::Router(error)
    }
}

/// The result of a store operation that cannot evict, as the router gave it.
pub open spec fn passed_on<A, K, V, E>(result: Result<A, StoreError<K, V, E>>) -> Option<
    Result<A, RouterError<E>>,
> {
    match result {
        Ok(value) => Some(Ok(value)),
        Err(StoreError::Router(error)) => Some(Err(error)),
        Err(StoreError::Evicted(_)) => None,
    }
}

/// The result of a store write, as the router gave it: success is an empty
/// list of evicted entries.
pub open spec fn retained<K, V, E>(result: Result<(), StoreError<K, V, E>>) -> Result<
    Seq<(K, V)>,
    Fault<E>,
> {
    match result {
        Ok(()) => Ok(Seq::empty()),
        Err(StoreError::Router(error)) => Err(error@),
        Err(StoreError::Evicted(entries)) => Ok(entries@),
    }
}

/// Whether nothing was dropped by a write that made the calls `trace`: every
/// entry that was displaced on the way was accepted by a lower tier later on, or
/// is returned, and what was written was accepted, or is returned as well. If refusals abort, every
/// writable tier, or with write-around the bottommost one, has accepted it.
pub open spec fn nothing_dropped<K: Clone, V: Clone, E>(
    shape: Shape,
    write: Write<K, V>,
    trace: Seq<Event<K, V, E>>,
    result: Result<(), StoreError<K, V, E>>,
) -> bool {
    retained(result) matches Ok(evicted) ==> {
        &&& conduct::accounted(trace, evicted)
        &&& (exists|t: nat| #[trigger] shape.writable(t) && conduct::accepts(trace, t, write))
            || forall|entry: (K, V)| #[trigger]
            replay::entries_of(write).contains(entry) ==> evicted.contains(entry)
        &&& shape.policy.write is WriteThrough && shape.policy.on_write_error == OnWriteError::Abort
            ==> forall|t: nat| #[trigger] shape.writable(t) ==> conduct::accepts(trace, t, write)
        &&& shape.policy.write is WriteAround ==> (shape.bottom(shape.tiers()) matches Some(bottom)
            && conduct::accepts(trace, bottom, write))
    }
}

impl<K, V, E> StoreError<K, V, E> {
    /// The router error behind this one.
    #[must_use]
    pub fn source(&self) -> (source: Option<&RouterError<E>>)
        ensures
            source == match self {
                StoreError::Router(error) => Some(error),
                StoreError::Evicted(_) => None,
            },
    {
        match self {
            StoreError::Router(error) => Some(error),
            StoreError::Evicted(_) => None,
        }
    }

    /// The error in words.
    #[must_use]
    pub fn message(&self) -> (message: String)
        ensures
            message@ == match self {
                StoreError::Router(error) => error.words(),
                StoreError::Evicted(entries) => "write displaced "@ + text::decimal(entries@.len())
                    + " entr"@ + (if entries@.len() == 1 {
                    "y"@
                } else {
                    "ies"@
                }) + " off the bottom tier — data loss for a store"@,
            },
    {
        match self {
            StoreError::Router(error) => error.message(),
            StoreError::Evicted(entries) => {
                let mut message = wrap("write displaced ", numeral(entries.len()).as_str(), " entr");
                message.append(
                    if entries.len() == 1 {
                        "y"
                    } else {
                        "ies"
                    },
                );
                message.append(" off the bottom tier — data loss for a store");
                message
            },
        }
    }
}

impl<T> TieredStoreBuilder<T> where T: TierRead + TierWrite, T::Key: Clone, T::Value: Clone {
    /// The builder's internal invariant.
    pub closed spec fn wf(&self) -> bool {
        self.router.wf()
    }

    /// What a store built now would be.
    pub closed spec fn shape(&self) -> Shape {
        self.router.shape()
    }

    /// The tier added as number `tier`.
    pub closed spec fn added(&self, tier: int) -> T {
        self.router.added(tier)
    }

    /// Appends `tier` below all previously added tiers (first added is the
    /// fastest).
    #[must_use]
    pub fn tier(self, tier: T) -> (builder: Self)
        requires
            self.wf(),
            tier.inv(),
        ensures
            builder.wf(),
            builder.shape() == (Shape {
                names: self.shape().names.push(tier.label()),
                read_only: self.shape().read_only.push(false),
                policy: self.shape().policy,
            }),
            builder.added(self.shape().names.len() as int) == tier,
            forall|i: int|
                0 <= i < self.shape().names.len() ==> #[trigger] builder.added(i) == self.added(i),
    {
        TieredStoreBuilder { router: self.router.tier(tier) }
    }

    /// Overrides the store policy.
    #[must_use]
    pub fn policy(self, policy: Policy) -> (builder: Self)
        requires
            self.wf(),
        ensures
            builder.wf(),
            builder.shape() == (Shape { policy, ..self.shape() }),
            forall|i: int| #[trigger] builder.added(i) == self.added(i),
    {
        TieredStoreBuilder { router: self.router.policy(policy) }
    }

    /// Finishes the store, which needs at least one tier.
    #[must_use]
    pub fn build(self) -> (store: TieredStore<T>)
        requires
            self.wf(),
            self.shape().tiers() > 0,
        ensures
            store.inv(),
            store.routed().shape() == self.shape(),
            store.routed().trace() == Seq::<Event<T::Key, T::Value, T::Error>>::empty(),
            store.history() == Seq::<Call<T::Key, T::Value, RouterError<T::Error>>>::empty(),
            forall|i: int| #[trigger] store.routed().routed(i) == self.added(i),
    {
        TieredStore { router: self.router.build() }
    }
}

impl<T> TieredStore<T> where T: TierRead + TierWrite, T::Key: Clone, T::Value: Clone {
    /// The underlying router.
    pub closed spec fn routed(&self) -> Router<T> {
        self.router
    }
}

impl<T> TieredStore<T> where T: TierRead + TierWrite, T::Key: Clone, T::Value: Clone {
    /// Starts building a store with [`TieredStore::default_policy`].
    #[must_use]
    pub fn builder() -> (builder: TieredStoreBuilder<T>)
        ensures
            builder.wf(),
            builder.shape().names == Seq::<Seq<char>>::empty(),
            builder.shape().read_only == Seq::<bool>::empty(),
            builder.shape().policy == preset(),
    {
        TieredStoreBuilder { router: Router::<T>::builder().policy(Self::default_policy()) }
    }

    /// The store preset: fail-fast reads, no promotion, write-through, and
    /// demotion so bounded upper tiers overflow losslessly downward.
    #[must_use]
    pub fn default_policy() -> (policy: Policy)
        ensures
            policy == preset(),
    {
        Policy {
            read: ReadPolicy { promote: Promote::Never, on_error: OnReadError::FailFast },
            write: WriteMode::WriteThrough,
            on_write_error: OnWriteError::Abort,
            demote_displaced: true,
        }
    }

    /// Reads through the hierarchy. A miss is authoritative: `Ok(None)` means
    /// the store does not hold the key.
    ///
    /// Under the fail-fast preset the read aborts rather than serving around a
    /// broken tier.
    pub fn get(&mut self, key: &T::Key) -> (found: Result<
        Option<T::Value>,
        StoreError<T::Key, T::Value, T::Error>,
    >)
        requires
            old(self).inv(),
        ensures
            final(self).inv(),
            final(self).routed().after(old(self).routed()),
            passed_on(found) matches Some(found) && replay::read_from(
                old(self).routed().shape(),
                *key,
                0,
                Seq::empty(),
                final(self).routed().since(old(self).routed()),
            ) == Some((Seq::<Event<T::Key, T::Value, T::Error>>::empty(), error::answer(found))),
    {
        match self.router.get(key) {
            Ok(value) => Ok(value),
            Err(error) => Err(StoreError::from(error)),
        }
    }

    /// Batched read with per-key outcomes (hits carry tier provenance). Same
    /// classification as [`TieredStore::get`].
    pub fn get_many(&mut self, keys: &[T::Key]) -> (report: Result<
        ReadReport<T::Value, T::Error>,
        StoreError<T::Key, T::Value, T::Error>,
    >)
        requires
            old(self).inv(),
        ensures
            final(self).inv(),
            final(self).routed().after(old(self).routed()),
            passed_on(report) matches Some(report) && replay::gathered(
                old(self).routed().shape(),
                keys@,
                final(self).routed().since(old(self).routed()),
            ) == Some(
                (Seq::<Event<T::Key, T::Value, T::Error>>::empty(), error::view_answer(report)),
            ),
    {
        match self.router.read_many(keys) {
            Ok(report) => Ok(report),
            Err(error) => Err(StoreError::from(error)),
        }
    }

    /// Checks the hierarchy for `key`. Same classification as
    /// [`TieredStore::get`].
    pub fn contains(&mut self, key: &T::Key) -> (present: Result<
        bool,
        StoreError<T::Key, T::Value, T::Error>,
    >)
        requires
            old(self).inv(),
        ensures
            final(self).inv(),
            final(self).routed().after(old(self).routed()),
            passed_on(present) matches Some(present) && replay::sought_from(
                old(self).routed().shape(),
                *key,
                0,
                Seq::empty(),
                final(self).routed().since(old(self).routed()),
            ) == Some((Seq::<Event<T::Key, T::Value, T::Error>>::empty(), error::answer(present))),
    {
        match self.router.contains(key) {
            Ok(present) => Ok(present),
            Err(error) => Err(StoreError::from(error)),
        }
    }

    /// Writes through every tier. Succeeds only if the data is fully retained:
    /// entries that were displaced, and that no lower tier took, are returned as
    /// [`StoreError::Evicted`] instead of being silently dropped.
    pub fn put(&mut self, key: T::Key, value: T::Value) -> (result: Result<
        (),
        StoreError<T::Key, T::Value, T::Error>,
    >)
        requires
            old(self).inv(),
        ensures
            final(self).inv(),
            final(self).routed().after(old(self).routed()),
            replay::wrote(
                old(self).routed().shape(),
                Write::One { key, value },
                final(self).routed().since(old(self).routed()),
            ) == Some((Seq::<Event<T::Key, T::Value, T::Error>>::empty(), retained(result))),
            result matches Err(StoreError::Evicted(entries)) ==> entries@.len() > 0,
            nothing_dropped(
                old(self).routed().shape(),
                Write::One { key, value },
                final(self).routed().since(old(self).routed()),
                result,
            ),
    {
        let ghost write = Write::One { key, value };
        let result = match self.router.put(key, value) {
            Ok(displaced) => if displaced.len() == 0 {
                assert(displaced@ =~= Seq::empty());
                Ok(())
            } else {
                Err(StoreError::Evicted(displaced))
            },
            Err(error) => Err(StoreError::from(error)),
        };
        proof {
            if let Ok(evicted) = retained(result) {
                conduct::law_displaced_entries_are_kept_or_returned(
                    old(self).routed().shape(),
                    write,
                    self.routed().since(old(self).routed()),
                    evicted,
                );
            }
        }
        result
    }

    /// Batched write-through with the same loss stance as
    /// [`TieredStore::put`].
    pub fn put_many(&mut self, entries: Vec<(T::Key, T::Value)>) -> (result: Result<
        (),
        StoreError<T::Key, T::Value, T::Error>,
    >)
        requires
            old(self).inv(),
        ensures
            final(self).inv(),
            final(self).routed().after(old(self).routed()),
            replay::wrote(
                old(self).routed().shape(),
                Write::Many { entries: entries@ },
                final(self).routed().since(old(self).routed()),
            ) == Some((Seq::<Event<T::Key, T::Value, T::Error>>::empty(), retained(result))),
            result matches Err(StoreError::Evicted(entries)) ==> entries@.len() > 0,
            nothing_dropped(
                old(self).routed().shape(),
                Write::Many { entries: entries@ },
                final(self).routed().since(old(self).routed()),
                result,
            ),
    {
        let ghost write = Write::Many { entries: entries@ };
        let result = match self.router.put_many(entries) {
            Ok(displaced) => if displaced.len() == 0 {
                assert(displaced@ =~= Seq::empty());
                Ok(())
            } else {
                Err(StoreError::Evicted(displaced))
            },
            Err(error) => Err(StoreError::from(error)),
        };
        proof {
            if let Ok(evicted) = retained(result) {
                conduct::law_displaced_entries_are_kept_or_returned(
                    old(self).routed().shape(),
                    write,
                    self.routed().since(old(self).routed()),
                    evicted,
                );
            }
        }
        result
    }

    /// Removes `key` from every tier, reporting whether it existed. A tier
    /// that fails to delete makes the removal [`RouterError::Partial`]: a
    /// surviving copy could resurrect the key.
    pub fn delete(&mut self, key: &T::Key) -> (existed: Result<
        bool,
        StoreError<T::Key, T::Value, T::Error>,
    >)
        requires
            old(self).inv(),
        ensures
            final(self).inv(),
            final(self).routed().after(old(self).routed()),
            passed_on(existed) matches Some(existed) && replay::removed_from(
                old(self).routed().shape(),
                *key,
                0,
                false,
                Seq::empty(),
                final(self).routed().since(old(self).routed()),
            ) == Some((Seq::<Event<T::Key, T::Value, T::Error>>::empty(), error::answer(existed))),
    {
        match self.router.delete(key) {
            Ok(existed) => Ok(existed),
            Err(error) => Err(StoreError::from(error)),
        }
    }

    /// Batched delete with per-key outcomes; failures are in the report.
    pub fn delete_many(&mut self, keys: &[T::Key]) -> (report: DeleteReport<T::Error>)
        requires
            old(self).inv(),
        ensures
            final(self).inv(),
            final(self).routed().after(old(self).routed()),
            replay::cleared(
                old(self).routed().shape(),
                keys@,
                final(self).routed().since(old(self).routed()),
            ) == Some((Seq::<Event<T::Key, T::Value, T::Error>>::empty(), report@)),
    {
        self.router.remove_many(keys)
    }

    /// The underlying router, for anything the store API does not expose.
    #[must_use]
    pub fn router(&self) -> (router: &Router<T>)
        ensures
            *router == self.routed(),
    {
        &self.router
    }
}

/// The policy of a store: fail-fast reads, no promotion, write-through that
/// aborts, and demotion.
pub open spec fn preset() -> Policy {
    Policy {
        read: ReadPolicy { promote: Promote::Never, on_error: OnReadError::FailFast },
        write: WriteMode::WriteThrough,
        on_write_error: OnWriteError::Abort,
        demote_displaced: true,
    }
}

impl<T> Tier for TieredStore<T> where T: TierRead + TierWrite, T::Key: Clone, T::Value: Clone {
    type Key = T::Key;

    type Value = T::Value;

    type Error = RouterError<T::Error>;

    closed spec fn inv(&self) -> bool {
        self.router.inv()
    }

    closed spec fn history(&self) -> Seq<Call<T::Key, T::Value, RouterError<T::Error>>> {
        self.router.history()
    }

    open spec fn label(&self) -> Seq<char> {
        "store"@
    }

    /// What the underlying router promises.
    open spec fn promised(
        before: Self,
        after: Self,
        call: Call<T::Key, T::Value, RouterError<T::Error>>,
    ) -> bool {
        Router::<T>::promised(before.routed(), after.routed(), call)
    }

    fn name(&self) -> (name: &str) {
        "store"
    }
}

impl<T> TierRead for TieredStore<T> where T: TierRead + TierWrite, T::Key: Clone, T::Value: Clone {
    fn get(&mut self, key: &T::Key) -> (found: Result<Option<T::Value>, RouterError<T::Error>>) {
        self.router.get(key)
    }

    fn contains(&mut self, key: &T::Key) -> (present: Result<bool, RouterError<T::Error>>) {
        self.router.contains(key)
    }

    fn get_many(&mut self, keys: &[T::Key]) -> (values: Result<
        Vec<Option<T::Value>>,
        RouterError<T::Error>,
    >) {
        self.router.get_many(keys)
    }
}

impl<T> TierWrite for TieredStore<T> where T: TierRead + TierWrite, T::Key: Clone, T::Value: Clone {
    fn put(&mut self, key: T::Key, value: T::Value) -> (displaced: Result<
        Displaced<T::Key, T::Value>,
        RouterError<T::Error>,
    >) {
        self.router.put(key, value)
    }

    fn delete(&mut self, key: &T::Key) -> (removed: Result<bool, RouterError<T::Error>>) {
        self.router.delete(key)
    }

    fn put_many(&mut self, entries: Vec<(T::Key, T::Value)>) -> (displaced: Result<
        Displaced<T::Key, T::Value>,
        RouterError<T::Error>,
    >) {
        self.router.put_many(entries)
    }

    fn delete_many(&mut self, keys: &[T::Key]) -> (removed: Result<
        Vec<bool>,
        RouterError<T::Error>,
    >) {
        self.router.delete_many(keys)
    }
}

/// A successful write is fully retained: over fair tiers, of which a store's
/// are all writable and may refuse what is written or demoted into them, no key
/// goes missing, a key that was not written reads as before, and a key that was
/// written reads back with the value that it was given.
///
/// The last part asks that refusals abort, as they do by default, or that no
/// tier refused the key: one that did could still hold an older copy of it.
pub proof fn law_successful_writes_are_fully_retained<K: Clone, V: Clone, E>(
    how: laws::Ways<K, V>,
    later: laws::Ways<K, V>,
    shape: Shape,
    world: Seq<Map<K, V>>,
    write: Write<K, V>,
    writing: Seq<Event<K, V, E>>,
    result: Result<(), StoreError<K, V, E>>,
    key: K,
    reading: Seq<Event<K, V, E>>,
    found: Result<Option<V>, Fault<E>>,
)
    requires
        laws::faithful_clone::<K>(),
        laws::faithful_clone::<V>(),
        world.len() == shape.tiers(),
        forall|i: int| 0 <= i < world.len() ==> !#[trigger] shape.read_only[i],
        laws::fair(how, world, writing),
        replay::wrote(shape, write, writing) == Some(
            (Seq::<Event<K, V, E>>::empty(), retained(result)),
        ),
        result is Ok,
        laws::held(world, 0, key) || laws::lists(replay::entries_of(write), key),
        laws::fair(later, laws::run(how, world, writing), reading),
        replay::read_from(shape, key, 0, Seq::empty(), reading) == Some(
            (Seq::<Event<K, V, E>>::empty(), found),
        ),
    ensures
        laws::held(laws::run(how, world, writing), 0, key),
        !laws::lists(replay::entries_of(write), key) ==> found == Ok::<_, Fault<E>>(
            laws::first(world, 0, key),
        ),
        laws::value_in(replay::entries_of(write), key) matches Some(value) ==> (laws::undisturbed(
            shape,
            writing,
            key,
        ) ==> found == Ok::<_, Fault<E>>(Some(value))),
{
    let none: Seq<(K, V)> = Seq::empty();
    let after = laws::run(how, world, writing);
    laws::law_eviction_is_never_silent(how, shape, world, write, writing, none, key);
    laws::lemma_run_len(how, world, writing);
    if !laws::lists(replay::entries_of(write), key) {
        laws::lemma_first_held(world, 0, key);
        laws::law_other_entries_keep_their_values(
            how,
            shape,
            world,
            write,
            writing,
            none,
            key,
            laws::first(world, 0, key)->0,
        );
        laws::law_read_finds_the_topmost_copy(later, shape, after, key, 0, reading);
    }
    if let Some(value) = laws::value_in(replay::entries_of(write), key) {
        if laws::undisturbed(shape, writing, key) {
            laws::law_read_your_write(
                how,
                later,
                shape,
                world,
                write,
                key,
                value,
                writing,
                none,
                reading,
                found,
            );
        }
    }
}

/// Loss is loud: a write that a store reports as done lost nothing; one that
/// displaced entries for good is an error that carries exactly them; and what the
/// router fails with is told as it is.
pub proof fn law_loss_is_loud<K, V, E>(
    result: Result<(), StoreError<K, V, E>>,
    routed: Result<Seq<(K, V)>, Fault<E>>,
)
    requires
        retained(result) == routed,
        result matches Err(StoreError::Evicted(entries)) ==> entries@.len() > 0,
    ensures
        match routed {
            Ok(evicted) => if evicted.len() == 0 {
                result is Ok
            } else {
                result matches Err(StoreError::Evicted(entries)) && entries@ == evicted
            },
            Err(fault) => result matches Err(StoreError::Router(error)) && error@ == fault,
        },
{
}

/// By default a store moves nothing on reads and stops at the first failing tier;
/// it writes through, stops at the first refusal, and demotes what is displaced.
pub proof fn law_stores_answer_for_their_data()
    ensures
        preset().read.promote == Promote::Never,
        preset().read.on_error == OnReadError::FailFast,
        preset().write == WriteMode::WriteThrough,
        preset().on_write_error == OnWriteError::Abort,
        preset().demote_displaced,
{
}

/// What the router answers is what the store answers, and what it fails with is
/// told as it is.
pub proof fn law_stores_pass_the_router_on<A, K, V, E>(
    result: Result<A, StoreError<K, V, E>>,
    routed: Result<A, RouterError<E>>,
)
    requires
        passed_on(result) == Some(routed),
    ensures
        match routed {
            Ok(value) => result == Ok::<A, StoreError<K, V, E>>(value),
            Err(error) => result == Err::<A, StoreError<K, V, E>>(StoreError::Router(error)),
        },
{
}

/// A store that serves as a tier is its router: what the router promises of a
/// call holds of the store.
pub proof fn law_stores_are_tiers_as_their_routers_are<T>(
    before: TieredStore<T>,
    after: TieredStore<T>,
    call: Call<T::Key, T::Value, RouterError<T::Error>>,
) where T: TierRead + TierWrite, T::Key: Clone, T::Value: Clone
    requires
        TieredStore::<T>::promised(before, after, call),
    ensures
        Router::<T>::promised(before.routed(), after.routed(), call),
{
}

} // verus!
