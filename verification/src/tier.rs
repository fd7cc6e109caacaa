//! Capability traits implemented by storage tiers.
//!
//! Capabilities are split into small traits so a backend only implements what
//! it supports. What a tier answers is its own business: it may fail, evict or
//! be written by others at any time. A tier only keeps a ghost record of the
//! calls it was asked to serve and of its answers; everything proved about
//! routing is stated over these records.

use core::ops::Range;
use vstd::prelude::*;

verus! {

/// Entries displaced (evicted) by an insert, in eviction order.
pub type Displaced<K, V> = Vec<(K, V)>;

/// One call that a tier served, with its answer.
pub enum Call<K, V, E> {
    /// A point lookup.
    Get { key: K, found: Result<Option<V>, E> },
    /// An existence check.
    Exists { key: K, present: Result<bool, E> },
    /// A batched lookup.
    GetMany { keys: Seq<K>, values: Result<Seq<Option<V>>, E> },
    /// An insert; the answer lists the entries it displaced.
    Put { key: K, value: V, displaced: Result<Seq<(K, V)>, E> },
    /// A batched insert.
    PutMany { entries: Seq<(K, V)>, displaced: Result<Seq<(K, V)>, E> },
    /// A removal; the answer says whether the key was present.
    Delete { key: K, removed: Result<bool, E> },
    /// A batched removal.
    DeleteMany { keys: Seq<K>, flags: Result<Seq<bool>, E> },
}

impl<K, V, E> Call<K, V, E> {
    /// Whether the call asks the tier to change its contents.
    pub open spec fn writes(self) -> bool {
        self is Put || self is PutMany || self is Delete || self is DeleteMany
    }

    /// Whether the tier failed to serve the call.
    pub open spec fn failed(self) -> bool {
        match self {
            Call::Get { found, .. } => found is Err,
            Call::Exists { present, .. } => present is Err,
            Call::GetMany { values, .. } => values is Err,
            Call::Put { displaced, .. } => displaced is Err,
            Call::PutMany { displaced, .. } => displaced is Err,
            Call::Delete { removed, .. } => removed is Err,
            Call::DeleteMany { flags, .. } => flags is Err,
        }
    }
}

/// The answer of a call that returns a vector, as a mathematical value.
pub open spec fn seq_answer<A, E>(answer: Result<Vec<A>, E>) -> Result<Seq<A>, E> {
    match answer {
        Ok(items) => Ok(items@),
        Err(error) => Err(error),
    }
}

/// Base trait naming the key, value, and error types shared by all
/// capabilities of a tier.
///
/// The ghost functions describe a tier to the verifier. A verified tier defines
/// them. Each has a default, so that a tier outside verified code compiles
/// without them. Nothing holds such a tier to its contracts, and its history
/// is not known: what is proved of a router or a store over it applies only as
/// far as there is some history that each of its calls extends by what was
/// asked and answered, and a name that no call changes.
pub trait Tier: Sized {
    /// Key type this tier is addressed by.
    type Key;

    /// Value type this tier stores.
    type Value;

    /// Backend error type.
    type Error;

    /// The tier's internal invariant.
    open spec fn inv(&self) -> bool {
        true
    }

    /// The calls served so far, oldest first.
    closed spec fn history(&self) -> Seq<Call<Self::Key, Self::Value, Self::Error>> {
        arbitrary()
    }

    /// The name that [`Tier::name`] reports; no call changes it.
    closed spec fn label(&self) -> Seq<char> {
        arbitrary()
    }

    /// What the tier promises of a call that it served, beyond recording it:
    /// how the tier `after` the call came from the tier `before` it.
    open spec fn promised(
        before: Self,
        after: Self,
        call: Call<Self::Key, Self::Value, Self::Error>,
    ) -> bool {
        true
    }

    /// Short human-readable name for diagnostics and error reports.
    fn name(&self) -> (name: &str)
        ensures
            name@ == self.label(),
    ;
}

/// Read capability: point lookups and existence checks.
pub trait TierRead: Tier {
    /// Looks up `key`. Absence is *data*, not an error: a missing key is
    /// `Ok(None)`. An error means that the tier cannot say whether the key
    /// exists.
    fn get(&mut self, key: &Self::Key) -> (found: Result<Option<Self::Value>, Self::Error>)
        requires
            old(self).inv(),
        ensures
            final(self).inv(),
            final(self).label() == old(self).label(),
            final(self).history() == old(self).history().push(Call::Get { key: *key, found }),
            Self::promised(*old(self), *final(self), Call::Get { key: *key, found }),
    ;

    /// Reports whether `key` is present without necessarily retrieving it.
    fn contains(&mut self, key: &Self::Key) -> (present: Result<bool, Self::Error>)
        requires
            old(self).inv(),
        ensures
            final(self).inv(),
            final(self).label() == old(self).label(),
            final(self).history() == old(self).history().push(Call::Exists { key: *key, present }),
            Self::promised(*old(self), *final(self), Call::Exists { key: *key, present }),
    ;

    /// Batched lookup: one slot per key, in the same order.
    ///
    /// Not atomic. A backend without a native batch primitive answers through
    /// [`get_each`].
    fn get_many(&mut self, keys: &[Self::Key]) -> (values: Result<
        Vec<Option<Self::Value>>,
        Self::Error,
    >)
        requires
            old(self).inv(),
        ensures
            final(self).inv(),
            final(self).label() == old(self).label(),
            final(self).history() == old(self).history().push(
                Call::GetMany { keys: keys@, values: seq_answer(values) },
            ),
            Self::promised(
                *old(self),
                *final(self),
                Call::GetMany { keys: keys@, values: seq_answer(values) },
            ),
    ;
}

/// Zero-copy read capability: borrow the value in place instead of
/// materialising an owned copy.
pub trait TierReadRef: Tier {
    /// Borrowed form of [`Tier::Value`].
    type Borrowed: ?Sized;

    /// What the tier promises of a value that it lends.
    open spec fn lent(
        &self,
        key: Self::Key,
        found: Result<Option<&Self::Borrowed>, Self::Error>,
    ) -> bool {
        true
    }

    /// Borrows `key`'s value in place; absence is `Ok(None)`.
    fn get_ref(&self, key: &Self::Key) -> (found: Result<Option<&Self::Borrowed>, Self::Error>)
        requires
            self.inv(),
        ensures
            self.lent(*key, found),
    ;
}

/// Ranged-read capability for byte-oriented tiers: serve a slice of a value
/// without materialising the whole thing.
pub trait TierReadRange: Tier {
    /// What the tier promises of a ranged read.
    open spec fn ranged(
        before: Self,
        after: Self,
        key: Self::Key,
        range: Range<u64>,
        found: Result<Option<Self::Value>, Self::Error>,
    ) -> bool {
        true
    }

    /// Reads exactly `range` (absolute byte offsets) of `key`'s value. A
    /// missing key is `Ok(None)`; a range that does not lie fully within the
    /// value is a backend error, not a silent truncation.
    fn read_range(&mut self, key: &Self::Key, range: Range<u64>) -> (found: Result<
        Option<Self::Value>,
        Self::Error,
    >)
        requires
            old(self).inv(),
        ensures
            final(self).inv(),
            final(self).label() == old(self).label(),
            final(self).history() == old(self).history(),
            Self::ranged(*old(self), *final(self), *key, range, found),
    ;
}

/// Write capability: inserts and deletes.
pub trait TierWrite: Tier {
    /// Inserts or replaces `key`, returning the entries that this insert
    /// displaced so that a router can demote them.
    fn put(&mut self, key: Self::Key, value: Self::Value) -> (displaced: Result<
        Displaced<Self::Key, Self::Value>,
        Self::Error,
    >)
        requires
            old(self).inv(),
        ensures
            final(self).inv(),
            final(self).label() == old(self).label(),
            final(self).history() == old(self).history().push(
                Call::Put { key, value, displaced: seq_answer(displaced) },
            ),
            Self::promised(
                *old(self),
                *final(self),
                Call::Put { key, value, displaced: seq_answer(displaced) },
            ),
    ;

    /// Removes `key`, reporting whether it was present.
    fn delete(&mut self, key: &Self::Key) -> (removed: Result<bool, Self::Error>)
        requires
            old(self).inv(),
        ensures
            final(self).inv(),
            final(self).label() == old(self).label(),
            final(self).history() == old(self).history().push(Call::Delete { key: *key, removed }),
            Self::promised(*old(self), *final(self), Call::Delete { key: *key, removed }),
    ;

    /// Batched insert; aggregates displaced entries across the batch.
    ///
    /// Not atomic. A backend without a native batch primitive answers through
    /// [`put_each`].
    fn put_many(&mut self, entries: Vec<(Self::Key, Self::Value)>) -> (displaced: Result<
        Displaced<Self::Key, Self::Value>,
        Self::Error,
    >)
        requires
            old(self).inv(),
        ensures
            final(self).inv(),
            final(self).label() == old(self).label(),
            final(self).history() == old(self).history().push(
                Call::PutMany { entries: entries@, displaced: seq_answer(displaced) },
            ),
            Self::promised(
                *old(self),
                *final(self),
                Call::PutMany { entries: entries@, displaced: seq_answer(displaced) },
            ),
    ;

    /// Batched removal: one "was it present" flag per key, in the same order.
    ///
    /// Not atomic. A backend without a native batch primitive answers through
    /// [`delete_each`].
    fn delete_many(&mut self, keys: &[Self::Key]) -> (removed: Result<Vec<bool>, Self::Error>)
        requires
            old(self).inv(),
        ensures
            final(self).inv(),
            final(self).label() == old(self).label(),
            final(self).history() == old(self).history().push(
                Call::DeleteMany { keys: keys@, flags: seq_answer(removed) },
            ),
            Self::promised(
                *old(self),
                *final(self),
                Call::DeleteMany { keys: keys@, flags: seq_answer(removed) },
            ),
    ;
}

/// One page of keys from [`TierList::list`].
#[derive(Debug, Clone, PartialEq, Eq)]
pub struct Page<K, C> {
    /// Keys in this page, in the tier's listing order.
    pub keys: Vec<K>,
    /// Cursor for the next page, or `None` when the listing is exhausted.
    pub next: Option<C>,
}

/// Enumeration capability, paged by an opaque cursor.
pub trait TierList: Tier {
    /// Opaque continuation token for paging.
    type Cursor;

    /// What the tier promises of a page.
    open spec fn listed(
        before: Self,
        after: Self,
        cursor: Option<Self::Cursor>,
        limit: usize,
        page: Result<Page<Self::Key, Self::Cursor>, Self::Error>,
    ) -> bool {
        true
    }

    /// Returns up to `limit` keys, starting from `cursor` (or the beginning
    /// when `None`).
    fn list(&mut self, cursor: Option<Self::Cursor>, limit: usize) -> (page: Result<
        Page<Self::Key, Self::Cursor>,
        Self::Error,
    >)
        requires
            old(self).inv(),
        ensures
            final(self).inv(),
            final(self).label() == old(self).label(),
            final(self).history() == old(self).history(),
            page matches Ok(page) ==> page.keys@.len() <= limit,
            Self::listed(*old(self), *final(self), cursor, limit, page),
    ;
}

/// The calls of a batched lookup served one key at a time: the keys are looked
/// up in order, and the first failure ends the batch.
pub open spec fn gets_one_by_one<K, V, E>(
    keys: Seq<K>,
    calls: Seq<Call<K, V, E>>,
    values: Result<Seq<Option<V>>, E>,
) -> bool {
    &&& calls.len() <= keys.len()
    &&& match values {
        Ok(values) => {
            &&& values.len() == keys.len()
            &&& calls =~= Seq::new(
                keys.len(),
                |i: int| Call::Get { key: keys[i], found: Ok(values[i]) },
            )
        },
        Err(error) => {
            let last = calls.len() - 1;
            &&& calls.len() > 0
            &&& calls[last] == Call::<K, V, E>::Get { key: keys[last], found: Err(error) }
            &&& forall|i: int|
                0 <= i < last ==> {
                    &&& #[trigger] calls[i] is Get
                    &&& calls[i]->Get_key == keys[i]
                    &&& calls[i]->Get_found is Ok
                }
        },
    }
}

/// Batched lookup through [`TierRead::get`], stopping at the first failure;
/// keys after it are not probed.
pub fn get_each<T: TierRead>(tier: &mut T, keys: &[T::Key]) -> (values: Result<
    Vec<Option<T::Value>>,
    T::Error,
>)
    requires
        old(tier).inv(),
    ensures
        final(tier).inv(),
        final(tier).label() == old(tier).label(),
        old(tier).history().is_prefix_of(final(tier).history()),
        gets_one_by_one(
            keys@,
            final(tier).history().skip(old(tier).history().len() as int),
            seq_answer(values),
        ),
{
    let mut values: Vec<Option<T::Value>> = Vec::with_capacity(keys.len());
    let ghost before = tier.history();
    let mut i: usize = 0;
    while i < keys.len()
        invariant
            i <= keys.len(),
            tier.inv(),
            tier.label() == old(tier).label(),
            values.len() == i,
            before == old(tier).history(),
            tier.history() == before + Seq::new(
                i as nat,
                |j: int| Call::Get { key: keys@[j], found: Ok(values@[j]) },
            ),
        decreases keys.len() - i,
    {
        let ghost start = tier.history();
        let found = tier.get(&keys[i]);
        match found {
            Ok(value) => {
                values.push(value);
            },
            Err(error) => {
                assert(tier.history().skip(before.len() as int) =~= start.skip(
                    before.len() as int,
                ).push(Call::Get { key: keys@[i as int], found }));
                return Err(error);
            },
        }
        i += 1;
    }
    assert(tier.history().skip(before.len() as int) =~= Seq::new(
        keys@.len(),
        |j: int| Call::Get { key: keys@[j], found: Ok(values@[j]) },
    ));
    Ok(values)
}

/// What the successful inserts among `calls` displaced, in order.
pub open spec fn displaced_by<K, V, E>(calls: Seq<Call<K, V, E>>) -> Seq<(K, V)>
    decreases calls.len(),
{
    if calls.len() == 0 {
        Seq::empty()
    } else {
        let before = displaced_by(calls.drop_last());
        match calls.last() {
            Call::Put { displaced: Ok(entries), .. } => before + entries,
            Call::PutMany { displaced: Ok(entries), .. } => before + entries,
            _ => before,
        }
    }
}

/// The calls of a batched insert served one entry at a time.
pub open spec fn puts_one_by_one<K, V, E>(
    entries: Seq<(K, V)>,
    calls: Seq<Call<K, V, E>>,
    displaced: Result<Seq<(K, V)>, E>,
) -> bool {
    &&& calls.len() <= entries.len()
    &&& forall|i: int|
        0 <= i < calls.len() ==> {
            &&& #[trigger] calls[i] is Put
            &&& calls[i]->Put_key == entries[i].0
            &&& calls[i]->Put_value == entries[i].1
        }
    &&& match displaced {
        Ok(displaced) => {
            &&& calls.len() == entries.len()
            &&& forall|i: int| 0 <= i < calls.len() ==> !(#[trigger] calls[i]).failed()
            &&& displaced == displaced_by(calls)
        },
        Err(error) => {
            &&& calls.len() > 0
            &&& calls.last()->Put_displaced == Err::<Seq<(K, V)>, E>(error)
            &&& forall|i: int| 0 <= i < calls.len() - 1 ==> !(#[trigger] calls[i]).failed()
        },
    }
}

/// Batched insert through [`TierWrite::put`], stopping at the first failure;
/// entries written before it stay written.
pub fn put_each<T: TierWrite>(tier: &mut T, entries: Vec<(T::Key, T::Value)>) -> (result: Result<
    Displaced<T::Key, T::Value>,
    T::Error,
>)
    requires
        old(tier).inv(),
    ensures
        final(tier).inv(),
        final(tier).label() == old(tier).label(),
        old(tier).history().is_prefix_of(final(tier).history()),
        puts_one_by_one(
            entries@,
            final(tier).history().skip(old(tier).history().len() as int),
            seq_answer(result),
        ),
{
    let mut displaced: Displaced<T::Key, T::Value> = Vec::new();
    let ghost before = tier.history();
    let ghost all = entries@;
    let ghost mut calls: Seq<Call<T::Key, T::Value, T::Error>> = Seq::empty();
    assert(tier.history() =~= before + calls);
    for entry in rest: entries.into_iter()
        invariant
            tier.inv(),
            tier.label() == old(tier).label(),
            rest.seq() == all,
            before == old(tier).history(),
            tier.history() == before + calls,
            calls.len() == rest.index(),
            displaced@ == displaced_by(calls),
            forall|i: int|
                0 <= i < calls.len() ==> {
                    &&& #[trigger] calls[i] is Put
                    &&& calls[i]->Put_key == all[i].0
                    &&& calls[i]->Put_value == all[i].1
                    &&& !calls[i].failed()
                },
    {
        let (key, value) = entry;
        let ghost index = calls.len() as int;
        assert(entry == all[index]);
        match tier.put(key, value) {
            Ok(mut entries) => {
                proof {
                    let ghost call = Call::Put { key, value, displaced: Ok(entries@) };
                    assert(calls.push(call).drop_last() =~= calls);
                    calls = calls.push(call);
                    assert(tier.history() =~= before + calls);
                }
                displaced.append(&mut entries);
            },
            Err(error) => {
                proof {
                    let ghost call = Call::Put { key, value, displaced: Err(error) };
                    calls = calls.push(call);
                    assert(tier.history().skip(before.len() as int) =~= calls);
                }
                return Err(error);
            },
        }
    }
    assert(tier.history().skip(before.len() as int) =~= calls);
    Ok(displaced)
}

/// The calls of a batched removal served one key at a time.
pub open spec fn deletes_one_by_one<K, V, E>(
    keys: Seq<K>,
    calls: Seq<Call<K, V, E>>,
    removed: Result<Seq<bool>, E>,
) -> bool {
    &&& calls.len() <= keys.len()
    &&& match removed {
        Ok(removed) => {
            &&& removed.len() == keys.len()
            &&& calls =~= Seq::new(
                keys.len(),
                |i: int| Call::Delete { key: keys[i], removed: Ok(removed[i]) },
            )
        },
        Err(error) => {
            let last = calls.len() - 1;
            &&& calls.len() > 0
            &&& calls[last] == Call::<K, V, E>::Delete { key: keys[last], removed: Err(error) }
            &&& forall|i: int|
                0 <= i < last ==> {
                    &&& #[trigger] calls[i] is Delete
                    &&& calls[i]->Delete_key == keys[i]
                    &&& calls[i]->Delete_removed is Ok
                }
        },
    }
}

/// Batched removal through [`TierWrite::delete`], stopping at the first
/// failure; keys after it are not touched.
pub fn delete_each<T: TierWrite>(tier: &mut T, keys: &[T::Key]) -> (result: Result<
    Vec<bool>,
    T::Error,
>)
    requires
        old(tier).inv(),
    ensures
        final(tier).inv(),
        final(tier).label() == old(tier).label(),
        old(tier).history().is_prefix_of(final(tier).history()),
        deletes_one_by_one(
            keys@,
            final(tier).history().skip(old(tier).history().len() as int),
            seq_answer(result),
        ),
{
    let mut removed: Vec<bool> = Vec::with_capacity(keys.len());
    let ghost before = tier.history();
    let mut i: usize = 0;
    while i < keys.len()
        invariant
            i <= keys.len(),
            tier.inv(),
            tier.label() == old(tier).label(),
            removed.len() == i,
            before == old(tier).history(),
            tier.history() == before + Seq::new(
                i as nat,
                |j: int| Call::Delete { key: keys@[j], removed: Ok(removed@[j]) },
            ),
        decreases keys.len() - i,
    {
        let ghost start = tier.history();
        let present = tier.delete(&keys[i]);
        match present {
            Ok(flag) => {
                removed.push(flag);
            },
            Err(error) => {
                assert(tier.history().skip(before.len() as int) =~= start.skip(
                    before.len() as int,
                ).push(Call::Delete { key: keys@[i as int], removed: present }));
                return Err(error);
            },
        }
        i += 1;
    }
    assert(tier.history().skip(before.len() as int) =~= Seq::new(
        keys@.len(),
        |j: int| Call::Delete { key: keys@[j], removed: Ok(removed@[j]) },
    ));
    Ok(removed)
}

/// A batched lookup that is served key by key gives, in order, what each key's
/// lookup found; the first failure ends it, and is what it gives.
pub proof fn law_batched_lookups_are_lookups<K, V, E>(
    keys: Seq<K>,
    calls: Seq<Call<K, V, E>>,
    values: Result<Seq<Option<V>>, E>,
)
    requires
        gets_one_by_one(keys, calls, values),
    ensures
        calls.len() <= keys.len(),
        forall|i: int|
            0 <= i < calls.len() ==> (#[trigger] calls[i] matches Call::Get { key, .. } && key
                == keys[i]),
        match values {
            Ok(values) => {
                &&& calls.len() == keys.len() == values.len()
                &&& forall|i: int|
                    0 <= i < calls.len() ==> (#[trigger] calls[i])->Get_found == Ok::<_, E>(
                        values[i],
                    )
            },
            Err(error) => {
                &&& calls.len() > 0
                &&& calls.last()->Get_found == Err::<Option<V>, E>(error)
                &&& forall|i: int|
                    0 <= i < calls.len() - 1 ==> (#[trigger] calls[i])->Get_found is Ok
            },
        },
{
}

/// A batched insert that is served entry by entry inserts them in order, and
/// gives all that was displaced, in order; the first failure ends it, and is what
/// it gives.
pub proof fn law_batched_inserts_are_inserts<K, V, E>(
    entries: Seq<(K, V)>,
    calls: Seq<Call<K, V, E>>,
    displaced: Result<Seq<(K, V)>, E>,
)
    requires
        puts_one_by_one(entries, calls, displaced),
    ensures
        calls.len() <= entries.len(),
        forall|i: int|
            0 <= i < calls.len() ==> (#[trigger] calls[i] matches Call::Put { key, value, .. } && key
                == entries[i].0 && value == entries[i].1),
        match displaced {
            Ok(all) => {
                &&& calls.len() == entries.len()
                &&& forall|i: int|
                    0 <= i < calls.len() ==> (#[trigger] calls[i])->Put_displaced is Ok
                &&& all == calls.map_values(
                    |call: Call<K, V, E>| call->Put_displaced->Ok_0,
                ).flatten()
            },
            Err(error) => {
                &&& calls.len() > 0
                &&& calls.last()->Put_displaced == Err::<Seq<(K, V)>, E>(error)
                &&& forall|i: int|
                    0 <= i < calls.len() - 1 ==> (#[trigger] calls[i])->Put_displaced is Ok
            },
        },
{
    if displaced is Ok {
        assert forall|i: int| 0 <= i < calls.len() implies (#[trigger] calls[i])->Put_displaced
            is Ok by {
            assert(!calls[i].failed());
        }
        lemma_displaced_by(calls);
    } else {
        assert forall|i: int| 0 <= i < calls.len() - 1 implies (#[trigger] calls[i])->Put_displaced
            is Ok by {
            assert(!calls[i].failed());
        }
    }
}

proof fn lemma_displaced_by<K, V, E>(calls: Seq<Call<K, V, E>>)
    requires
        forall|i: int|
            0 <= i < calls.len() ==> (#[trigger] calls[i]) is Put && calls[i]->Put_displaced is Ok,
    ensures
        displaced_by(calls) == calls.map_values(
            |call: Call<K, V, E>| call->Put_displaced->Ok_0,
        ).flatten(),
    decreases calls.len(),
{
    let part = |call: Call<K, V, E>| call->Put_displaced->Ok_0;
    let parts = calls.map_values(part);
    if calls.len() > 0 {
        let front = calls.drop_last();
        assert forall|i: int| 0 <= i < front.len() implies (#[trigger] front[i]) is Put
            && front[i]->Put_displaced is Ok by {
            assert(front[i] == calls[i]);
        }
        lemma_displaced_by(front);
        assert(calls[calls.len() - 1] is Put);
        assert(parts.drop_last() =~= front.map_values(part));
        parts.lemma_flatten_and_flatten_alt_are_equivalent();
        parts.drop_last().lemma_flatten_and_flatten_alt_are_equivalent();
    } else {
        assert(parts.flatten() =~= Seq::empty());
    }
}

/// A batched removal that is served key by key gives, in order, whether each key
/// was present; the first failure ends it, and is what it gives.
pub proof fn law_batched_removals_are_removals<K, V, E>(
    keys: Seq<K>,
    calls: Seq<Call<K, V, E>>,
    removed: Result<Seq<bool>, E>,
)
    requires
        deletes_one_by_one(keys, calls, removed),
    ensures
        calls.len() <= keys.len(),
        forall|i: int|
            0 <= i < calls.len() ==> (#[trigger] calls[i] matches Call::Delete { key, .. } && key
                == keys[i]),
        match removed {
            Ok(flags) => {
                &&& calls.len() == keys.len() == flags.len()
                &&& forall|i: int|
                    0 <= i < calls.len() ==> (#[trigger] calls[i])->Delete_removed == Ok::<_, E>(
                        flags[i],
                    )
            },
            Err(error) => {
                &&& calls.len() > 0
                &&& calls.last()->Delete_removed == Err::<bool, E>(error)
                &&& forall|i: int|
                    0 <= i < calls.len() - 1 ==> (#[trigger] calls[i])->Delete_removed is Ok
            },
        },
{
}

} // verus!
