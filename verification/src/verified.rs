//! Trust-boundary verification middleware.
//!
//! Values crossing from an untrusted origin are verified **once at the
//! boundary**, and a corrupt value is a typed error, never a wrong answer
//! later. Wrap the untrusted tier (usually the remote/cold one) in
//! [`VerifiedTier`]; a rejected value surfaces as that tier *failing*, so the
//! router's fall-through and inconclusive-miss machinery applies unchanged.
//! Since a failed verification is never a hit, corrupt data is never returned
//! *and never promoted* into upper tiers.
//!
//! Writes and existence checks pass through unverified: verification guards
//! the direction in which trust is lost (reads from the origin), not data this
//! process produced.

use vstd::prelude::*;
use vstd::string::StringExecFns;

use crate::text::wrap;
use crate::tier;
use crate::tier::{Call, Displaced, Page, Tier, TierList, TierRead, TierWrite};

verus! {

/// Middleware tier that verifies every value served by its inner tier.
///
/// The check runs on each `get`/`get_many` hit before the value is released to
/// the caller. Keep it cheap (checksum, length, magic bytes): it is on the
/// read path.
pub struct VerifiedTier<T: Tier, C, R> {
    inner: T,
    name: String,
    check: C,
    log: Ghost<Seq<Call<T::Key, T::Value, VerifyError<T::Error, R>>>>,
}

/// Error from a [`VerifiedTier`]: the backend failed, or it answered with a
/// value that failed verification.
#[derive(Debug)]
pub enum VerifyError<E, R> {
    /// The inner tier itself failed.
    Backend(E),
    /// The inner tier answered, but the value was rejected by the check.
    Corrupt(R),
}

impl<E, R> VerifyError<E, R> {
    /// What the error adds to the words of the error that it holds.
    pub open spec fn prefix(&self) -> Seq<char> {
        match self {
            VerifyError::Backend(_) => "backend error: "@,
            VerifyError::Corrupt(_) => "verification rejected value: "@,
        }
    }

    /// The error in words, given those of the error that it holds.
    #[must_use]
    pub fn message(&self, detail: &str) -> (message: String)
        ensures
            message@ == self.prefix() + detail@,
    {
        let mut message = match self {
            VerifyError::Backend(_) => "backend error: ".to_owned(),
            VerifyError::Corrupt(_) => "verification rejected value: ".to_owned(),
        };
        message.append(detail);
        message
    }
}

/// The answer of the inner tier, passed on unverified.
pub open spec fn passed<A, E, R>(answer: Result<A, E>) -> Result<A, VerifyError<E, R>> {
    match answer {
        Ok(value) => Ok(value),
        Err(error) => Err(VerifyError::Backend(error)),
    }
}

/// Whether `check` can accept `value` for `key`.
pub open spec fn accepts<K, V, R, C: Fn(&K, &V) -> Result<(), R>>(
    check: C,
    key: K,
    value: V,
) -> bool {
    exists|verdict: Result<(), R>|
        #[trigger] call_ensures(check, (&key, &value), verdict) && verdict is Ok
}

/// What is released of a lookup that the inner tier answered with `answer`.
pub open spec fn judged<K, V, E, R, C: Fn(&K, &V) -> Result<(), R>>(
    check: C,
    key: K,
    answer: Result<Option<V>, E>,
    released: Result<Option<V>, VerifyError<E, R>>,
) -> bool {
    match answer {
        Ok(Some(value)) => match released {
            Ok(served) => served == Some(value) && accepts(check, key, value),
            Err(VerifyError::Corrupt(reason)) => call_ensures(
                check,
                (&key, &value),
                Err::<(), R>(reason),
            ),
            Err(VerifyError::Backend(_)) => false,
        },
        _ => released == passed::<Option<V>, E, R>(answer),
    }
}

/// Whether the hits among the first `count` answers passed the check.
pub open spec fn clean<K, V, R, C: Fn(&K, &V) -> Result<(), R>>(
    check: C,
    keys: Seq<K>,
    values: Seq<Option<V>>,
    count: int,
) -> bool {
    forall|i: int|
        0 <= i < count && i < keys.len() && i < values.len() ==> match #[trigger] values[i] {
            Some(value) => accepts(check, keys[i], value),
            None => true,
        }
}

/// What is released of a batched lookup: all of it, or nothing if one hit is
/// rejected.
pub open spec fn judged_batch<K, V, E, R, C: Fn(&K, &V) -> Result<(), R>>(
    check: C,
    keys: Seq<K>,
    answer: Result<Seq<Option<V>>, E>,
    released: Result<Seq<Option<V>>, VerifyError<E, R>>,
) -> bool {
    match answer {
        Ok(values) => match released {
            Ok(served) => served == values && clean(check, keys, values, values.len() as int),
            Err(VerifyError::Corrupt(reason)) => exists|i: int|
                {
                    &&& 0 <= i < keys.len()
                    &&& i < values.len()
                    &&& clean(check, keys, values, i)
                    &&& #[trigger] values[i] matches Some(value)
                    &&& call_ensures(check, (&keys[i], &value), Err::<(), R>(reason))
                },
            Err(VerifyError::Backend(_)) => false,
        },
        Err(error) => released == Err::<Seq<Option<V>>, VerifyError<E, R>>(
            VerifyError::Backend(error),
        ),
    }
}

impl<T: Tier, C, R> VerifiedTier<T, C, R> {
    /// The wrapped tier.
    pub closed spec fn wrapped(&self) -> T {
        self.inner
    }

    /// The check that values must pass.
    pub closed spec fn check(&self) -> C {
        self.check
    }
}

impl<T, C, R> VerifiedTier<T, C, R> where T: Tier, C: Fn(&T::Key, &T::Value) -> Result<(), R> {
    /// Wraps `inner` so every value it serves must pass `check`.
    pub fn new(inner: T, check: C) -> (verified: Self)
        requires
            inner.inv(),
            forall|key: &T::Key, value: &T::Value| #[trigger] call_requires(check, (key, value)),
        ensures
            verified.inv(),
            verified.wrapped() == inner,
            verified.check() == check,
            verified.label() == "verified("@ + inner.label() + ")"@,
            verified.history() == Seq::<
                Call<T::Key, T::Value, VerifyError<T::Error, R>>,
            >::empty(),
    {
        let name = wrap("verified(", inner.name(), ")");
        VerifiedTier { inner, name, check, log: Ghost(Seq::empty()) }
    }
}

impl<T, C, R> Tier for VerifiedTier<T, C, R> where
    T: Tier,
    C: Fn(&T::Key, &T::Value) -> Result<(), R>,
 {
    type Key = T::Key;

    type Value = T::Value;

    type Error = VerifyError<T::Error, R>;

    closed spec fn inv(&self) -> bool {
        &&& self.inner.inv()
        &&& forall|key: &T::Key, value: &T::Value| #[trigger]
            call_requires(self.check, (key, value))
    }

    closed spec fn history(&self) -> Seq<Call<T::Key, T::Value, VerifyError<T::Error, R>>> {
        self.log@
    }

    closed spec fn label(&self) -> Seq<char> {
        self.name@
    }

    /// The inner tier served the same call, and only verified values were
    /// released of its answer.
    open spec fn promised(
        before: Self,
        after: Self,
        call: Call<T::Key, T::Value, VerifyError<T::Error, R>>,
    ) -> bool {
        let inner = after.wrapped().history().last();
        &&& after.check() == before.check()
        &&& after.wrapped().label() == before.wrapped().label()
        &&& after.wrapped().history() == before.wrapped().history().push(inner)
        &&& T::promised(before.wrapped(), after.wrapped(), inner)
        &&& match (call, inner) {
            (Call::Get { key, found }, Call::Get { key: k, found: answer }) => k == key && judged(
                before.check(),
                key,
                answer,
                found,
            ),
            (Call::Exists { key, present }, Call::Exists { key: k, present: answer }) => k == key
                && present == passed::<_, _, R>(answer),
            (Call::GetMany { keys, values }, Call::GetMany { keys: k, values: answer }) => k == keys
                && judged_batch(before.check(), keys, answer, values),
            (
                Call::Put { key, value, displaced },
                Call::Put { key: k, value: v, displaced: answer },
            ) => k == key && v == value && displaced == passed::<_, _, R>(answer),
            (
                Call::PutMany { entries, displaced },
                Call::PutMany { entries: e, displaced: answer },
            ) => e == entries && displaced == passed::<_, _, R>(answer),
            (Call::Delete { key, removed }, Call::Delete { key: k, removed: answer }) => k == key
                && removed == passed::<_, _, R>(answer),
            (
                Call::DeleteMany { keys, flags },
                Call::DeleteMany { keys: k, flags: answer },
            ) => k == keys && flags == passed::<_, _, R>(answer),
            _ => false,
        }
    }

    fn name(&self) -> (name: &str) {
        self.name.as_str()
    }
}

impl<T, C, R> TierRead for VerifiedTier<T, C, R> where
    T: TierRead,
    C: Fn(&T::Key, &T::Value) -> Result<(), R>,
 {
    fn get(&mut self, key: &T::Key) -> (found: Result<
        Option<T::Value>,
        VerifyError<T::Error, R>,
    >) {
        let found = match self.inner.get(key) {
            Ok(Some(value)) => {
                let verdict = (self.check)(key, &value);
                match verdict {
                    Ok(()) => Ok(Some(value)),
                    Err(reason) => Err(VerifyError::Corrupt(reason)),
                }
            },
            Ok(None) => Ok(None),
            Err(error) => Err(VerifyError::Backend(error)),
        };
        self.log = Ghost(self.log@.push(Call::Get { key: *key, found }));
        found
    }

    fn contains(&mut self, key: &T::Key) -> (present: Result<bool, VerifyError<T::Error, R>>) {
        let present = match self.inner.contains(key) {
            Ok(present) => Ok(present),
            Err(error) => Err(VerifyError::Backend(error)),
        };
        self.log = Ghost(self.log@.push(Call::Exists { key: *key, present }));
        present
    }

    /// Verifies every hit in the batch; one rejected value fails the batch at
    /// this tier (tier-level granularity, matching the trait contract).
    fn get_many(&mut self, keys: &[T::Key]) -> (values: Result<
        Vec<Option<T::Value>>,
        VerifyError<T::Error, R>,
    >) {
        let values = match self.inner.get_many(keys) {
            Ok(values) => match self.reject(keys, &values) {
                Some(reason) => Err(VerifyError::Corrupt(reason)),
                None => Ok(values),
            },
            Err(error) => Err(VerifyError::Backend(error)),
        };
        self.log = Ghost(
            self.log@.push(Call::GetMany { keys: keys@, values: tier::seq_answer(values) }),
        );
        values
    }
}

impl<T, C, R> VerifiedTier<T, C, R> where T: Tier, C: Fn(&T::Key, &T::Value) -> Result<(), R> {
    /// Why the first rejected hit of a batch was rejected.
    fn reject(&self, keys: &[T::Key], values: &Vec<Option<T::Value>>) -> (reason: Option<R>)
        requires
            self.inv(),
        ensures
            match reason {
                None => clean(self.check(), keys@, values@, values@.len() as int),
                Some(reason) => exists|i: int|
                    {
                        &&& 0 <= i < keys@.len()
                        &&& i < values@.len()
                        &&& clean(self.check(), keys@, values@, i)
                        &&& #[trigger] values@[i] matches Some(value)
                        &&& call_ensures(self.check(), (&keys@[i], &value), Err::<(), R>(reason))
                    },
            },
    {
        let mut i: usize = 0;
        while i < keys.len() && i < values.len()
            invariant
                self.inv(),
                i <= keys@.len(),
                i <= values@.len(),
                clean(self.check(), keys@, values@, i as int),
            decreases keys@.len() - i,
        {
            if let Some(value) = &values[i] {
                let verdict = (self.check)(&keys[i], value);
                if let Err(reason) = verdict {
                    assert(values@[i as int] is Some);
                    return Some(reason);
                }
            }
            i += 1;
        }
        None
    }
}

impl<T, C, R> TierWrite for VerifiedTier<T, C, R> where
    T: TierWrite,
    C: Fn(&T::Key, &T::Value) -> Result<(), R>,
 {
    fn put(&mut self, key: T::Key, value: T::Value) -> (displaced: Result<
        Displaced<T::Key, T::Value>,
        VerifyError<T::Error, R>,
    >) {
        let ghost asked = (key, value);
        let displaced = match self.inner.put(key, value) {
            Ok(displaced) => Ok(displaced),
            Err(error) => Err(VerifyError::Backend(error)),
        };
        self.log = Ghost(
            self.log@.push(
                Call::Put { key: asked.0, value: asked.1, displaced: tier::seq_answer(displaced) },
            ),
        );
        displaced
    }

    fn delete(&mut self, key: &T::Key) -> (removed: Result<bool, VerifyError<T::Error, R>>) {
        let removed = match self.inner.delete(key) {
            Ok(removed) => Ok(removed),
            Err(error) => Err(VerifyError::Backend(error)),
        };
        self.log = Ghost(self.log@.push(Call::Delete { key: *key, removed }));
        removed
    }

    fn put_many(&mut self, entries: Vec<(T::Key, T::Value)>) -> (displaced: Result<
        Displaced<T::Key, T::Value>,
        VerifyError<T::Error, R>,
    >) {
        let ghost asked = entries@;
        let displaced = match self.inner.put_many(entries) {
            Ok(displaced) => Ok(displaced),
            Err(error) => Err(VerifyError::Backend(error)),
        };
        self.log = Ghost(
            self.log@.push(
                Call::PutMany { entries: asked, displaced: tier::seq_answer(displaced) },
            ),
        );
        displaced
    }

    fn delete_many(&mut self, keys: &[T::Key]) -> (removed: Result<
        Vec<bool>,
        VerifyError<T::Error, R>,
    >) {
        let removed = match self.inner.delete_many(keys) {
            Ok(removed) => Ok(removed),
            Err(error) => Err(VerifyError::Backend(error)),
        };
        self.log = Ghost(
            self.log@.push(Call::DeleteMany { keys: keys@, flags: tier::seq_answer(removed) }),
        );
        removed
    }
}

impl<T, C, R> TierList for VerifiedTier<T, C, R> where
    T: TierList,
    C: Fn(&T::Key, &T::Value) -> Result<(), R>,
 {
    type Cursor = T::Cursor;

    /// The page is the inner tier's.
    open spec fn listed(
        before: Self,
        after: Self,
        cursor: Option<T::Cursor>,
        limit: usize,
        page: Result<Page<T::Key, T::Cursor>, VerifyError<T::Error, R>>,
    ) -> bool {
        &&& after.check() == before.check()
        &&& exists|answer: Result<Page<T::Key, T::Cursor>, T::Error>|
            {
                &&& #[trigger] T::listed(
                    before.wrapped(),
                    after.wrapped(),
                    cursor,
                    limit,
                    answer,
                )
                &&& page == passed::<_, _, R>(answer)
            }
    }

    fn list(&mut self, cursor: Option<T::Cursor>, limit: usize) -> (page: Result<
        Page<T::Key, T::Cursor>,
        VerifyError<T::Error, R>,
    >) {
        let answer = self.inner.list(cursor, limit);
        assert(T::listed(old(self).wrapped(), self.wrapped(), cursor, limit, answer));
        match answer {
            Ok(page) => Ok(page),
            Err(error) => Err(VerifyError::Backend(error)),
        }
    }
}

/// Corrupt data is never released: whatever a [`VerifiedTier`] returns from a
/// lookup, the check has accepted for the key that was asked for.
pub proof fn law_released_values_passed_the_check<T, C, R>(
    before: VerifiedTier<T, C, R>,
    after: VerifiedTier<T, C, R>,
    key: T::Key,
    value: T::Value,
) where T: Tier, C: Fn(&T::Key, &T::Value) -> Result<(), R>
    requires
        VerifiedTier::promised(before, after, Call::Get { key, found: Ok(Some(value)) }),
    ensures
        accepts(before.check(), key, value),
{
}

/// The same for batches.
pub proof fn law_released_batches_passed_the_check<T, C, R>(
    before: VerifiedTier<T, C, R>,
    after: VerifiedTier<T, C, R>,
    keys: Seq<T::Key>,
    values: Seq<Option<T::Value>>,
    i: int,
) where T: Tier, C: Fn(&T::Key, &T::Value) -> Result<(), R>
    requires
        VerifiedTier::promised(before, after, Call::GetMany { keys, values: Ok(values) }),
        0 <= i < keys.len(),
        i < values.len(),
        values[i] is Some,
    ensures
        accepts(before.check(), keys[i], values[i]->0),
{
    assert(clean(before.check(), keys, values, values.len() as int));
}

/// A verified tier withholds what the check rejects, and nothing else. Each call
/// is handed to the inner tier once, as it is, and its errors are told as they
/// are. What a lookup finds is released if the check accepts it for its key, and
/// otherwise the check's reason is told; a batch is released as a whole if every
/// value in it is accepted. All other answers are passed on.
pub proof fn law_verified_tiers_withhold_only_what_is_rejected<T, C, R>(
    before: VerifiedTier<T, C, R>,
    after: VerifiedTier<T, C, R>,
    call: Call<T::Key, T::Value, VerifyError<T::Error, R>>,
) where T: Tier, C: Fn(&T::Key, &T::Value) -> Result<(), R>
    requires
        VerifiedTier::promised(before, after, call),
    ensures
        ({
            let inner = after.wrapped().history().last();
            let check = before.check();
            &&& after.wrapped().history() == before.wrapped().history().push(inner)
            &&& match call {
                Call::Get { key, found } => {
                    &&& inner matches Call::Get { key: k, found: answer }
                    &&& k == key
                    &&& match (answer, found) {
                        (Ok(Some(value)), Ok(Some(told))) => told == value && exists|
                            verdict: Result<(), R>,
                        |
                            #[trigger] call_ensures(check, (&key, &value), verdict) && verdict is Ok,
                        (Ok(Some(value)), Err(VerifyError::Corrupt(reason))) => call_ensures(
                            check,
                            (&key, &value),
                            Err::<(), R>(reason),
                        ),
                        (Ok(None), Ok(None)) => true,
                        (Err(error), Err(VerifyError::Backend(told))) => told == error,
                        _ => false,
                    }
                },
                Call::Exists { key, present } => {
                    &&& inner matches Call::Exists { key: k, present: answer }
                    &&& k == key
                    &&& match (answer, present) {
                        (Ok(yes), Ok(told)) => told == yes,
                        (Err(error), Err(VerifyError::Backend(told))) => told == error,
                        _ => false,
                    }
                },
                Call::GetMany { keys, values } => {
                    &&& inner matches Call::GetMany { keys: k, values: answer }
                    &&& k == keys
                    &&& match (answer, values) {
                        (Ok(found), Ok(told)) => told == found && forall|i: int|
                            0 <= i < keys.len() && i < found.len() ==> (
                            #[trigger] found[i] matches Some(value) ==> exists|verdict: Result<(), R>|
                                #[trigger] call_ensures(check, (&keys[i], &value), verdict)
                                    && verdict is Ok),
                        (Ok(found), Err(VerifyError::Corrupt(reason))) => exists|i: int|
                            0 <= i < keys.len() && i < found.len() && (
                            #[trigger] found[i] matches Some(value) && call_ensures(
                                check,
                                (&keys[i], &value),
                                Err::<(), R>(reason),
                            )),
                        (Err(error), Err(VerifyError::Backend(told))) => told == error,
                        _ => false,
                    }
                },
                Call::Put { key, value, displaced } => {
                    &&& inner matches Call::Put { key: k, value: v, displaced: answer }
                    &&& k == key && v == value
                    &&& match (answer, displaced) {
                        (Ok(entries), Ok(told)) => told == entries,
                        (Err(error), Err(VerifyError::Backend(told))) => told == error,
                        _ => false,
                    }
                },
                Call::PutMany { entries, displaced } => {
                    &&& inner matches Call::PutMany { entries: e, displaced: answer }
                    &&& e == entries
                    &&& match (answer, displaced) {
                        (Ok(entries), Ok(told)) => told == entries,
                        (Err(error), Err(VerifyError::Backend(told))) => told == error,
                        _ => false,
                    }
                },
                Call::Delete { key, removed } => {
                    &&& inner matches Call::Delete { key: k, removed: answer }
                    &&& k == key
                    &&& match (answer, removed) {
                        (Ok(yes), Ok(told)) => told == yes,
                        (Err(error), Err(VerifyError::Backend(told))) => told == error,
                        _ => false,
                    }
                },
                Call::DeleteMany { keys, flags } => {
                    &&& inner matches Call::DeleteMany { keys: k, flags: answer }
                    &&& k == keys
                    &&& match (answer, flags) {
                        (Ok(yes), Ok(told)) => told == yes,
                        (Err(error), Err(VerifyError::Backend(told))) => told == error,
                        _ => false,
                    }
                },
            }
        }),
{
    let inner = after.wrapped().history().last();
    let check = before.check();
    match (call, inner) {
        (Call::GetMany { keys, values }, Call::GetMany { values: answer, .. }) => {
            if let (Ok(found), Ok(_)) = (answer, values) {
                assert(clean(check, keys, found, found.len() as int));
            }
        },
        _ => {},
    }
}

/// Listing goes to the inner tier as it is: a page is the inner tier's page, and
/// an error its error.
pub proof fn law_verified_tiers_pass_pages_on<T, C, R>(
    before: VerifiedTier<T, C, R>,
    after: VerifiedTier<T, C, R>,
    cursor: Option<T::Cursor>,
    limit: usize,
    page: Result<Page<T::Key, T::Cursor>, VerifyError<T::Error, R>>,
) where T: TierList, C: Fn(&T::Key, &T::Value) -> Result<(), R>
    requires
        VerifiedTier::listed(before, after, cursor, limit, page),
    ensures
        match page {
            Ok(shown) => T::listed(before.wrapped(), after.wrapped(), cursor, limit, Ok(shown)),
            Err(VerifyError::Backend(error)) => T::listed(
                before.wrapped(),
                after.wrapped(),
                cursor,
                limit,
                Err(error),
            ),
            Err(VerifyError::Corrupt(_)) => false,
        },
{
}

} // verus!
