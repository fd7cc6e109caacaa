//! Typed-values-over-byte-store codec middleware.
//!
//! Byte-oriented tiers (disk, mmap, object stores) speak bytes; applications
//! speak typed keys and values. [`CodecTier`] bridges the two: a one-way key
//! mapping into the byte tier's key space (hashes are fine, it is never
//! reversed), and a value codec that **embeds the original key in the
//! encoding**. That embedded key is what lets rollover work through the
//! boundary: entries the byte tier displaces are decoded back into fully typed
//! `(key, value)` pairs, so a router can demote them onward.
//!
//! Codec failures are typed errors ([`CodecError::Codec`]), which the router
//! treats as tier failures: a corrupt or oversized entry falls through / skips
//! per policy instead of corrupting the data path.
//!
//! `TierList` is deliberately not forwarded: listing would yield inner
//! (hashed) keys that cannot be reversed.

use vstd::prelude::*;
use vstd::string::StringExecFns;

use crate::text::wrap;
use crate::tier;
use crate::tier::{Call, Displaced, Tier, TierRead, TierWrite};

verus! {

/// Middleware tier presenting typed keys/values over a byte-oriented inner
/// tier.
///
/// The key-embedding contract: `encode` receives the original key and must
/// embed it in the encoded bytes; `decode` returns it. That is what lets
/// entries displaced by the byte tier climb back out fully typed for demotion.
pub struct CodecTier<T: Tier, K, V, X, M, N, D> {
    inner: T,
    name: String,
    to_key: M,
    encode: N,
    decode: D,
    log: Ghost<Seq<Call<K, V, CodecError<T::Error, X>>>>,
}

/// Error from a [`CodecTier`]: the backend failed, or a value failed to
/// encode/decode.
#[derive(Debug)]
pub enum CodecError<E, X> {
    /// The inner tier itself failed.
    Backend(E),
    /// Encoding or decoding a value failed (corrupt entry, oversize rejection,
    /// schema drift).
    Codec(X),
}

impl<E, X> CodecError<E, X> {
    /// What the error adds to the words of the error that it holds.
    pub open spec fn prefix(&self) -> Seq<char> {
        match self {
            CodecError::Backend(_) => "backend error: "@,
            CodecError::Codec(_) => "codec error: "@,
        }
    }

    /// The error in words, given those of the error that it holds.
    #[must_use]
    pub fn message(&self, detail: &str) -> (message: String)
        ensures
            message@ == self.prefix() + detail@,
    {
        let mut message = match self {
            CodecError::Backend(_) => "backend error: ".to_owned(),
            CodecError::Codec(_) => "codec error: ".to_owned(),
        };
        message.append(detail);
        message
    }
}

/// The answer of the inner tier, where there is nothing to decode.
pub open spec fn passed<A, E, X>(answer: Result<A, E>) -> Result<A, CodecError<E, X>> {
    match answer {
        Ok(value) => Ok(value),
        Err(error) => Err(CodecError::Backend(error)),
    }
}

/// Whether `inner` is what `to_key` makes of `key`.
pub open spec fn mapped<K, IK, M: Fn(&K) -> IK>(to_key: M, key: K, inner: IK) -> bool {
    call_ensures(to_key, (&key,), inner)
}

/// Whether `inner` is what `to_key` makes of `keys`, in order.
pub open spec fn mapped_all<K, IK, M: Fn(&K) -> IK>(
    to_key: M,
    keys: Seq<K>,
    inner: Seq<IK>,
) -> bool {
    &&& inner.len() == keys.len()
    &&& forall|i: int| 0 <= i < keys.len() ==> mapped(to_key, keys[i], #[trigger] inner[i])
}

/// Whether `entries` are encoded, in order, as `encoded`.
pub open spec fn encoded_as<K, V, IK, IV, X, M, N>(
    to_key: M,
    encode: N,
    entries: Seq<(K, V)>,
    encoded: Seq<(IK, IV)>,
) -> bool where M: Fn(&K) -> IK, N: Fn(&K, &V) -> Result<IV, X> {
    &&& encoded.len() == entries.len()
    &&& forall|i: int|
        0 <= i < entries.len() ==> {
            &&& mapped(to_key, entries[i].0, (#[trigger] encoded[i]).0)
            &&& call_ensures(
                encode,
                (&entries[i].0, &entries[i].1),
                Ok::<IV, X>(encoded[i].1),
            )
        }
}

/// Whether one of `entries` does not encode for the given `reason`, after those
/// before it did.
pub open spec fn refused<K, V, IK, IV, X, M, N>(
    to_key: M,
    encode: N,
    entries: Seq<(K, V)>,
    reason: X,
) -> bool where M: Fn(&K) -> IK, N: Fn(&K, &V) -> Result<IV, X> {
    exists|i: int, done: Seq<(IK, IV)>|
        {
            &&& 0 <= i < entries.len()
            &&& #[trigger] encoded_as(to_key, encode, entries.take(i), done)
            &&& call_ensures(encode, (&entries[i].0, &entries[i].1), Err::<IV, X>(reason))
        }
}

/// What is released of a lookup that the inner tier answered with `answer`.
pub open spec fn decoded<K, V, IV, E, X, D: Fn(IV) -> Result<(K, V), X>>(
    decode: D,
    answer: Result<Option<IV>, E>,
    released: Result<Option<V>, CodecError<E, X>>,
) -> bool {
    match answer {
        Ok(Some(encoded)) => exists|verdict: Result<(K, V), X>|
            {
                &&& #[trigger] call_ensures(decode, (encoded,), verdict)
                &&& released == match verdict {
                    Ok((_, value)) => Ok(Some(value)),
                    Err(reason) => Err(CodecError::<E, X>::Codec(reason)),
                }
            },
        Ok(None) => released == Ok::<Option<V>, CodecError<E, X>>(None),
        Err(error) => released == Err::<Option<V>, CodecError<E, X>>(CodecError::Backend(error)),
    }
}

/// Whether `values` is what the first `count` of `found` decode to.
pub open spec fn decoded_all<K, V, IV, X, D: Fn(IV) -> Result<(K, V), X>>(
    decode: D,
    found: Seq<Option<IV>>,
    values: Seq<Option<V>>,
    count: int,
) -> bool {
    &&& values.len() == count
    &&& forall|i: int|
        0 <= i < count ==> decoded::<K, V, IV, (), X, D>(
            decode,
            Ok(found[i]),
            Ok(#[trigger] values[i]),
        )
}

/// What is released of a batched lookup: all of it, or nothing if one hit does
/// not decode.
pub open spec fn decoded_batch<K, V, IV, E, X, D: Fn(IV) -> Result<(K, V), X>>(
    decode: D,
    answer: Result<Seq<Option<IV>>, E>,
    released: Result<Seq<Option<V>>, CodecError<E, X>>,
) -> bool {
    match answer {
        Ok(found) => match released {
            Ok(values) => decoded_all(decode, found, values, found.len() as int),
            Err(CodecError::Codec(reason)) => exists|i: int, values: Seq<Option<V>>|
                {
                    &&& 0 <= i < found.len()
                    &&& #[trigger] decoded_all(decode, found, values, i)
                    &&& found[i] matches Some(encoded)
                    &&& call_ensures(decode, (encoded,), Err::<(K, V), X>(reason))
                },
            Err(CodecError::Backend(_)) => false,
        },
        Err(error) => released == Err::<Seq<Option<V>>, CodecError<E, X>>(
            CodecError::Backend(error),
        ),
    }
}

/// The entries that decoded, in order.
pub open spec fn salvaged<K, V, X>(verdicts: Seq<Result<(K, V), X>>) -> Seq<(K, V)>
    decreases verdicts.len(),
{
    if verdicts.len() == 0 {
        Seq::empty()
    } else {
        match verdicts.last() {
            Ok(entry) => salvaged(verdicts.drop_last()).push(entry),
            Err(_) => salvaged(verdicts.drop_last()),
        }
    }
}

/// Whether `verdicts` are what `displaced` decode to, in order.
pub open spec fn verdicts_on<K, V, IK, IV, X, D: Fn(IV) -> Result<(K, V), X>>(
    decode: D,
    displaced: Seq<(IK, IV)>,
    verdicts: Seq<Result<(K, V), X>>,
) -> bool {
    &&& verdicts.len() == displaced.len()
    &&& forall|i: int|
        0 <= i < verdicts.len() ==> call_ensures(
            decode,
            (displaced[i].1,),
            #[trigger] verdicts[i],
        )
}

/// What is told of the entries that an insert displaced. One that does not
/// decode is dropped: it was being evicted anyway.
pub open spec fn climbed<K, V, IK, IV, E, X, D: Fn(IV) -> Result<(K, V), X>>(
    decode: D,
    answer: Result<Seq<(IK, IV)>, E>,
    displaced: Result<Seq<(K, V)>, CodecError<E, X>>,
) -> bool {
    match answer {
        Ok(inner) => exists|verdicts: Seq<Result<(K, V), X>>|
            {
                &&& #[trigger] verdicts_on(decode, inner, verdicts)
                &&& displaced == Ok::<_, CodecError<E, X>>(salvaged(verdicts))
            },
        Err(error) => displaced == Err::<Seq<(K, V)>, CodecError<E, X>>(
            CodecError::Backend(error),
        ),
    }
}

impl<T: Tier, K, V, X, M, N, D> CodecTier<T, K, V, X, M, N, D> {
    /// The wrapped tier.
    pub closed spec fn wrapped(&self) -> T {
        self.inner
    }

    /// The key mapping.
    pub closed spec fn to_key(&self) -> M {
        self.to_key
    }

    /// The encoder.
    pub closed spec fn encoder(&self) -> N {
        self.encode
    }

    /// The decoder.
    pub closed spec fn decoder(&self) -> D {
        self.decode
    }
}

impl<T, K, V, X, M, N, D> CodecTier<T, K, V, X, M, N, D> where
    T: Tier,
    M: Fn(&K) -> T::Key,
    N: Fn(&K, &V) -> Result<T::Value, X>,
    D: Fn(T::Value) -> Result<(K, V), X>,
 {
    /// Wraps `inner` with a key mapping and a value codec.
    ///
    /// `decode` must return the *original* key that `encode` embedded, so
    /// displaced entries can climb back out of the byte tier typed.
    pub fn new(inner: T, to_key: M, encode: N, decode: D) -> (codec: Self)
        requires
            inner.inv(),
            forall|key: &K| #[trigger] call_requires(to_key, (key,)),
            forall|key: &K, value: &V| #[trigger] call_requires(encode, (key, value)),
            forall|encoded: T::Value| #[trigger] call_requires(decode, (encoded,)),
        ensures
            codec.inv(),
            codec.wrapped() == inner,
            codec.to_key() == to_key,
            codec.encoder() == encode,
            codec.decoder() == decode,
            codec.label() == "codec("@ + inner.label() + ")"@,
            codec.history() == Seq::<Call<K, V, CodecError<T::Error, X>>>::empty(),
    {
        let name = wrap("codec(", inner.name(), ")");
        CodecTier { inner, name, to_key, encode, decode, log: Ghost(Seq::empty()) }
    }

    fn map_keys(&self, keys: &[K]) -> (inner: Vec<T::Key>)
        requires
            self.inv(),
        ensures
            mapped_all(self.to_key(), keys@, inner@),
    {
        let mut inner: Vec<T::Key> = Vec::with_capacity(keys.len());
        let mut i: usize = 0;
        while i < keys.len()
            invariant
                self.inv(),
                i <= keys@.len(),
                inner@.len() == i,
                forall|j: int| 0 <= j < i ==> mapped(self.to_key(), keys@[j], #[trigger] inner@[j]),
            decreases keys@.len() - i,
        {
            inner.push((self.to_key)(&keys[i]));
            i += 1;
        }
        inner
    }

    fn salvage(&self, displaced: Vec<(T::Key, T::Value)>) -> (entries: Displaced<K, V>)
        requires
            self.inv(),
        ensures
            exists|verdicts: Seq<Result<(K, V), X>>| #[trigger]
                verdicts_on(self.decoder(), displaced@, verdicts) && entries@ == salvaged(verdicts),
    {
        let ghost all = displaced@;
        let ghost mut verdicts: Seq<Result<(K, V), X>> = Seq::empty();
        let mut entries: Displaced<K, V> = Vec::new();
        for entry in source: displaced.into_iter()
            invariant
                self.inv(),
                source.seq() == all,
                verdicts.len() == source.index(),
                entries@ == salvaged(verdicts),
                forall|i: int|
                    0 <= i < verdicts.len() ==> call_ensures(
                        self.decoder(),
                        (all[i].1,),
                        #[trigger] verdicts[i],
                    ),
        {
            let (_inner_key, encoded) = entry;
            let verdict = (self.decode)(encoded);
            proof {
                assert(verdicts.push(verdict).drop_last() =~= verdicts);
                verdicts = verdicts.push(verdict);
            }
            if let Ok(entry) = verdict {
                entries.push(entry);
            }
        }
        assert(verdicts_on(self.decoder(), all, verdicts));
        entries
    }

    /// Turns what the inner tier answered to an insert into typed entries.
    fn tell(&self, answer: Result<Vec<(T::Key, T::Value)>, T::Error>) -> (displaced: Result<
        Displaced<K, V>,
        CodecError<T::Error, X>,
    >)
        requires
            self.inv(),
        ensures
            climbed(self.decoder(), tier::seq_answer(answer), tier::seq_answer(displaced)),
    {
        let ghost given = tier::seq_answer(answer);
        match answer {
            Ok(displaced) => {
                let ghost inner = displaced@;
                let entries = self.salvage(displaced);
                let told = Ok(entries);
                proof {
                    let verdicts = choose|verdicts: Seq<Result<(K, V), X>>| #[trigger]
                        verdicts_on(self.decoder(), inner, verdicts) && entries@ == salvaged(
                            verdicts,
                        );
                    assert(tier::seq_answer(told) == Ok::<_, CodecError<T::Error, X>>(
                        salvaged(verdicts),
                    ));
                    assert(verdicts_on(self.decoder(), given->Ok_0, verdicts));
                }
                told
            },
            Err(error) => Err(CodecError::Backend(error)),
        }
    }

    fn encode_all(&self, entries: &Vec<(K, V)>) -> (encoded: Result<Vec<(T::Key, T::Value)>, X>)
        requires
            self.inv(),
        ensures
            match encoded {
                Ok(encoded) => encoded_as(self.to_key(), self.encoder(), entries@, encoded@),
                Err(reason) => refused(self.to_key(), self.encoder(), entries@, reason),
            },
    {
        let mut encoded: Vec<(T::Key, T::Value)> = Vec::with_capacity(entries.len());
        let mut i: usize = 0;
        while i < entries.len()
            invariant
                self.inv(),
                i <= entries@.len(),
                encoded_as(self.to_key(), self.encoder(), entries@.take(i as int), encoded@),
            decreases entries@.len() - i,
        {
            let entry = &entries[i];
            match (self.encode)(&entry.0, &entry.1) {
                Ok(value) => {
                    let ghost before = encoded@;
                    encoded.push(((self.to_key)(&entry.0), value));
                    assert forall|j: int| 0 <= j < i + 1 implies {
                        &&& mapped(self.to_key(), entries@[j].0, (#[trigger] encoded@[j]).0)
                        &&& call_ensures(
                            self.encoder(),
                            (&entries@[j].0, &entries@[j].1),
                            Ok::<T::Value, X>(encoded@[j].1),
                        )
                    } by {
                        if j < i {
                            assert(encoded@[j] == before[j]);
                            assert(entries@.take(i as int)[j] == entries@[j]);
                        }
                    }
                },
                Err(reason) => {
                    return Err(reason);
                },
            }
            i += 1;
        }
        assert(entries@.take(i as int) =~= entries@);
        Ok(encoded)
    }
}

impl<T, K, V, X, M, N, D> Tier for CodecTier<T, K, V, X, M, N, D> where
    T: Tier,
    M: Fn(&K) -> T::Key,
    N: Fn(&K, &V) -> Result<T::Value, X>,
    D: Fn(T::Value) -> Result<(K, V), X>,
 {
    type Key = K;

    type Value = V;

    type Error = CodecError<T::Error, X>;

    closed spec fn inv(&self) -> bool {
        &&& self.inner.inv()
        &&& forall|key: &K| #[trigger] call_requires(self.to_key, (key,))
        &&& forall|key: &K, value: &V| #[trigger] call_requires(self.encode, (key, value))
        &&& forall|encoded: T::Value| #[trigger] call_requires(self.decode, (encoded,))
    }

    closed spec fn history(&self) -> Seq<Call<K, V, CodecError<T::Error, X>>> {
        self.log@
    }

    closed spec fn label(&self) -> Seq<char> {
        self.name@
    }

    /// The inner tier served the same call in its own terms, unless an entry
    /// did not encode: then it was not asked.
    open spec fn promised(
        before: Self,
        after: Self,
        call: Call<K, V, CodecError<T::Error, X>>,
    ) -> bool {
        let inner = after.wrapped().history().last();
        let asked = {
            &&& after.wrapped().label() == before.wrapped().label()
            &&& after.wrapped().history() == before.wrapped().history().push(inner)
            &&& T::promised(before.wrapped(), after.wrapped(), inner)
        };
        let to_key = before.to_key();
        let encode = before.encoder();
        let decode = before.decoder();
        &&& after.to_key() == to_key
        &&& after.encoder() == encode
        &&& after.decoder() == decode
        &&& match call {
            Call::Get { key, found } => asked && match inner {
                Call::Get { key: k, found: answer } => mapped(to_key, key, k) && decoded(
                    decode,
                    answer,
                    found,
                ),
                _ => false,
            },
            Call::Exists { key, present } => asked && match inner {
                Call::Exists { key: k, present: answer } => mapped(to_key, key, k) && present
                    == passed::<_, _, X>(answer),
                _ => false,
            },
            Call::GetMany { keys, values } => asked && match inner {
                Call::GetMany { keys: k, values: answer } => mapped_all(to_key, keys, k)
                    && decoded_batch(decode, answer, values),
                _ => false,
            },
            Call::Put { key, value, displaced } => {
                ||| {
                    &&& after.wrapped() == before.wrapped()
                    &&& displaced matches Err(CodecError::Codec(reason))
                    &&& call_ensures(encode, (&key, &value), Err::<T::Value, X>(reason))
                }
                ||| asked && match inner {
                    Call::Put { key: k, value: v, displaced: answer } => mapped(to_key, key, k)
                        && call_ensures(encode, (&key, &value), Ok::<T::Value, X>(v)) && climbed(
                        decode,
                        answer,
                        displaced,
                    ),
                    _ => false,
                }
            },
            Call::PutMany { entries, displaced } => {
                ||| {
                    &&& after.wrapped() == before.wrapped()
                    &&& displaced matches Err(CodecError::Codec(reason))
                    &&& refused(to_key, encode, entries, reason)
                }
                ||| asked && match inner {
                    Call::PutMany { entries: e, displaced: answer } => encoded_as(
                        to_key,
                        encode,
                        entries,
                        e,
                    ) && climbed(decode, answer, displaced),
                    _ => false,
                }
            },
            Call::Delete { key, removed } => asked && match inner {
                Call::Delete { key: k, removed: answer } => mapped(to_key, key, k) && removed
                    == passed::<_, _, X>(answer),
                _ => false,
            },
            Call::DeleteMany { keys, flags } => asked && match inner {
                Call::DeleteMany { keys: k, flags: answer } => mapped_all(to_key, keys, k) && flags
                    == passed::<_, _, X>(answer),
                _ => false,
            },
        }
    }

    fn name(&self) -> (name: &str) {
        self.name.as_str()
    }
}

impl<T, K, V, X, M, N, D> TierRead for CodecTier<T, K, V, X, M, N, D> where
    T: TierRead,
    M: Fn(&K) -> T::Key,
    N: Fn(&K, &V) -> Result<T::Value, X>,
    D: Fn(T::Value) -> Result<(K, V), X>,
 {
    fn get(&mut self, key: &K) -> (found: Result<Option<V>, CodecError<T::Error, X>>) {
        let inner_key = (self.to_key)(key);
        let found = match self.inner.get(&inner_key) {
            Ok(None) => Ok(None),
            Ok(Some(encoded)) => match (self.decode)(encoded) {
                Ok((_key, value)) => Ok(Some(value)),
                Err(reason) => Err(CodecError::Codec(reason)),
            },
            Err(error) => Err(CodecError::Backend(error)),
        };
        self.log = Ghost(self.log@.push(Call::Get { key: *key, found }));
        found
    }

    fn contains(&mut self, key: &K) -> (present: Result<bool, CodecError<T::Error, X>>) {
        let inner_key = (self.to_key)(key);
        let present = match self.inner.contains(&inner_key) {
            Ok(present) => Ok(present),
            Err(error) => Err(CodecError::Backend(error)),
        };
        self.log = Ghost(self.log@.push(Call::Exists { key: *key, present }));
        present
    }

    fn get_many(&mut self, keys: &[K]) -> (values: Result<
        Vec<Option<V>>,
        CodecError<T::Error, X>,
    >) {
        let inner_keys = self.map_keys(keys);
        let values = match self.inner.get_many(inner_keys.as_slice()) {
            Ok(found) => self.decode_all(found),
            Err(error) => Err(CodecError::Backend(error)),
        };
        self.log = Ghost(
            self.log@.push(Call::GetMany { keys: keys@, values: tier::seq_answer(values) }),
        );
        values
    }
}

impl<T, K, V, X, M, N, D> CodecTier<T, K, V, X, M, N, D> where
    T: Tier,
    M: Fn(&K) -> T::Key,
    N: Fn(&K, &V) -> Result<T::Value, X>,
    D: Fn(T::Value) -> Result<(K, V), X>,
 {
    fn decode_all(&self, found: Vec<Option<T::Value>>) -> (values: Result<
        Vec<Option<V>>,
        CodecError<T::Error, X>,
    >)
        requires
            self.inv(),
        ensures
            decoded_batch(
                self.decoder(),
                Ok::<_, T::Error>(found@),
                tier::seq_answer(values),
            ),
    {
        let ghost all = found@;
        let mut values: Vec<Option<V>> = Vec::with_capacity(found.len());
        for answer in source: found.into_iter()
            invariant
                self.inv(),
                source.seq() == all,
                decoded_all(self.decoder(), all, values@, source.index() as int),
        {
            let ghost before = values@;
            match answer {
                None => {
                    values.push(None);
                },
                Some(encoded) => match (self.decode)(encoded) {
                    Ok((_key, value)) => {
                        values.push(Some(value));
                    },
                    Err(reason) => {
                        assert(all[source.index() as int] == Some(encoded));
                        return Err(CodecError::Codec(reason));
                    },
                },
            }
            assert forall|i: int| 0 <= i < values@.len() implies decoded::<
                K,
                V,
                T::Value,
                (),
                X,
                D,
            >(self.decoder(), Ok(all[i]), Ok(#[trigger] values@[i])) by {
                if i < before.len() {
                    assert(values@[i] == before[i]);
                }
            }
        }
        Ok(values)
    }
}

impl<T, K, V, X, M, N, D> TierWrite for CodecTier<T, K, V, X, M, N, D> where
    T: TierWrite,
    M: Fn(&K) -> T::Key,
    N: Fn(&K, &V) -> Result<T::Value, X>,
    D: Fn(T::Value) -> Result<(K, V), X>,
 {
    fn put(&mut self, key: K, value: V) -> (displaced: Result<
        Displaced<K, V>,
        CodecError<T::Error, X>,
    >) {
        let displaced = match (self.encode)(&key, &value) {
            Ok(encoded) => {
                let inner_key = (self.to_key)(&key);
                let answer = self.inner.put(inner_key, encoded);
                self.tell(answer)
            },
            Err(reason) => Err(CodecError::Codec(reason)),
        };
        self.log = Ghost(
            self.log@.push(Call::Put { key, value, displaced: tier::seq_answer(displaced) }),
        );
        displaced
    }

    fn delete(&mut self, key: &K) -> (removed: Result<bool, CodecError<T::Error, X>>) {
        let inner_key = (self.to_key)(key);
        let removed = match self.inner.delete(&inner_key) {
            Ok(removed) => Ok(removed),
            Err(error) => Err(CodecError::Backend(error)),
        };
        self.log = Ghost(self.log@.push(Call::Delete { key: *key, removed }));
        removed
    }

    fn put_many(&mut self, entries: Vec<(K, V)>) -> (displaced: Result<
        Displaced<K, V>,
        CodecError<T::Error, X>,
    >) {
        let displaced = match self.encode_all(&entries) {
            Ok(encoded) => {
                let answer = self.inner.put_many(encoded);
                let told = self.tell(answer);
                proof {
                    let inner = self.wrapped().history().last();
                    assert(encoded_as(
                        self.to_key(),
                        self.encoder(),
                        entries@,
                        inner->PutMany_entries,
                    ));
                    assert(climbed(
                        self.decoder(),
                        inner->PutMany_displaced,
                        tier::seq_answer(told),
                    ));
                }
                told
            },
            Err(reason) => Err(CodecError::Codec(reason)),
        };
        self.log = Ghost(
            self.log@.push(
                Call::PutMany { entries: entries@, displaced: tier::seq_answer(displaced) },
            ),
        );
        displaced
    }

    fn delete_many(&mut self, keys: &[K]) -> (removed: Result<
        Vec<bool>,
        CodecError<T::Error, X>,
    >) {
        let inner_keys = self.map_keys(keys);
        let removed = match self.inner.delete_many(inner_keys.as_slice()) {
            Ok(removed) => Ok(removed),
            Err(error) => Err(CodecError::Backend(error)),
        };
        self.log = Ghost(
            self.log@.push(Call::DeleteMany { keys: keys@, flags: tier::seq_answer(removed) }),
        );
        removed
    }
}

/// Whether decoding undoes encoding, the key included.
pub open spec fn faithful_codec<K, V, IV, X, N, D>(encode: N, decode: D) -> bool where
    N: Fn(&K, &V) -> Result<IV, X>,
    D: Fn(IV) -> Result<(K, V), X>,
 {
    forall|key: K, value: V, encoded: IV, verdict: Result<(K, V), X>|
        #[trigger] call_ensures(encode, (&key, &value), Ok::<IV, X>(encoded))
            && #[trigger] call_ensures(decode, (encoded,), verdict) ==> verdict == Ok::<_, X>(
            (key, value),
        )
}

/// Typed round trip: with a codec whose decoding undoes its encoding, a lookup
/// that the inner tier answers with the encoding of an entry returns that
/// entry's value.
pub proof fn law_typed_round_trip<T, K, V, X, M, N, D>(
    before: CodecTier<T, K, V, X, M, N, D>,
    after: CodecTier<T, K, V, X, M, N, D>,
    key: K,
    value: V,
    encoded: T::Value,
    found: Result<Option<V>, CodecError<T::Error, X>>,
) where
    T: Tier,
    M: Fn(&K) -> T::Key,
    N: Fn(&K, &V) -> Result<T::Value, X>,
    D: Fn(T::Value) -> Result<(K, V), X>,

    requires
        faithful_codec::<K, V, T::Value, X, N, D>(before.encoder(), before.decoder()),
        call_ensures(before.encoder(), (&key, &value), Ok::<T::Value, X>(encoded)),
        CodecTier::promised(before, after, Call::Get { key, found }),
        after.wrapped().history().last() matches Call::Get { found: answer, .. } && answer
            == Ok::<_, T::Error>(Some(encoded)),
    ensures
        found == Ok::<_, CodecError<T::Error, X>>(Some(value)),
{
}

/// Displaced entries climb back out typed: if everything that the inner tier
/// displaced is the encoding of an entry, exactly these entries are told, in
/// order, with their original keys.
pub proof fn law_displaced_entries_come_back_typed<T, K, V, X, M, N, D>(
    before: CodecTier<T, K, V, X, M, N, D>,
    after: CodecTier<T, K, V, X, M, N, D>,
    key: K,
    value: V,
    inner: Seq<(T::Key, T::Value)>,
    entries: Seq<(K, V)>,
    displaced: Result<Seq<(K, V)>, CodecError<T::Error, X>>,
) where
    T: Tier,
    M: Fn(&K) -> T::Key,
    N: Fn(&K, &V) -> Result<T::Value, X>,
    D: Fn(T::Value) -> Result<(K, V), X>,

    requires
        faithful_codec::<K, V, T::Value, X, N, D>(before.encoder(), before.decoder()),
        inner.len() == entries.len(),
        forall|i: int|
            0 <= i < entries.len() ==> call_ensures(
                before.encoder(),
                (&(#[trigger] entries[i]).0, &entries[i].1),
                Ok::<T::Value, X>(inner[i].1),
            ),
        CodecTier::promised(before, after, Call::Put { key, value, displaced }),
        after.wrapped() != before.wrapped(),
        after.wrapped().history().last() matches Call::Put { displaced: answer, .. } && answer
            == Ok::<_, T::Error>(inner),
    ensures
        displaced == Ok::<_, CodecError<T::Error, X>>(entries),
{
    let verdicts = choose|verdicts: Seq<Result<(K, V), X>>|
        {
            &&& #[trigger] verdicts_on(before.decoder(), inner, verdicts)
            &&& displaced == Ok::<_, CodecError<T::Error, X>>(salvaged(verdicts))
        };
    assert forall|i: int| 0 <= i < verdicts.len() implies verdicts[i] == Ok::<_, X>(entries[i]) by {
        assert(call_ensures(
            before.encoder(),
            (&entries[i].0, &entries[i].1),
            Ok::<T::Value, X>(inner[i].1),
        ));
        assert(call_ensures(before.decoder(), (inner[i].1,), verdicts[i]));
    }
    lemma_all_salvaged(verdicts, entries);
}

proof fn lemma_all_salvaged<K, V, X>(verdicts: Seq<Result<(K, V), X>>, entries: Seq<(K, V)>)
    requires
        verdicts.len() == entries.len(),
        forall|i: int| 0 <= i < verdicts.len() ==> verdicts[i] == Ok::<_, X>(entries[i]),
    ensures
        salvaged(verdicts) == entries,
    decreases verdicts.len(),
{
    if verdicts.len() > 0 {
        lemma_all_salvaged(verdicts.drop_last(), entries.drop_last());
        assert(verdicts[verdicts.len() - 1] == Ok::<_, X>(entries[entries.len() - 1]));
        assert(entries =~= entries.drop_last().push(entries.last()));
    } else {
        assert(entries =~= Seq::empty());
    }
}

/// The entries among `verdicts`, in order.
proof fn lemma_salvaged<K, V, X>(verdicts: Seq<Result<(K, V), X>>)
    ensures
        salvaged(verdicts) == verdicts.filter(
            |verdict: Result<(K, V), X>| verdict is Ok,
        ).map_values(|verdict: Result<(K, V), X>| verdict->Ok_0),
    decreases verdicts.len(),
{
    reveal(Seq::filter);
    let good = |verdict: Result<(K, V), X>| verdict is Ok;
    let entry = |verdict: Result<(K, V), X>| verdict->Ok_0;
    if verdicts.len() > 0 {
        lemma_salvaged(verdicts.drop_last());
        assert(salvaged(verdicts) =~= verdicts.filter(good).map_values(entry));
    } else {
        assert(salvaged(verdicts) =~= verdicts.filter(good).map_values(entry));
    }
}

/// Whether `told` is what `decode` makes of the entries that the inner tier
/// displaced: those that decode, in order, and an error as it is.
pub open spec fn told_typed<K, V, IK, IV, E, X, D: Fn(IV) -> Result<(K, V), X>>(
    decode: D,
    answer: Result<Seq<(IK, IV)>, E>,
    told: Result<Seq<(K, V)>, CodecError<E, X>>,
) -> bool {
    match answer {
        Err(error) => told == Err::<Seq<(K, V)>, CodecError<E, X>>(CodecError::Backend(error)),
        Ok(inner) => exists|verdicts: Seq<Result<(K, V), X>>|
            {
                &&& #[trigger] verdicts.len() == inner.len()
                &&& forall|i: int|
                    0 <= i < inner.len() ==> call_ensures(
                        decode,
                        (inner[i].1,),
                        #[trigger] verdicts[i],
                    )
                &&& told == Ok::<_, CodecError<E, X>>(
                    verdicts.filter(|verdict: Result<(K, V), X>| verdict is Ok).map_values(
                        |verdict: Result<(K, V), X>| verdict->Ok_0,
                    ),
                )
            },
    }
}

proof fn lemma_told_typed<K, V, IK, IV, E, X, D: Fn(IV) -> Result<(K, V), X>>(
    decode: D,
    answer: Result<Seq<(IK, IV)>, E>,
    told: Result<Seq<(K, V)>, CodecError<E, X>>,
)
    requires
        climbed(decode, answer, told),
    ensures
        told_typed(decode, answer, told),
{
    if let Ok(inner) = answer {
        let verdicts = choose|verdicts: Seq<Result<(K, V), X>>|
            {
                &&& #[trigger] verdicts_on(decode, inner, verdicts)
                &&& told == Ok::<_, CodecError<E, X>>(salvaged(verdicts))
            };
        lemma_salvaged(verdicts);
        assert(verdicts.len() == inner.len());
    }
}

/// Whether `decode` may say that `encoded` holds `value`, under whatever key.
pub open spec fn opens_to<K, V, IV, X, D: Fn(IV) -> Result<(K, V), X>>(
    decode: D,
    encoded: IV,
    value: V,
) -> bool {
    exists|key: K| #[trigger] call_ensures(decode, (encoded,), Ok::<(K, V), X>((key, value)))
}

/// A typed tier only translates. Each call is handed to the inner tier once, with
/// the keys mapped and the values encoded, in order, and what the inner tier says
/// is decoded; its errors are told as they are. Only an entry that does not encode
/// keeps a write from the inner tier, and only a value that does not decode keeps
/// a lookup from its answer; either is told as a codec error with its reason.
pub proof fn law_typed_tiers_only_translate<T, K, V, X, M, N, D>(
    before: CodecTier<T, K, V, X, M, N, D>,
    after: CodecTier<T, K, V, X, M, N, D>,
    call: Call<K, V, CodecError<T::Error, X>>,
) where
    T: Tier,
    M: Fn(&K) -> T::Key,
    N: Fn(&K, &V) -> Result<T::Value, X>,
    D: Fn(T::Value) -> Result<(K, V), X>,

    requires
        CodecTier::promised(before, after, call),
    ensures
        ({
            let inner = after.wrapped().history().last();
            let asked = after.wrapped().history() == before.wrapped().history().push(inner);
            let to_key = before.to_key();
            let encode = before.encoder();
            let decode = before.decoder();
            match call {
                Call::Get { key, found } => {
                    &&& asked
                    &&& inner matches Call::Get { key: k, found: answer }
                    &&& call_ensures(to_key, (&key,), k)
                    &&& match (answer, found) {
                        (Ok(Some(encoded)), Ok(Some(value))) => opens_to(decode, encoded, value),
                        (Ok(Some(encoded)), Err(CodecError::Codec(reason))) => call_ensures(
                            decode,
                            (encoded,),
                            Err::<(K, V), X>(reason),
                        ),
                        (Ok(None), Ok(None)) => true,
                        (Err(error), Err(CodecError::Backend(told))) => told == error,
                        _ => false,
                    }
                },
                Call::Exists { key, present } => {
                    &&& asked
                    &&& inner matches Call::Exists { key: k, present: answer }
                    &&& call_ensures(to_key, (&key,), k)
                    &&& match (answer, present) {
                        (Ok(yes), Ok(told)) => told == yes,
                        (Err(error), Err(CodecError::Backend(told))) => told == error,
                        _ => false,
                    }
                },
                Call::GetMany { keys, values } => {
                    &&& asked
                    &&& inner matches Call::GetMany { keys: k, values: answer }
                    &&& k.len() == keys.len()
                    &&& forall|i: int|
                        0 <= i < keys.len() ==> call_ensures(to_key, (&keys[i],), #[trigger] k[i])
                    &&& match (answer, values) {
                        (Ok(found), Ok(told)) => told.len() == found.len() && forall|i: int|
                            0 <= i < found.len() ==> match (found[i], #[trigger] told[i]) {
                                (Some(encoded), Some(value)) => opens_to(decode, encoded, value),
                                (None, None) => true,
                                _ => false,
                            },
                        (Ok(found), Err(CodecError::Codec(reason))) => exists|i: int|
                            0 <= i < found.len() && (#[trigger] found[i] matches Some(encoded)
                                && call_ensures(decode, (encoded,), Err::<(K, V), X>(reason))),
                        (Err(error), Err(CodecError::Backend(told))) => told == error,
                        _ => false,
                    }
                },
                Call::Put { key, value, displaced } => {
                    ||| {
                        &&& after.wrapped() == before.wrapped()
                        &&& displaced matches Err(CodecError::Codec(reason))
                        &&& call_ensures(encode, (&key, &value), Err::<T::Value, X>(reason))
                    }
                    ||| {
                        &&& asked
                        &&& inner matches Call::Put { key: k, value: v, displaced: answer }
                        &&& call_ensures(to_key, (&key,), k)
                        &&& call_ensures(encode, (&key, &value), Ok::<T::Value, X>(v))
                        &&& told_typed(decode, answer, displaced)
                    }
                },
                Call::PutMany { entries, displaced } => {
                    ||| {
                        &&& after.wrapped() == before.wrapped()
                        &&& displaced matches Err(CodecError::Codec(reason))
                        &&& exists|i: int|
                            0 <= i < entries.len() && call_ensures(
                                encode,
                                (&(#[trigger] entries[i]).0, &entries[i].1),
                                Err::<T::Value, X>(reason),
                            )
                    }
                    ||| {
                        &&& asked
                        &&& inner matches Call::PutMany { entries: e, displaced: answer }
                        &&& e.len() == entries.len()
                        &&& forall|i: int|
                            0 <= i < entries.len() ==> {
                                &&& call_ensures(to_key, (&entries[i].0,), (#[trigger] e[i]).0)
                                &&& call_ensures(
                                    encode,
                                    (&entries[i].0, &entries[i].1),
                                    Ok::<T::Value, X>(e[i].1),
                                )
                            }
                        &&& told_typed(decode, answer, displaced)
                    }
                },
                Call::Delete { key, removed } => {
                    &&& asked
                    &&& inner matches Call::Delete { key: k, removed: answer }
                    &&& call_ensures(to_key, (&key,), k)
                    &&& match (answer, removed) {
                        (Ok(yes), Ok(told)) => told == yes,
                        (Err(error), Err(CodecError::Backend(told))) => told == error,
                        _ => false,
                    }
                },
                Call::DeleteMany { keys, flags } => {
                    &&& asked
                    &&& inner matches Call::DeleteMany { keys: k, flags: answer }
                    &&& k.len() == keys.len()
                    &&& forall|i: int|
                        0 <= i < keys.len() ==> call_ensures(to_key, (&keys[i],), #[trigger] k[i])
                    &&& match (answer, flags) {
                        (Ok(yes), Ok(told)) => told == yes,
                        (Err(error), Err(CodecError::Backend(told))) => told == error,
                        _ => false,
                    }
                },
            }
        }),
{
    let inner = after.wrapped().history().last();
    let to_key = before.to_key();
    let encode = before.encoder();
    let decode = before.decoder();
    if let Call::PutMany { entries, displaced: Err(CodecError::Codec(reason)) } = call {
        if refused::<K, V, T::Key, T::Value, X, M, N>(to_key, encode, entries, reason) {
            let (i, done) = choose|i: int, done: Seq<(T::Key, T::Value)>|
                {
                    &&& 0 <= i < entries.len()
                    &&& #[trigger] encoded_as(to_key, encode, entries.take(i), done)
                    &&& call_ensures(
                        encode,
                        (&entries[i].0, &entries[i].1),
                        Err::<T::Value, X>(reason),
                    )
                };
            let entry = entries[i];
            assert(call_ensures(
                encode,
                (&entries[i].0, &entries[i].1),
                Err::<T::Value, X>(reason),
            ));
        }
    }
    match (call, inner) {
        (Call::Get { key, found }, Call::Get { key: k, found: answer }) => {
            if let Ok(Some(encoded)) = answer {
                let verdict = choose|verdict: Result<(K, V), X>|
                    {
                        &&& #[trigger] call_ensures(decode, (encoded,), verdict)
                        &&& found == match verdict {
                            Ok((_, value)) => Ok(Some(value)),
                            Err(reason) => Err(CodecError::<T::Error, X>::Codec(reason)),
                        }
                    };
                if let Ok((k, value)) = verdict {
                    assert(call_ensures(decode, (encoded,), Ok::<(K, V), X>((k, value))));
                    assert(opens_to(decode, encoded, value));
                }
            }
        },
        (Call::GetMany { keys, values }, Call::GetMany { keys: k, values: answer }) => {
            assert forall|i: int| 0 <= i < keys.len() implies call_ensures(
                to_key,
                (&keys[i],),
                #[trigger] k[i],
            ) by {
                assert(mapped(to_key, keys[i], k[i]));
            }
            if let (Ok(found), Err(CodecError::Codec(reason))) = (answer, values) {
                let (i, front) = choose|i: int, front: Seq<Option<V>>|
                    {
                        &&& 0 <= i < found.len()
                        &&& #[trigger] decoded_all(decode, found, front, i)
                        &&& found[i] matches Some(encoded)
                        &&& call_ensures(decode, (encoded,), Err::<(K, V), X>(reason))
                    };
                assert(found[i] is Some);
            }
            if let (Ok(found), Ok(told)) = (answer, values) {
                assert forall|i: int| 0 <= i < found.len() implies match (
                    found[i],
                    #[trigger] told[i],
                ) {
                    (Some(encoded), Some(value)) => opens_to(decode, encoded, value),
                    (None, None) => true,
                    _ => false,
                } by {
                    assert(decoded::<K, V, T::Value, (), X, D>(decode, Ok(found[i]), Ok(told[i])));
                    if let Some(encoded) = found[i] {
                        let verdict = choose|verdict: Result<(K, V), X>|
                            {
                                &&& #[trigger] call_ensures(decode, (encoded,), verdict)
                                &&& Ok::<Option<V>, CodecError<(), X>>(told[i]) == match verdict {
                                    Ok((_, value)) => Ok(Some(value)),
                                    Err(reason) => Err(CodecError::<(), X>::Codec(reason)),
                                }
                            };
                        let (k, value) = verdict->Ok_0;
                        assert(call_ensures(decode, (encoded,), Ok::<(K, V), X>((k, value))));
                        assert(opens_to(decode, encoded, value));
                    }
                }
            }
        },
        (Call::Put { displaced, .. }, Call::Put { displaced: answer, .. }) => {
            if climbed(decode, answer, displaced) {
                lemma_told_typed(decode, answer, displaced);
            }
        },
        (Call::PutMany { displaced, .. }, Call::PutMany { displaced: answer, .. }) => {
            if climbed(decode, answer, displaced) {
                lemma_told_typed(decode, answer, displaced);
            }
        },
        (Call::DeleteMany { keys, .. }, Call::DeleteMany { keys: k, .. }) => {
            assert forall|i: int| 0 <= i < keys.len() implies call_ensures(
                to_key,
                (&keys[i],),
                #[trigger] k[i],
            ) by {
                assert(mapped(to_key, keys[i], k[i]));
            }
        },
        _ => {},
    }
}

} // verus!
