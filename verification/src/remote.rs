//! In-process stand-in for a remote store (database, service): counts fetches,
//! so that a demonstration can show which reads actually crossed the
//! "network", and carries the latency that its driver adds to every operation.

use core::convert::Infallible;
use core::time::Duration;
use vstd::prelude::*;
use vstd::slice::slice_to_vec;

use crate::error::Fault;
use crate::laws;
use crate::policy::WriteMode;
use crate::replay;
use crate::replay::Write;
use crate::router::Router;
use crate::stack;
use crate::stack::Event;
use crate::table::Table;
use crate::tier;
use crate::tier::{Call, Displaced, Tier, TierRead, TierWrite};

verus! {

/// An unbounded store that never fails.
pub struct RemoteStore {
    data: Table<Vec<u8>>,
    fetches: usize,
    latency: Duration,
    log: Ghost<Seq<Call<String, Vec<u8>, Infallible>>>,
}

/// A fetch counter that showed `start` after `count` more fetches. It wraps
/// around.
pub open spec fn counted(start: usize, count: nat) -> usize
    decreases count,
{
    if count == 0 {
        start
    } else {
        counted(start, (count - 1) as nat).wrapping_add(1)
    }
}

/// A value as the sequence of its bytes.
pub open spec fn shown(value: Option<Vec<u8>>) -> Option<Seq<u8>> {
    match value {
        Some(bytes) => Some(bytes@),
        None => None,
    }
}

/// Entries as sequences of characters and bytes.
pub open spec fn entries_in(entries: Seq<(String, Vec<u8>)>) -> Seq<(Seq<char>, Seq<u8>)> {
    entries.map_values(|entry: (String, Vec<u8>)| (entry.0@, entry.1@))
}

/// `contents` without `keys`.
pub open spec fn dropped(contents: Map<Seq<char>, Seq<u8>>, keys: Seq<String>) -> Map<
    Seq<char>,
    Seq<u8>,
>
    decreases keys.len(),
{
    if keys.len() == 0 {
        contents
    } else {
        dropped(contents, keys.drop_last()).remove(keys.last()@)
    }
}

impl RemoteStore {
    /// What the store holds.
    pub closed spec fn contents(&self) -> Map<Seq<char>, Seq<u8>> {
        self.data@.map_values(|value: Vec<u8>| value@)
    }

    /// What [`RemoteStore::fetches`] reports.
    pub closed spec fn fetched(&self) -> usize {
        self.fetches
    }

    /// What [`RemoteStore::latency`] reports.
    pub closed spec fn delay(&self) -> Duration {
        self.latency
    }

    /// An empty store whose operations take `latency`.
    pub fn new(latency: Duration) -> (store: Self)
        ensures
            store.inv(),
            store.contents() == Map::<Seq<char>, Seq<u8>>::empty(),
            store.fetched() == 0,
            store.delay() == latency,
            store.history() == Seq::<Call<String, Vec<u8>, Infallible>>::empty(),
    {
        let store = RemoteStore {
            data: Table::new(),
            fetches: 0,
            latency,
            log: Ghost(Seq::empty()),
        };
        assert(store.contents() =~= Map::<Seq<char>, Seq<u8>>::empty());
        store
    }

    /// Number of `get`s that reached the remote.
    pub fn fetches(&self) -> (fetches: usize)
        ensures
            fetches == self.fetched(),
    {
        self.fetches
    }

    /// The simulated duration of a network round-trip.
    pub fn latency(&self) -> (latency: Duration)
        ensures
            latency == self.delay(),
    {
        self.latency
    }

    fn fetch(&mut self, key: &String) -> (found: Option<Vec<u8>>)
        requires
            old(self).inv(),
        ensures
            final(self).inv(),
            final(self).contents() == old(self).contents(),
            final(self).fetched() == counted(old(self).fetched(), 1),
            final(self).delay() == old(self).delay(),
            final(self).history() == old(self).history(),
            shown(found) == laws::lookup(old(self).contents(), key@),
    {
        proof {
            reveal_with_fuel(counted, 2);
        }
        self.fetches = self.fetches.wrapping_add(1);
        match self.data.get(key) {
            Some(value) => Some(slice_to_vec(value.as_slice())),
            None => None,
        }
    }

    fn store(&mut self, key: String, value: Vec<u8>)
        requires
            old(self).inv(),
        ensures
            final(self).inv(),
            final(self).contents() == old(self).contents().insert(key@, value@),
            final(self).fetched() == old(self).fetched(),
            final(self).delay() == old(self).delay(),
            final(self).history() == old(self).history(),
    {
        let ghost asked = (key@, value@);
        let _replaced = self.data.insert(key, value);
        assert(self.contents() =~= old(self).contents().insert(asked.0, asked.1));
    }

    fn discard(&mut self, key: &String) -> (present: bool)
        requires
            old(self).inv(),
        ensures
            final(self).inv(),
            final(self).contents() == old(self).contents().remove(key@),
            final(self).fetched() == old(self).fetched(),
            final(self).delay() == old(self).delay(),
            final(self).history() == old(self).history(),
            present == old(self).contents().contains_key(key@),
    {
        let removed = self.data.remove(key);
        assert(self.contents() =~= old(self).contents().remove(key@));
        removed.is_some()
    }
}

impl Tier for RemoteStore {
    type Key = String;

    type Value = Vec<u8>;

    type Error = Infallible;

    closed spec fn inv(&self) -> bool {
        self.data.wf()
    }

    closed spec fn history(&self) -> Seq<Call<String, Vec<u8>, Infallible>> {
        self.log@
    }

    open spec fn label(&self) -> Seq<char> {
        "remote"@
    }

    /// Every answer comes from the contents, nothing is displaced, and every
    /// lookup is counted.
    open spec fn promised(
        before: Self,
        after: Self,
        call: Call<String, Vec<u8>, Infallible>,
    ) -> bool {
        let contents = before.contents();
        &&& after.delay() == before.delay()
        &&& after.fetched() == counted(
            before.fetched(),
            match call {
                Call::Get { .. } => 1,
                Call::GetMany { keys, .. } => keys.len(),
                _ => 0,
            },
        )
        &&& after.contents() == match call {
            Call::Put { key, value, .. } => contents.insert(key@, value@),
            Call::PutMany { entries, .. } => laws::inserted(contents, entries_in(entries)),
            Call::Delete { key, .. } => contents.remove(key@),
            Call::DeleteMany { keys, .. } => dropped(contents, keys),
            _ => contents,
        }
        &&& match call {
            Call::Get { key, found } => found matches Ok(found) && shown(found) == laws::lookup(
                contents,
                key@,
            ),
            Call::Exists { key, present } => present matches Ok(present) && present
                == contents.contains_key(key@),
            Call::GetMany { keys, values } => {
                &&& values matches Ok(values)
                &&& values.len() == keys.len()
                &&& forall|i: int|
                    0 <= i < keys.len() ==> shown(#[trigger] values[i]) == laws::lookup(
                        contents,
                        keys[i]@,
                    )
            },
            Call::Put { displaced, .. } => displaced matches Ok(displaced) && displaced.len() == 0,
            Call::PutMany { displaced, .. } => displaced matches Ok(displaced) && displaced.len()
                == 0,
            Call::Delete { key, removed } => removed matches Ok(removed) && removed
                == contents.contains_key(key@),
            Call::DeleteMany { keys, flags } => {
                &&& flags matches Ok(flags)
                &&& flags.len() == keys.len()
                &&& forall|i: int|
                    0 <= i < keys.len() ==> #[trigger] flags[i] == dropped(
                        contents,
                        keys.take(i),
                    ).contains_key(keys[i]@)
            },
        }
    }

    fn name(&self) -> (name: &str) {
        "remote"
    }
}

impl TierRead for RemoteStore {
    fn get(&mut self, key: &String) -> (found: Result<Option<Vec<u8>>, Infallible>) {
        let found = Ok(self.fetch(key));
        self.log = Ghost(self.log@.push(Call::Get { key: *key, found }));
        found
    }

    fn contains(&mut self, key: &String) -> (present: Result<bool, Infallible>) {
        let present = Ok(self.data.contains(key));
        self.log = Ghost(self.log@.push(Call::Exists { key: *key, present }));
        present
    }

    fn get_many(&mut self, keys: &[String]) -> (values: Result<Vec<Option<Vec<u8>>>, Infallible>) {
        let ghost start = *self;
        let mut found: Vec<Option<Vec<u8>>> = Vec::with_capacity(keys.len());
        let mut i: usize = 0;
        while i < keys.len()
            invariant
                start == *old(self),
                i <= keys@.len(),
                self.inv(),
                self.contents() == start.contents(),
                self.fetched() == counted(start.fetched(), i as nat),
                self.delay() == start.delay(),
                self.history() == start.history(),
                found@.len() == i,
                forall|j: int|
                    0 <= j < i ==> shown(#[trigger] found@[j]) == laws::lookup(
                        start.contents(),
                        keys@[j]@,
                    ),
            decreases keys@.len() - i,
        {
            proof {
                reveal_with_fuel(counted, 2);
            }
            found.push(self.fetch(&keys[i]));
            i += 1;
        }
        let values = Ok(found);
        self.log = Ghost(
            self.log@.push(Call::GetMany { keys: keys@, values: tier::seq_answer(values) }),
        );
        values
    }
}

impl TierWrite for RemoteStore {
    fn put(&mut self, key: String, value: Vec<u8>) -> (displaced: Result<
        Displaced<String, Vec<u8>>,
        Infallible,
    >) {
        let ghost asked = (key, value);
        self.store(key, value);
        let displaced = Ok(Vec::new());
        self.log = Ghost(
            self.log@.push(
                Call::Put { key: asked.0, value: asked.1, displaced: tier::seq_answer(displaced) },
            ),
        );
        displaced
    }

    fn delete(&mut self, key: &String) -> (removed: Result<bool, Infallible>) {
        let removed = Ok(self.discard(key));
        self.log = Ghost(self.log@.push(Call::Delete { key: *key, removed }));
        removed
    }

    fn put_many(&mut self, entries: Vec<(String, Vec<u8>)>) -> (displaced: Result<
        Displaced<String, Vec<u8>>,
        Infallible,
    >) {
        let ghost start = *self;
        let ghost all = entries@;
        assert(entries_in(all.take(0)) =~= Seq::empty());
        for entry in source: entries.into_iter()
            invariant
                source.seq() == all,
                self.inv(),
                self.contents() == laws::inserted(
                    start.contents(),
                    entries_in(all.take(source.index() as int)),
                ),
                self.fetched() == start.fetched(),
                self.delay() == start.delay(),
                self.history() == start.history(),
        {
            let ghost index = source.index() as int;
            let (key, value) = entry;
            self.store(key, value);
            proof {
                let seen = entries_in(all.take(index + 1));
                assert(seen.drop_last() =~= entries_in(all.take(index)));
                assert(seen.last() == (key@, value@));
            }
        }
        assert(all.take(all.len() as int) =~= all);
        let displaced = Ok(Vec::new());
        self.log = Ghost(
            self.log@.push(Call::PutMany { entries: all, displaced: tier::seq_answer(displaced) }),
        );
        displaced
    }

    fn delete_many(&mut self, keys: &[String]) -> (removed: Result<Vec<bool>, Infallible>) {
        let ghost start = *self;
        let mut flags: Vec<bool> = Vec::with_capacity(keys.len());
        let mut i: usize = 0;
        assert(keys@.take(0) =~= Seq::empty());
        while i < keys.len()
            invariant
                start == *old(self),
                i <= keys@.len(),
                self.inv(),
                self.contents() == dropped(start.contents(), keys@.take(i as int)),
                self.fetched() == start.fetched(),
                self.delay() == start.delay(),
                self.history() == start.history(),
                flags@.len() == i,
                forall|j: int|
                    0 <= j < i ==> #[trigger] flags@[j] == dropped(
                        start.contents(),
                        keys@.take(j),
                    ).contains_key(keys@[j]@),
            decreases keys@.len() - i,
        {
            flags.push(self.discard(&keys[i]));
            assert(keys@.take(i + 1).drop_last() =~= keys@.take(i as int));
            i += 1;
        }
        assert(keys@.take(i as int) =~= keys@);
        let removed = Ok(flags);
        self.log = Ghost(
            self.log@.push(Call::DeleteMany { keys: keys@, flags: tier::seq_answer(removed) }),
        );
        removed
    }
}

proof fn lemma_moment_len(router: Router<RemoteStore>, n: int)
    requires
        router.inv(),
        0 <= n <= router.trace().len(),
    ensures
        router.moment(n).len() == router.shape().tiers(),
    decreases router.trace().len() - n,
{
    router.law_promises_are_kept();
    if n < router.trace().len() {
        assert(stack::follows(router.moment(n), router.trace()[n], router.moment(n + 1)));
        lemma_moment_len(router, n + 1);
    }
}

/// A write that still has to reach the first `left` tiers leaves its value in
/// each of them.
proof fn lemma_written(
    router: Router<RemoteStore>,
    key: String,
    value: Vec<u8>,
    left: nat,
    evicted: Seq<(String, Vec<u8>)>,
    n: int,
)
    requires
        router.inv(),
        0 <= n <= router.trace().len(),
        left <= router.shape().tiers(),
        forall|i: nat| i < router.shape().tiers() ==> #[trigger] router.shape().writable(i),
        replay::wrote_through(
            router.shape(),
            Write::One { key, value },
            left,
            evicted,
            router.trace().skip(n),
        ) matches Some((rest, _)) && rest.len() == 0,
    ensures
        ({
            let now = router.moment(router.trace().len() as int);
            &&& forall|t: int|
                0 <= t < left ==> laws::lookup((#[trigger] now[t]).contents(), key@) == Some(value@)
            &&& forall|t: int|
                left <= t < router.shape().tiers() ==> #[trigger] now[t] == router.moment(n)[t]
        }),
    decreases left,
{
    let end = router.trace().len() as int;
    let trace = router.trace().skip(n);
    lemma_moment_len(router, n);
    if left == 0 {
        assert(n == end);
    } else {
        let tier = (left - 1) as nat;
        let shape = router.shape();
        assert(shape.writable(tier));
        let event = router.trace()[n];
        assert(trace[0] == event);
        router.law_promises_are_kept();
        assert(stack::follows(router.moment(n), event, router.moment(n + 1)));
        lemma_moment_len(router, n + 1);
        assert(trace.skip(1) =~= router.trace().skip(n + 1));
        let displaced = event.call->Put_displaced->Ok_0;
        assert(displaced.len() == 0);
        assert(evicted + displaced =~= evicted);
        lemma_written(router, key, value, tier, evicted, n + 1);
        let now = router.moment(end);
        assert(now[tier as int] == router.moment(n + 1)[tier as int]);
    }
}

/// Over remote stores alone, a write through all of them reads back: the next
/// read of the key returns the bytes that were written.
pub proof fn law_remote_writes_read_back(
    before: Router<RemoteStore>,
    written: Router<RemoteStore>,
    after: Router<RemoteStore>,
    key: String,
    value: Vec<u8>,
    result: Result<Seq<(String, Vec<u8>)>, Fault<Infallible>>,
    wanted: String,
    found: Result<Option<Vec<u8>>, Fault<Infallible>>,
)
    requires
        before.inv(),
        written.after(before),
        after.after(written),
        before.shape().tiers() > 0,
        before.shape().policy.write == WriteMode::WriteThrough,
        forall|i: nat| i < before.shape().tiers() ==> #[trigger] before.shape().writable(i),
        replay::wrote(before.shape(), Write::One { key, value }, written.since(before)) == Some(
            (Seq::<Event<String, Vec<u8>, Infallible>>::empty(), result),
        ),
        wanted@ == key@,
        replay::read_from(before.shape(), wanted, 0, Seq::empty(), after.since(written)) == Some(
            (Seq::<Event<String, Vec<u8>, Infallible>>::empty(), found),
        ),
    ensures
        found matches Ok(Some(bytes)) && bytes@ == value@,
{
    let start = before.trace().len() as int;
    let end = written.trace().len() as int;
    replay::lemma_bottom(before.shape(), before.shape().tiers());
    assert(before.shape().writable((before.shape().tiers() - 1) as nat));
    lemma_written(written, key, value, before.shape().tiers(), Seq::empty(), start);
    lemma_moment_len(written, end);
    assert(after.moment(end) == written.moment(end));
    let now = after.moment(end);
    assert(laws::lookup(now[0].contents(), key@) == Some(value@));
    let reading = after.since(written);
    assert(reading[0] == after.trace()[end]);
    after.law_promises_are_kept();
    assert(stack::follows(now, after.trace()[end], after.moment(end + 1)));
}

proof fn lemma_counted(start: usize, count: nat)
    requires
        start + count <= usize::MAX,
    ensures
        counted(start, count) == start + count,
    decreases count,
{
    if count > 0 {
        lemma_counted(start, (count - 1) as nat);
    }
}

/// Whether one of `keys` is `key`.
pub open spec fn names_key(keys: Seq<String>, key: Seq<char>) -> bool {
    exists|i: int| 0 <= i < keys.len() && (#[trigger] keys[i])@ == key
}

proof fn lemma_dropped(contents: Map<Seq<char>, Seq<u8>>, keys: Seq<String>, key: Seq<char>)
    ensures
        dropped(contents, keys).contains_key(key) <==> contents.contains_key(key) && !names_key(
            keys,
            key,
        ),
        dropped(contents, keys).contains_key(key) ==> dropped(contents, keys)[key] == contents[key],
    decreases keys.len(),
{
    if keys.len() > 0 {
        let front = keys.drop_last();
        let last = keys.len() - 1;
        lemma_dropped(contents, front, key);
        assert(names_key(keys, key) <==> names_key(front, key) || keys[last]@ == key) by {
            if names_key(front, key) {
                let i = choose|i: int| 0 <= i < front.len() && (#[trigger] front[i])@ == key;
                assert(keys[i]@ == key);
            }
            if names_key(keys, key) {
                let i = choose|i: int| 0 <= i < keys.len() && (#[trigger] keys[i])@ == key;
                if i < last {
                    assert(front[i]@ == key);
                }
            }
        }
    }
}

proof fn lemma_last_insert_stays(
    contents: Map<Seq<char>, Seq<u8>>,
    entries: Seq<(String, Vec<u8>)>,
    key: Seq<char>,
)
    ensures
        ({
            let after = laws::inserted(contents, entries_in(entries));
            &&& forall|i: int|
                0 <= i < entries.len() && (#[trigger] entries[i]).0@ == key && (forall|j: int|
                    i < j < entries.len() ==> (#[trigger] entries[j]).0@ != key)
                    ==> after.contains_key(key) && after[key] == entries[i].1@
            &&& (forall|i: int| 0 <= i < entries.len() ==> (#[trigger] entries[i]).0@ != key) ==> {
                &&& after.contains_key(key) <==> contents.contains_key(key)
                &&& after.contains_key(key) ==> after[key] == contents[key]
            }
        }),
    decreases entries.len(),
{
    if entries.len() > 0 {
        let front = entries.drop_last();
        let last = entries.len() - 1;
        lemma_last_insert_stays(contents, front, key);
        assert(entries_in(entries).drop_last() =~= entries_in(front));
        assert(entries_in(entries).last() == (entries[last].0@, entries[last].1@));
        assert forall|i: int| 0 <= i < front.len() implies #[trigger] front[i] == entries[i] by {}
        let after = laws::inserted(contents, entries_in(entries));
        assert forall|i: int|
            0 <= i < entries.len() && (#[trigger] entries[i]).0@ == key && (forall|j: int|
                i < j < entries.len() ==> (#[trigger] entries[j]).0@ != key) implies after.contains_key(
            key,
        ) && after[key] == entries[i].1@ by {
            if i < last {
                assert(entries[last].0@ != key);
                assert(front[i].0@ == key);
                assert forall|j: int| i < j < front.len() implies (#[trigger] front[j]).0@
                    != key by {
                    assert(entries[j].0@ != key);
                }
            }
        }
        if forall|i: int| 0 <= i < entries.len() ==> (#[trigger] entries[i]).0@ != key {
            assert forall|i: int| 0 <= i < front.len() implies (#[trigger] front[i]).0@ != key by {
                assert(entries[i].0@ != key);
            }
            assert(entries[last].0@ != key);
        }
    }
}

/// A remote store answers from its contents. A lookup finds the bytes of its key
/// and is counted, key by key; an existence check says whether it would. An
/// insert replaces what was there and displaces nothing, and of several for one
/// key the last stays. A removal says whether there was something to remove.
/// Nothing else changes.
pub proof fn law_remote_stores_answer_from_their_contents(
    before: RemoteStore,
    after: RemoteStore,
    call: Call<String, Vec<u8>, Infallible>,
    key: Seq<char>,
)
    requires
        RemoteStore::promised(before, after, call),
    ensures
        ({
            let (old, new) = (before.contents(), after.contents());
            let same = (new.contains_key(key) <==> old.contains_key(key)) && (new.contains_key(key)
                ==> new[key] == old[key]);
            let lookups = match call {
                Call::Get { .. } => 1,
                Call::GetMany { keys, .. } => keys.len(),
                _ => 0,
            };
            &&& after.delay() == before.delay()
            &&& before.fetched() + lookups <= usize::MAX ==> after.fetched() == before.fetched()
                + lookups
            &&& match call {
                Call::Get { key: k, found } => same && (found matches Ok(found) && match found {
                    Some(value) => old.contains_key(k@) && value@ == old[k@],
                    None => !old.contains_key(k@),
                }),
                Call::Exists { key: k, present } => same && (present matches Ok(present) && (present
                    <==> old.contains_key(k@))),
                Call::GetMany { keys, values } => same && (values matches Ok(values) && values.len()
                    == keys.len() && forall|i: int|
                    0 <= i < keys.len() ==> match #[trigger] values[i] {
                        Some(value) => old.contains_key(keys[i]@) && value@ == old[keys[i]@],
                        None => !old.contains_key(keys[i]@),
                    }),
                Call::Put { key: k, value, displaced } => {
                    &&& displaced matches Ok(displaced) && displaced.len() == 0
                    &&& if k@ == key {
                        new.contains_key(key) && new[key] == value@
                    } else {
                        same
                    }
                },
                Call::PutMany { entries, displaced } => {
                    &&& displaced matches Ok(displaced) && displaced.len() == 0
                    &&& forall|i: int|
                        0 <= i < entries.len() && (#[trigger] entries[i]).0@ == key && (forall|
                            j: int,
                        |
                            i < j < entries.len() ==> (#[trigger] entries[j]).0@ != key)
                            ==> new.contains_key(key) && new[key] == entries[i].1@
                    &&& (forall|i: int|
                        0 <= i < entries.len() ==> (#[trigger] entries[i]).0@ != key) ==> same
                },
                Call::Delete { key: k, removed } => {
                    &&& removed matches Ok(removed) && (removed <==> old.contains_key(k@))
                    &&& if k@ == key {
                        !new.contains_key(key)
                    } else {
                        same
                    }
                },
                Call::DeleteMany { keys, flags } => {
                    &&& flags matches Ok(flags) && flags.len() == keys.len() && forall|i: int|
                        0 <= i < keys.len() ==> (#[trigger] flags[i] <==> old.contains_key(keys[i]@)
                            && !names_key(keys.take(i), keys[i]@))
                    &&& if names_key(keys, key) {
                        !new.contains_key(key)
                    } else {
                        same
                    }
                },
            }
        }),
{
    let old = before.contents();
    match call {
        Call::Get { key: k, found } => {
            reveal_with_fuel(counted, 2);
        },
        Call::GetMany { keys, values } => {
            if before.fetched() + keys.len() <= usize::MAX {
                lemma_counted(before.fetched(), keys.len());
            }
            let told = values->Ok_0;
            assert forall|i: int| 0 <= i < keys.len() implies match #[trigger] told[i] {
                Some(value) => old.contains_key(keys[i]@) && value@ == old[keys[i]@],
                None => !old.contains_key(keys[i]@),
            } by {
                assert(shown(told[i]) == laws::lookup(old, keys[i]@));
            }
        },
        Call::PutMany { entries, .. } => {
            lemma_last_insert_stays(old, entries, key);
        },
        Call::DeleteMany { keys, flags } => {
            lemma_dropped(old, keys, key);
            let told = flags->Ok_0;
            assert forall|i: int| 0 <= i < keys.len() implies (#[trigger] told[i]
                <==> old.contains_key(keys[i]@) && !names_key(keys.take(i), keys[i]@)) by {
                lemma_dropped(old, keys.take(i), keys[i]@);
            }
        },
        _ => {},
    }
}

} // verus!
