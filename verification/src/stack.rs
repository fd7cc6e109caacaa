//! An ordered stack of tiers with a record of everything asked of them.
//!
//! Every call a router makes goes through [`Stack`]. The stack keeps one ghost
//! trace of the calls in the order in which they were made across *all*
//! tiers, tied by its invariant to the history of each single tier, and
//! counts activity per tier.

use vstd::prelude::*;

use crate::error::{Failure, TierFailure};
use crate::tier;
use crate::tier::{Call, Displaced, Tier, TierRead, TierWrite};

verus! {

/// One call, and the tier that served it.
pub struct Event<K, V, E> {
    /// Index of the tier.
    pub tier: nat,
    /// The call with its answer.
    pub call: Call<K, V, E>,
}

/// The calls of `trace` that tier `tier` served.
pub open spec fn calls_on<K, V, E>(trace: Seq<Event<K, V, E>>, tier: nat) -> Seq<Call<K, V, E>>
    decreases trace.len(),
{
    if trace.len() == 0 {
        Seq::empty()
    } else {
        let before = calls_on(trace.drop_last(), tier);
        if trace.last().tier == tier {
            before.push(trace.last().call)
        } else {
            before
        }
    }
}

/// Whether the tiers `after` came from the tiers `before` by `event`: its tier
/// keeps its promise of the call, and the others stay as they are.
pub open spec fn follows<T: Tier>(
    before: Seq<T>,
    event: Event<T::Key, T::Value, T::Error>,
    after: Seq<T>,
) -> bool {
    let tier = event.tier as int;
    &&& tier < before.len()
    &&& T::promised(before[tier], after[tier], event.call)
    &&& after == before.update(tier, after[tier])
}

/// What happened on a tier, in numbers.
pub struct Tally {
    /// Keys looked up and found.
    pub hits: nat,
    /// Keys looked up and not found.
    pub misses: nat,
    /// Entries accepted.
    pub puts: nat,
    /// Calls failed.
    pub errors: nat,
}

impl Tally {
    /// Both tallies together.
    pub open spec fn plus(self, other: Tally) -> Tally {
        Tally {
            hits: self.hits + other.hits,
            misses: self.misses + other.misses,
            puts: self.puts + other.puts,
            errors: self.errors + other.errors,
        }
    }
}

/// How many of `values` are present.
pub open spec fn present_in<V>(values: Seq<Option<V>>) -> nat
    decreases values.len(),
{
    if values.len() == 0 {
        0
    } else {
        present_in(values.drop_last()) + if values.last() is Some {
            1nat
        } else {
            0nat
        }
    }
}

/// What one call adds to its tier's tally. Existence checks and removals
/// count only when they fail.
pub open spec fn counts<K, V, E>(call: Call<K, V, E>) -> Tally {
    let none = Tally { hits: 0, misses: 0, puts: 0, errors: 0 };
    if call.failed() {
        Tally { errors: 1, ..none }
    } else {
        match call {
            Call::Get { found: Ok(Some(_)), .. } => Tally { hits: 1, ..none },
            Call::Get { found: Ok(None), .. } => Tally { misses: 1, ..none },
            Call::GetMany { values: Ok(values), .. } => Tally {
                hits: present_in(values),
                misses: (values.len() - present_in(values)) as nat,
                ..none
            },
            Call::Put { .. } => Tally { puts: 1, ..none },
            Call::PutMany { entries, .. } => Tally { puts: entries.len(), ..none },
            _ => none,
        }
    }
}

/// The tally of all of `calls`.
pub open spec fn tally<K, V, E>(calls: Seq<Call<K, V, E>>) -> Tally
    decreases calls.len(),
{
    if calls.len() == 0 {
        Tally { hits: 0, misses: 0, puts: 0, errors: 0 }
    } else {
        tally(calls.drop_last()).plus(counts(calls.last()))
    }
}

/// A count as a counter shows it: counters stop at their maximum.
pub open spec fn shown(count: nat) -> nat {
    if count <= u64::MAX {
        count
    } else {
        u64::MAX as nat
    }
}

/// Activity of one tier.
#[derive(Debug, Clone, PartialEq, Eq)]
pub struct TierStats {
    /// The tier's diagnostic name.
    pub name: String,
    /// Whether the router only ever reads the tier.
    pub read_only: bool,
    /// Keys looked up and found.
    pub hits: u64,
    /// Keys looked up and not found.
    pub misses: u64,
    /// Entries accepted.
    pub puts: u64,
    /// Calls failed.
    pub errors: u64,
}

struct Counters {
    hits: u64,
    misses: u64,
    puts: u64,
    errors: u64,
}

impl Counters {
    spec fn show(&self, tally: Tally) -> bool {
        &&& self.hits == shown(tally.hits)
        &&& self.misses == shown(tally.misses)
        &&& self.puts == shown(tally.puts)
        &&& self.errors == shown(tally.errors)
    }

    fn count(&mut self, hits: usize, misses: usize, puts: usize, errors: usize, seen: Ghost<Tally>)
        requires
            old(self).show(seen@),
        ensures
            final(self).show(
                seen@.plus(
                    Tally {
                        hits: hits as nat,
                        misses: misses as nat,
                        puts: puts as nat,
                        errors: errors as nat,
                    },
                ),
            ),
    {
        self.hits = self.hits.saturating_add(hits as u64);
        self.misses = self.misses.saturating_add(misses as u64);
        self.puts = self.puts.saturating_add(puts as u64);
        self.errors = self.errors.saturating_add(errors as u64);
    }
}

/// Counts the present values.
fn count_present<V>(values: &Vec<Option<V>>) -> (count: usize)
    ensures
        count == present_in(values@),
        count <= values@.len(),
{
    let mut count: usize = 0;
    let mut i: usize = 0;
    while i < values.len()
        invariant
            i <= values.len(),
            count <= i,
            count == present_in(values@.take(i as int)),
        decreases values.len() - i,
    {
        assert(values@.take(i + 1).drop_last() =~= values@.take(i as int));
        if values[i].is_some() {
            count += 1;
        }
        i += 1;
    }
    assert(values@.take(i as int) =~= values@);
    count
}

struct Lane<T: TierRead + TierWrite> {
    tier: T,
    read_only: bool,
    counters: Counters,
    born: Ghost<Seq<Call<T::Key, T::Value, T::Error>>>,
    calls: Ghost<Seq<Call<T::Key, T::Value, T::Error>>>,
}

impl<T: TierRead + TierWrite> Lane<T> {
    spec fn inv(&self) -> bool {
        &&& self.tier.inv()
        &&& self.tier.history() == self.born@ + self.calls@
        &&& self.counters.show(tally(self.calls@))
    }

    /// `self` is `before` after one more call.
    spec fn served(
        &self,
        before: Lane<T>,
        call: Call<T::Key, T::Value, T::Error>,
    ) -> bool {
        &&& self.noted(before, call)
        &&& T::promised(before.tier, self.tier, call)
    }

    /// `self` has recorded `call` since `before`.
    spec fn noted(
        &self,
        before: Lane<T>,
        call: Call<T::Key, T::Value, T::Error>,
    ) -> bool {
        &&& self.inv()
        &&& self.read_only == before.read_only
        &&& self.tier.label() == before.tier.label()
        &&& self.born@ == before.born@
        &&& self.calls@ == before.calls@.push(call)
    }

    fn note(
        &mut self,
        hits: usize,
        misses: usize,
        puts: usize,
        errors: usize,
        call: Ghost<Call<T::Key, T::Value, T::Error>>,
    )
        requires
            old(self).tier.inv(),
            old(self).tier.history() == (old(self).born@ + old(self).calls@).push(call@),
            old(self).counters.show(tally(old(self).calls@)),
            counts(call@) == (Tally {
                hits: hits as nat,
                misses: misses as nat,
                puts: puts as nat,
                errors: errors as nat,
            }),
        ensures
            final(self).noted(*old(self), call@),
            final(self).tier == old(self).tier,
    {
        proof {
            assert(self.calls@.push(call@).drop_last() =~= self.calls@);
            assert(self.tier.history() =~= self.born@ + self.calls@.push(call@));
        }
        let seen: Ghost<Tally> = Ghost(tally(self.calls@));
        self.counters.count(hits, misses, puts, errors, seen);
        self.calls = Ghost(self.calls@.push(call@));
    }

    fn get(&mut self, key: &T::Key) -> (found: Result<Option<T::Value>, T::Error>)
        requires
            old(self).inv(),
        ensures
            final(self).served(*old(self), Call::Get { key: *key, found }),
    {
        let found = self.tier.get(key);
        let call: Ghost<Call<T::Key, T::Value, T::Error>> = Ghost(Call::Get { key: *key, found });
        match &found {
            Ok(Some(_)) => self.note(1, 0, 0, 0, call),
            Ok(None) => self.note(0, 1, 0, 0, call),
            Err(_) => self.note(0, 0, 0, 1, call),
        }
        found
    }

    fn contains(&mut self, key: &T::Key) -> (present: Result<bool, T::Error>)
        requires
            old(self).inv(),
        ensures
            final(self).served(*old(self), Call::Exists { key: *key, present }),
    {
        let present = self.tier.contains(key);
        let call: Ghost<Call<T::Key, T::Value, T::Error>> = Ghost(
            Call::Exists { key: *key, present },
        );
        match &present {
            Ok(_) => self.note(0, 0, 0, 0, call),
            Err(_) => self.note(0, 0, 0, 1, call),
        }
        present
    }

    fn get_many(&mut self, keys: &[T::Key]) -> (values: Result<Vec<Option<T::Value>>, T::Error>)
        requires
            old(self).inv(),
        ensures
            final(self).served(
                *old(self),
                Call::GetMany { keys: keys@, values: tier::seq_answer(values) },
            ),
    {
        let values = self.tier.get_many(keys);
        let call: Ghost<Call<T::Key, T::Value, T::Error>> = Ghost(
            Call::GetMany { keys: keys@, values: tier::seq_answer(values) },
        );
        match &values {
            Ok(found) => {
                let hits: usize = count_present(found);
                self.note(hits, found.len() - hits, 0, 0, call)
            },
            Err(_) => self.note(0, 0, 0, 1, call),
        }
        values
    }

    fn put(&mut self, key: T::Key, value: T::Value) -> (displaced: Result<
        Displaced<T::Key, T::Value>,
        T::Error,
    >)
        requires
            old(self).inv(),
        ensures
            final(self).served(
                *old(self),
                Call::Put { key, value, displaced: tier::seq_answer(displaced) },
            ),
    {
        let ghost asked = (key, value);
        let displaced = self.tier.put(key, value);
        let call: Ghost<Call<T::Key, T::Value, T::Error>> = Ghost(
            Call::Put { key: asked.0, value: asked.1, displaced: tier::seq_answer(displaced) },
        );
        match &displaced {
            Ok(_) => self.note(0, 0, 1, 0, call),
            Err(_) => self.note(0, 0, 0, 1, call),
        }
        displaced
    }

    fn put_many(&mut self, entries: Vec<(T::Key, T::Value)>) -> (displaced: Result<
        Displaced<T::Key, T::Value>,
        T::Error,
    >)
        requires
            old(self).inv(),
        ensures
            final(self).served(
                *old(self),
                Call::PutMany { entries: entries@, displaced: tier::seq_answer(displaced) },
            ),
    {
        let count: usize = entries.len();
        let ghost asked = entries@;
        let displaced = self.tier.put_many(entries);
        let call: Ghost<Call<T::Key, T::Value, T::Error>> = Ghost(
            Call::PutMany { entries: asked, displaced: tier::seq_answer(displaced) },
        );
        match &displaced {
            Ok(_) => self.note(0, 0, count, 0, call),
            Err(_) => self.note(0, 0, 0, 1, call),
        }
        displaced
    }

    fn delete(&mut self, key: &T::Key) -> (removed: Result<bool, T::Error>)
        requires
            old(self).inv(),
        ensures
            final(self).served(*old(self), Call::Delete { key: *key, removed }),
    {
        let removed = self.tier.delete(key);
        let call: Ghost<Call<T::Key, T::Value, T::Error>> = Ghost(
            Call::Delete { key: *key, removed },
        );
        match &removed {
            Ok(_) => self.note(0, 0, 0, 0, call),
            Err(_) => self.note(0, 0, 0, 1, call),
        }
        removed
    }

    fn delete_many(&mut self, keys: &[T::Key]) -> (removed: Result<Vec<bool>, T::Error>)
        requires
            old(self).inv(),
        ensures
            final(self).served(
                *old(self),
                Call::DeleteMany { keys: keys@, flags: tier::seq_answer(removed) },
            ),
    {
        let removed = self.tier.delete_many(keys);
        let call: Ghost<Call<T::Key, T::Value, T::Error>> = Ghost(
            Call::DeleteMany { keys: keys@, flags: tier::seq_answer(removed) },
        );
        match &removed {
            Ok(_) => self.note(0, 0, 0, 0, call),
            Err(_) => self.note(0, 0, 0, 1, call),
        }
        removed
    }
}

/// An ordered stack of tiers, topmost first.
pub struct Stack<T: TierRead + TierWrite> {
    lanes: Vec<Lane<T>>,
    trace: Ghost<Seq<Event<T::Key, T::Value, T::Error>>>,
    moments: Ghost<Seq<Seq<T>>>,
}

impl<T: TierRead + TierWrite> Stack<T> {
    /// Every tier is sound, its counters agree with the trace, and the trace
    /// holds exactly the calls it served since it was pushed, each of them as
    /// the tier promised.
    pub closed spec fn inv(&self) -> bool {
        &&& forall|i: int|
            0 <= i < self.lanes@.len() ==> {
                &&& (#[trigger] self.lanes@[i]).inv()
                &&& self.lanes@[i].calls@ == calls_on(self.trace@, i as nat)
            }
        &&& self.moments@.len() == self.trace@.len() + 1
        &&& self.moments@[self.trace@.len() as int] == self.tiers()
        &&& forall|n: int|
            0 <= n < self.trace@.len() ==> follows(
                self.moments@[n],
                #[trigger] self.trace@[n],
                self.moments@[n + 1],
            )
    }

    spec fn tiers(&self) -> Seq<T> {
        Seq::new(self.lanes@.len(), |i: int| self.lanes@[i].tier)
    }

    /// The tiers as they were after the first `n` calls of the trace.
    pub closed spec fn moment(&self, n: int) -> Seq<T> {
        self.moments@[n]
    }

    /// Every call of the trace changed the tiers as the tier that served it
    /// promises, up to what they are now.
    pub proof fn law_promises_are_kept(&self)
        requires
            self.inv(),
        ensures
            forall|n: int|
                0 <= n < self.trace().len() ==> follows(
                    self.moment(n),
                    #[trigger] self.trace()[n],
                    self.moment(n + 1),
                ),
            self.moment(self.trace().len() as int).len() == self.names().len(),
            forall|i: int|
                0 <= i < self.names().len() ==> #[trigger] self.moment(
                    self.trace().len() as int,
                )[i] == self.tier(i),
    {
        assert forall|n: int| 0 <= n < self.trace().len() implies follows(
            self.moment(n),
            #[trigger] self.trace()[n],
            self.moment(n + 1),
        ) by {
            assert(follows(self.moments@[n], self.trace@[n], self.moments@[n + 1]));
        }
    }

    /// Everything asked of the tiers, in order.
    pub closed spec fn trace(&self) -> Seq<Event<T::Key, T::Value, T::Error>> {
        self.trace@
    }

    /// The tiers' names.
    pub closed spec fn names(&self) -> Seq<Seq<char>> {
        Seq::new(self.lanes@.len(), |i: int| self.lanes@[i].tier.label())
    }

    /// Which tiers may only be read.
    pub closed spec fn read_only(&self) -> Seq<bool> {
        Seq::new(self.lanes@.len(), |i: int| self.lanes@[i].read_only)
    }

    /// The calls that tier `tier` had served before it was pushed.
    pub closed spec fn born(&self, tier: int) -> Seq<Call<T::Key, T::Value, T::Error>> {
        self.lanes@[tier].born@
    }

    /// Tier `tier` itself.
    pub closed spec fn tier(&self, tier: int) -> T {
        self.lanes@[tier].tier
    }

    /// The trace is the tiers' own record: what a tier says it served is what
    /// it had served before, followed by its part of the trace.
    pub proof fn law_trace_is_faithful(&self, tier: int)
        requires
            self.inv(),
            0 <= tier < self.names().len(),
        ensures
            self.tier(tier).inv(),
            self.tier(tier).label() == self.names()[tier],
            self.tier(tier).history() == self.born(tier) + calls_on(self.trace(), tier as nat),
    {
        assert(self.lanes@[tier].inv());
    }

    /// Names and flags speak of the same tiers.
    pub proof fn lemma_len(&self)
        ensures
            self.names().len() == self.read_only().len(),
            self.names().len() <= usize::MAX,
    {
        assert(self.lanes.len() == self.lanes@.len());
    }

    /// A stack without tiers.
    pub fn new() -> (stack: Self)
        ensures
            stack.inv(),
            stack.trace() == Seq::<Event<T::Key, T::Value, T::Error>>::empty(),
            stack.names() == Seq::<Seq<char>>::empty(),
            stack.read_only() == Seq::<bool>::empty(),
    {
        let stack = Stack {
            lanes: Vec::new(),
            trace: Ghost(Seq::empty()),
            moments: Ghost(Seq::empty().push(Seq::empty())),
        };
        assert(stack.tiers() =~= Seq::empty());
        stack
    }

    /// Adds `tier` below all others.
    pub fn push(&mut self, tier: T, read_only: bool)
        requires
            old(self).inv(),
            old(self).trace() == Seq::<Event<T::Key, T::Value, T::Error>>::empty(),
            tier.inv(),
        ensures
            final(self).inv(),
            final(self).trace() == old(self).trace(),
            final(self).names() == old(self).names().push(tier.label()),
            final(self).read_only() == old(self).read_only().push(read_only),
            final(self).tier(old(self).names().len() as int) == tier,
            forall|i: int|
                0 <= i < old(self).names().len() ==> #[trigger] final(self).tier(i) == old(
                    self,
                ).tier(i),
    {
        let ghost born = tier.history();
        let lane = Lane {
            tier,
            read_only,
            counters: Counters { hits: 0, misses: 0, puts: 0, errors: 0 },
            born: Ghost(born),
            calls: Ghost(Seq::empty()),
        };
        assert(lane.tier.history() =~= lane.born@ + lane.calls@);
        self.lanes.push(lane);
        self.moments = Ghost(Seq::empty().push(self.tiers()));
        assert(self.names() =~= old(self).names().push(tier.label()));
        assert(self.read_only() =~= old(self).read_only().push(read_only));
    }

    /// Number of tiers.
    #[must_use]
    pub fn len(&self) -> (len: usize)
        ensures
            len == self.names().len(),
            len == self.read_only().len(),
    {
        self.lanes.len()
    }

    /// Whether tier `tier` accepts writes.
    #[must_use]
    pub fn writable(&self, tier: usize) -> (writable: bool)
        requires
            tier < self.names().len(),
        ensures
            writable == !self.read_only()[tier as int],
    {
        !self.lanes[tier].read_only
    }

    /// The failure of tier `tier` with `source`.
    pub fn failure(&self, tier: usize, source: T::Error) -> (failure: TierFailure<T::Error>)
        requires
            tier < self.names().len(),
        ensures
            failure@ == (Failure {
                tier: tier as nat,
                name: self.names()[tier as int],
                source,
            }),
    {
        TierFailure::new(tier, self.lanes[tier].tier.name(), source)
    }

    /// `self` is `before` after one more call.
    pub open spec fn served(
        &self,
        before: Stack<T>,
        tier: nat,
        call: Call<T::Key, T::Value, T::Error>,
    ) -> bool {
        &&& self.inv()
        &&& self.names() == before.names()
        &&& self.read_only() == before.read_only()
        &&& self.trace() == before.trace().push(Event { tier, call })
        &&& forall|i: int|
            0 <= i < self.names().len() ==> #[trigger] self.born(i) == before.born(i)
        &&& forall|n: int|
            0 <= n <= before.trace().len() ==> #[trigger] self.moment(n) == before.moment(n)
    }

    proof fn lemma_served(
        self,
        before: Stack<T>,
        tier: int,
        call: Call<T::Key, T::Value, T::Error>,
    )
        requires
            before.inv(),
            0 <= tier < before.lanes@.len(),
            self.lanes@.len() == before.lanes@.len(),
            self.lanes@[tier].served(before.lanes@[tier], call),
            forall|i: int|
                0 <= i < self.lanes@.len() && i != tier ==> #[trigger] self.lanes@[i]
                    == before.lanes@[i],
            self.trace@ == before.trace@.push(Event { tier: tier as nat, call }),
            self.moments@ == before.moments@.push(self.tiers()),
        ensures
            self.served(before, tier as nat, call),
    {
        let count = before.trace@.len() as int;
        assert(self.tiers() =~= before.tiers().update(tier, self.tiers()[tier]));
        assert(follows(before.tiers(), self.trace@[count], self.tiers()));
        assert forall|n: int| 0 <= n < self.trace@.len() implies follows(
            self.moments@[n],
            #[trigger] self.trace@[n],
            self.moments@[n + 1],
        ) by {
            if n < count {
                assert(follows(before.moments@[n], before.trace@[n], before.moments@[n + 1]));
            }
        }
        assert(self.trace@.drop_last() =~= before.trace@);
        assert(self.names() =~= before.names());
        assert(self.read_only() =~= before.read_only());
        assert forall|i: int| 0 <= i < self.lanes@.len() implies {
            &&& (#[trigger] self.lanes@[i]).inv()
            &&& self.lanes@[i].calls@ == calls_on(self.trace@, i as nat)
        } by {
            assert(before.lanes@[i].inv());
        }
    }

    /// Looks `key` up in tier `tier`.
    pub fn get(&mut self, tier: usize, key: &T::Key) -> (found: Result<
        Option<T::Value>,
        T::Error,
    >)
        requires
            old(self).inv(),
            tier < old(self).names().len(),
        ensures
            final(self).served(*old(self), tier as nat, Call::Get { key: *key, found }),
    {
        let ghost before = *self;
        let found = self.lanes[tier].get(key);
        let ghost call = Call::Get { key: *key, found };
        self.trace = Ghost(self.trace@.push(Event { tier: tier as nat, call }));
        self.moments = Ghost(self.moments@.push(self.tiers()));
        proof {
            self.lemma_served(before, tier as int, call);
        }
        found
    }

    /// Asks tier `tier` whether it holds `key`.
    pub fn contains(&mut self, tier: usize, key: &T::Key) -> (present: Result<bool, T::Error>)
        requires
            old(self).inv(),
            tier < old(self).names().len(),
        ensures
            final(self).served(*old(self), tier as nat, Call::Exists { key: *key, present }),
    {
        let ghost before = *self;
        let present = self.lanes[tier].contains(key);
        let ghost call = Call::Exists { key: *key, present };
        self.trace = Ghost(self.trace@.push(Event { tier: tier as nat, call }));
        self.moments = Ghost(self.moments@.push(self.tiers()));
        proof {
            self.lemma_served(before, tier as int, call);
        }
        present
    }

    /// Looks `keys` up in tier `tier`.
    pub fn get_many(&mut self, tier: usize, keys: &[T::Key]) -> (values: Result<
        Vec<Option<T::Value>>,
        T::Error,
    >)
        requires
            old(self).inv(),
            tier < old(self).names().len(),
        ensures
            final(self).served(
                *old(self),
                tier as nat,
                Call::GetMany { keys: keys@, values: tier::seq_answer(values) },
            ),
    {
        let ghost before = *self;
        let values = self.lanes[tier].get_many(keys);
        let ghost call = Call::GetMany { keys: keys@, values: tier::seq_answer(values) };
        self.trace = Ghost(self.trace@.push(Event { tier: tier as nat, call }));
        self.moments = Ghost(self.moments@.push(self.tiers()));
        proof {
            self.lemma_served(before, tier as int, call);
        }
        values
    }

    /// Inserts an entry into tier `tier`.
    pub fn put(&mut self, tier: usize, key: T::Key, value: T::Value) -> (displaced: Result<
        Displaced<T::Key, T::Value>,
        T::Error,
    >)
        requires
            old(self).inv(),
            tier < old(self).names().len(),
        ensures
            final(self).served(
                *old(self),
                tier as nat,
                Call::Put { key, value, displaced: tier::seq_answer(displaced) },
            ),
    {
        let ghost before = *self;
        let displaced = self.lanes[tier].put(key, value);
        let ghost call = Call::Put { key, value, displaced: tier::seq_answer(displaced) };
        self.trace = Ghost(self.trace@.push(Event { tier: tier as nat, call }));
        self.moments = Ghost(self.moments@.push(self.tiers()));
        proof {
            self.lemma_served(before, tier as int, call);
        }
        displaced
    }

    /// Inserts entries into tier `tier`.
    pub fn put_many(&mut self, tier: usize, entries: Vec<(T::Key, T::Value)>) -> (displaced: Result<
        Displaced<T::Key, T::Value>,
        T::Error,
    >)
        requires
            old(self).inv(),
            tier < old(self).names().len(),
        ensures
            final(self).served(
                *old(self),
                tier as nat,
                Call::PutMany { entries: entries@, displaced: tier::seq_answer(displaced) },
            ),
    {
        let ghost before = *self;
        let displaced = self.lanes[tier].put_many(entries);
        let ghost call = Call::PutMany {
            entries: entries@,
            displaced: tier::seq_answer(displaced),
        };
        self.trace = Ghost(self.trace@.push(Event { tier: tier as nat, call }));
        self.moments = Ghost(self.moments@.push(self.tiers()));
        proof {
            self.lemma_served(before, tier as int, call);
        }
        displaced
    }

    /// Removes `key` from tier `tier`.
    pub fn delete(&mut self, tier: usize, key: &T::Key) -> (removed: Result<bool, T::Error>)
        requires
            old(self).inv(),
            tier < old(self).names().len(),
        ensures
            final(self).served(*old(self), tier as nat, Call::Delete { key: *key, removed }),
    {
        let ghost before = *self;
        let removed = self.lanes[tier].delete(key);
        let ghost call = Call::Delete { key: *key, removed };
        self.trace = Ghost(self.trace@.push(Event { tier: tier as nat, call }));
        self.moments = Ghost(self.moments@.push(self.tiers()));
        proof {
            self.lemma_served(before, tier as int, call);
        }
        removed
    }

    /// Removes `keys` from tier `tier`.
    pub fn delete_many(&mut self, tier: usize, keys: &[T::Key]) -> (removed: Result<
        Vec<bool>,
        T::Error,
    >)
        requires
            old(self).inv(),
            tier < old(self).names().len(),
        ensures
            final(self).served(
                *old(self),
                tier as nat,
                Call::DeleteMany { keys: keys@, flags: tier::seq_answer(removed) },
            ),
    {
        let ghost before = *self;
        let removed = self.lanes[tier].delete_many(keys);
        let ghost call = Call::DeleteMany { keys: keys@, flags: tier::seq_answer(removed) };
        self.trace = Ghost(self.trace@.push(Event { tier: tier as nat, call }));
        self.moments = Ghost(self.moments@.push(self.tiers()));
        proof {
            self.lemma_served(before, tier as int, call);
        }
        removed
    }

    /// Activity per tier, topmost first.
    #[must_use]
    pub fn stats(&self) -> (stats: Vec<TierStats>)
        requires
            self.inv(),
        ensures
            stats@.len() == self.names().len(),
            forall|i: int|
                0 <= i < stats@.len() ==> {
                    let seen = tally(calls_on(self.trace(), i as nat));
                    &&& (#[trigger] stats@[i]).name@ == self.names()[i]
                    &&& stats@[i].read_only == self.read_only()[i]
                    &&& stats@[i].hits == shown(seen.hits)
                    &&& stats@[i].misses == shown(seen.misses)
                    &&& stats@[i].puts == shown(seen.puts)
                    &&& stats@[i].errors == shown(seen.errors)
                },
    {
        let mut stats: Vec<TierStats> = Vec::with_capacity(self.lanes.len());
        let mut i: usize = 0;
        while i < self.lanes.len()
            invariant
                self.inv(),
                i <= self.lanes.len(),
                stats@.len() == i,
                forall|j: int|
                    0 <= j < i ==> {
                        let seen = tally(calls_on(self.trace(), j as nat));
                        &&& (#[trigger] stats@[j]).name@ == self.names()[j]
                        &&& stats@[j].read_only == self.read_only()[j]
                        &&& stats@[j].hits == shown(seen.hits)
                        &&& stats@[j].misses == shown(seen.misses)
                        &&& stats@[j].puts == shown(seen.puts)
                        &&& stats@[j].errors == shown(seen.errors)
                    },
            decreases self.lanes.len() - i,
        {
            let lane = &self.lanes[i];
            assert(self.lanes@[i as int].inv());
            stats.push(
                TierStats {
                    name: lane.tier.name().to_owned(),
                    read_only: lane.read_only,
                    hits: lane.counters.hits,
                    misses: lane.counters.misses,
                    puts: lane.counters.puts,
                    errors: lane.counters.errors,
                },
            );
            i += 1;
        }
        stats
    }
}

/// What a call adds to the counters of its tier. A call that fails is one error
/// and nothing else. A lookup counts each key as a hit or as a miss, an insert
/// each entry; existence checks and removals count nothing. A fresh tier has
/// counted nothing.
pub proof fn law_every_call_is_counted_once<K, V, E>(calls: Seq<Call<K, V, E>>, call: Call<K, V, E>)
    ensures
        ({
            let before = tally(calls);
            let after = tally(calls.push(call));
            let none = tally(Seq::<Call<K, V, E>>::empty());
            &&& none.hits == 0 && none.misses == 0 && none.puts == 0 && none.errors == 0
            &&& match call {
                Call::Get { found: Ok(found), .. } => {
                    &&& after.hits == before.hits + (if found is Some {
                        1int
                    } else {
                        0
                    })
                    &&& after.misses == before.misses + (if found is None {
                        1int
                    } else {
                        0
                    })
                    &&& after.puts == before.puts && after.errors == before.errors
                },
                Call::GetMany { values: Ok(values), .. } => {
                    &&& after.hits == before.hits + values.filter(
                        |value: Option<V>| value is Some,
                    ).len()
                    &&& after.hits + after.misses == before.hits + before.misses + values.len()
                    &&& after.puts == before.puts && after.errors == before.errors
                },
                Call::Put { displaced: Ok(_), .. } => {
                    &&& after.puts == before.puts + 1
                    &&& after.hits == before.hits && after.misses == before.misses && after.errors
                        == before.errors
                },
                Call::PutMany { entries, displaced: Ok(_) } => {
                    &&& after.puts == before.puts + entries.len()
                    &&& after.hits == before.hits && after.misses == before.misses && after.errors
                        == before.errors
                },
                Call::Exists { present: Ok(_), .. } => after == before,
                Call::Delete { removed: Ok(_), .. } => after == before,
                Call::DeleteMany { flags: Ok(_), .. } => after == before,
                _ => {
                    &&& after.errors == before.errors + 1
                    &&& after.hits == before.hits && after.misses == before.misses && after.puts
                        == before.puts
                },
            }
        }),
{
    assert(calls.push(call).drop_last() =~= calls);
    if let Call::GetMany { values: Ok(values), .. } = call {
        lemma_present(values);
    }
}

proof fn lemma_present<V>(values: Seq<Option<V>>)
    ensures
        present_in(values) == values.filter(|value: Option<V>| value is Some).len(),
        present_in(values) <= values.len(),
    decreases values.len(),
{
    reveal(Seq::filter);
    if values.len() > 0 {
        lemma_present(values.drop_last());
    }
}

/// Each tier's counters count the calls that it served, and no others.
pub proof fn law_calls_are_counted_where_they_are_served<K, V, E>(
    trace: Seq<Event<K, V, E>>,
    event: Event<K, V, E>,
    tier: nat,
)
    ensures
        calls_on(Seq::<Event<K, V, E>>::empty(), tier).len() == 0,
        calls_on(trace.push(event), tier) == if event.tier == tier {
            calls_on(trace, tier).push(event.call)
        } else {
            calls_on(trace, tier)
        },
{
    assert(trace.push(event).drop_last() =~= trace);
}

/// A counter shows its count, until it is too large to be shown.
pub proof fn law_counters_stop_at_their_maximum(count: nat)
    ensures
        count <= 18446744073709551615 ==> shown(count) == count,
        count > 18446744073709551615 ==> shown(count) == 18446744073709551615,
{
}

} // verus!
