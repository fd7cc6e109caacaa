//! Concurrency-limiting middleware tier.
//!
//! A [`SemState`] caps how many operations run against a tier at once. Two
//! things this buys:
//!
//! - **Origin protection:** a remote store sees at most `limit` in-flight
//!   requests from this process, no matter how many callers fan in.
//! - **Transient-memory bounding:** fill memory is at most roughly `limit` times
//!   the value size instead of the number of callers times the value size.
//!
//! The permit is held for the full operation, batches count as one operation
//! (they are one origin round-trip), and admission is unfair (released waiters
//! re-race).

use core::task::Waker;
use vstd::prelude::*;

use crate::text::wrap;
use crate::tier::{Call, Displaced, Page, Tier, TierList, TierRead, TierWrite};
use crate::wake;
use crate::wake::{drain, enlist};

verus! {

/// The permits of a [`LimitedTier`] and the tasks waiting for one.
pub struct SemState {
    available: usize,
    wakers: Vec<Waker>,
    limit: Ghost<nat>,
    granted: Ghost<nat>,
}

impl SemState {
    /// No more permits are there than the limit.
    pub closed spec fn wf(&self) -> bool {
        self.available <= self.limit@ <= usize::MAX
    }

    /// How many operations may run at once.
    pub closed spec fn limit(&self) -> nat {
        self.limit@
    }

    /// How many operations hold a permit.
    pub closed spec fn in_flight(&self) -> nat {
        (self.limit@ - self.available) as nat
    }

    /// How many permits were ever given out.
    pub closed spec fn granted(&self) -> nat {
        self.granted@
    }

    /// The wakers of the waiting tasks.
    pub closed spec fn waiting(&self) -> Seq<Waker> {
        self.wakers@
    }

    /// At most `limit` operations are ever in flight.
    pub proof fn law_limit_is_kept(&self)
        requires
            self.wf(),
        ensures
            self.in_flight() <= self.limit(),
    {
    }

    /// All of `limit` permits are free.
    #[must_use]
    pub fn new(limit: usize) -> (state: Self)
        ensures
            state.wf(),
            state.limit() == limit,
            state.in_flight() == 0,
            state.granted() == 0,
            state.waiting() == Seq::<Waker>::empty(),
    {
        SemState {
            available: limit,
            wakers: Vec::new(),
            limit: Ghost(limit as nat),
            granted: Ghost(0),
        }
    }

    /// Takes a permit if one is free.
    pub fn take(&mut self) -> (admitted: bool)
        requires
            old(self).wf(),
        ensures
            final(self).wf(),
            final(self).limit() == old(self).limit(),
            final(self).waiting() == old(self).waiting(),
            admitted <==> old(self).in_flight() < old(self).limit(),
            final(self).in_flight() == old(self).in_flight() + if admitted {
                1int
            } else {
                0int
            },
            final(self).granted() == old(self).granted() + if admitted {
                1int
            } else {
                0int
            },
    {
        if self.available > 0 {
            self.available -= 1;
            self.granted = Ghost(self.granted@ + 1);
            true
        } else {
            false
        }
    }

    /// Takes a permit if one is free; otherwise registers `waker` for the next
    /// release.
    pub fn try_acquire(&mut self, waker: &Waker) -> (admitted: bool)
        requires
            old(self).wf(),
        ensures
            final(self).wf(),
            final(self).limit() == old(self).limit(),
            admitted <==> old(self).in_flight() < old(self).limit(),
            admitted ==> {
                &&& final(self).in_flight() == old(self).in_flight() + 1
                &&& final(self).granted() == old(self).granted() + 1
                &&& final(self).waiting() == old(self).waiting()
            },
            !admitted ==> {
                &&& final(self).in_flight() == old(self).in_flight()
                &&& final(self).granted() == old(self).granted()
                &&& wake::enlisted(old(self).waiting(), *waker, final(self).waiting())
            },
    {
        if self.take() {
            true
        } else {
            enlist(&mut self.wakers, waker);
            false
        }
    }

    /// Returns a permit and the wakers to notify; waking all lets waiters
    /// re-race, which cannot lose wakeups.
    pub fn release(&mut self) -> (woken: Vec<Waker>)
        requires
            old(self).wf(),
            old(self).in_flight() > 0,
        ensures
            final(self).wf(),
            final(self).limit() == old(self).limit(),
            final(self).in_flight() == old(self).in_flight() - 1,
            final(self).granted() == old(self).granted(),
            final(self).waiting() == Seq::<Waker>::empty(),
            woken@ == old(self).waiting(),
    {
        self.available += 1;
        drain(&mut self.wakers)
    }
}

/// What concurrent callers do with the permits of one tier, in whatever order
/// they come.
pub enum Step {
    /// The call asks to be admitted to the inner tier.
    Ask { call: nat },
    /// The call, if it was admitted, has ended there, well or with an error.
    End { call: nat },
}

/// The calls that are in flight on the inner tier after `steps`. A call is
/// admitted if fewer than `limit` others are.
pub open spec fn flying(limit: nat, steps: Seq<Step>) -> Set<nat>
    decreases steps.len(),
{
    if steps.len() == 0 {
        Set::empty()
    } else {
        let before = flying(limit, steps.drop_last());
        match steps.last() {
            Step::Ask { call } => if before.len() < limit {
                before.insert(call)
            } else {
                before
            },
            Step::End { call } => before.remove(call),
        }
    }
}

/// However concurrent calls come and go, at every moment at most `limit` of
/// them are in flight on the inner tier.
pub proof fn law_concurrent_calls_are_limited(limit: nat, steps: Seq<Step>, moment: int)
    requires
        0 <= moment <= steps.len(),
    ensures
        flying(limit, steps.take(moment)).finite(),
        flying(limit, steps.take(moment)).len() <= limit,
    decreases moment,
{
    if moment > 0 {
        law_concurrent_calls_are_limited(limit, steps, moment - 1);
        assert(steps.take(moment).drop_last() =~= steps.take(moment - 1));
    }
}

/// The permits count exactly the calls in flight: a new call is admitted where
/// [`SemState::try_acquire`] says so, and takes one permit; a call that ends
/// gives one back.
pub proof fn law_permits_count_the_calls(state: SemState, steps: Seq<Step>, call: nat)
    requires
        state.wf(),
        flying(state.limit(), steps).len() == state.in_flight(),
    ensures
        ({
            let now = flying(state.limit(), steps);
            let asked = flying(state.limit(), steps.push(Step::Ask { call }));
            let ended = flying(state.limit(), steps.push(Step::End { call }));
            &&& !now.contains(call) ==> {
                &&& asked.contains(call) <==> state.in_flight() < state.limit()
                &&& asked.len() == state.in_flight() + if state.in_flight() < state.limit() {
                    1int
                } else {
                    0int
                }
            }
            &&& now.contains(call) ==> ended.len() == state.in_flight() - 1
        }),
{
    let limit = state.limit();
    law_concurrent_calls_are_limited(limit, steps, steps.len() as int);
    assert(steps.take(steps.len() as int) =~= steps);
    assert(steps.push(Step::Ask { call }).drop_last() =~= steps);
    assert(steps.push(Step::End { call }).drop_last() =~= steps);
}

/// Middleware tier that admits at most `limit` concurrent operations to its
/// inner tier.
///
/// Every operation holds a permit from beginning to end. Tasks that share a
/// tier keep a [`SemState`] of their own beside it, and wait on
/// [`SemState::try_acquire`].
pub struct LimitedTier<T> {
    inner: T,
    name: String,
    permits: SemState,
}

impl<T> LimitedTier<T> {
    /// The wrapped tier.
    pub closed spec fn wrapped(&self) -> T {
        self.inner
    }

    /// The permits.
    pub closed spec fn permits(&self) -> SemState {
        self.permits
    }
}

impl<T: Tier> LimitedTier<T> {
    /// Wraps `inner`, admitting at most `limit` concurrent operations.
    pub fn new(inner: T, limit: usize) -> (limited: Self)
        requires
            inner.inv(),
            limit > 0,
        ensures
            limited.inv(),
            limited.wrapped() == inner,
            limited.permits().limit() == limit,
            limited.permits().in_flight() == 0,
            limited.permits().granted() == 0,
            limited.label() == "limited("@ + inner.label() + ")"@,
    {
        let name = wrap("limited(", inner.name(), ")");
        LimitedTier { inner, name, permits: SemState::new(limit) }
    }
}

impl<T: Tier> Tier for LimitedTier<T> {
    type Key = T::Key;

    type Value = T::Value;

    type Error = T::Error;

    /// Between calls every permit is free.
    closed spec fn inv(&self) -> bool {
        &&& self.inner.inv()
        &&& self.permits.wf()
        &&& self.permits.limit() > 0
        &&& self.permits.in_flight() == 0
        &&& self.permits.waiting() == Seq::<Waker>::empty()
    }

    closed spec fn history(&self) -> Seq<Call<T::Key, T::Value, T::Error>> {
        self.inner.history()
    }

    closed spec fn label(&self) -> Seq<char> {
        self.name@
    }

    /// The inner tier served the very same call, and the call took one permit
    /// and gave it back.
    open spec fn promised(
        before: Self,
        after: Self,
        call: Call<T::Key, T::Value, T::Error>,
    ) -> bool {
        &&& after.wrapped().label() == before.wrapped().label()
        &&& after.wrapped().history() == before.wrapped().history().push(call)
        &&& T::promised(before.wrapped(), after.wrapped(), call)
        &&& after.permits().limit() == before.permits().limit()
        &&& after.permits().granted() == before.permits().granted() + 1
        &&& after.permits().in_flight() == before.permits().in_flight()
    }

    fn name(&self) -> (name: &str) {
        self.name.as_str()
    }
}

impl<T: TierRead> TierRead for LimitedTier<T> {
    fn get(&mut self, key: &T::Key) -> (found: Result<Option<T::Value>, T::Error>) {
        let _admitted = self.permits.take();
        let found = self.inner.get(key);
        let _woken = self.permits.release();
        found
    }

    fn contains(&mut self, key: &T::Key) -> (present: Result<bool, T::Error>) {
        let _admitted = self.permits.take();
        let present = self.inner.contains(key);
        let _woken = self.permits.release();
        present
    }

    fn get_many(&mut self, keys: &[T::Key]) -> (values: Result<Vec<Option<T::Value>>, T::Error>) {
        let _admitted = self.permits.take();
        let values = self.inner.get_many(keys);
        let _woken = self.permits.release();
        values
    }
}

impl<T: TierWrite> TierWrite for LimitedTier<T> {
    fn put(&mut self, key: T::Key, value: T::Value) -> (displaced: Result<
        Displaced<T::Key, T::Value>,
        T::Error,
    >) {
        let _admitted = self.permits.take();
        let displaced = self.inner.put(key, value);
        let _woken = self.permits.release();
        displaced
    }

    fn delete(&mut self, key: &T::Key) -> (removed: Result<bool, T::Error>) {
        let _admitted = self.permits.take();
        let removed = self.inner.delete(key);
        let _woken = self.permits.release();
        removed
    }

    fn put_many(&mut self, entries: Vec<(T::Key, T::Value)>) -> (displaced: Result<
        Displaced<T::Key, T::Value>,
        T::Error,
    >) {
        let _admitted = self.permits.take();
        let displaced = self.inner.put_many(entries);
        let _woken = self.permits.release();
        displaced
    }

    fn delete_many(&mut self, keys: &[T::Key]) -> (removed: Result<Vec<bool>, T::Error>) {
        let _admitted = self.permits.take();
        let removed = self.inner.delete_many(keys);
        let _woken = self.permits.release();
        removed
    }
}

impl<T: TierList> TierList for LimitedTier<T> {
    type Cursor = T::Cursor;

    /// The page is the inner tier's, and listing took one permit and gave it
    /// back.
    open spec fn listed(
        before: Self,
        after: Self,
        cursor: Option<T::Cursor>,
        limit: usize,
        page: Result<Page<T::Key, T::Cursor>, T::Error>,
    ) -> bool {
        &&& T::listed(before.wrapped(), after.wrapped(), cursor, limit, page)
        &&& after.permits().limit() == before.permits().limit()
        &&& after.permits().granted() == before.permits().granted() + 1
        &&& after.permits().in_flight() == before.permits().in_flight()
    }

    fn list(&mut self, cursor: Option<T::Cursor>, limit: usize) -> (page: Result<
        Page<T::Key, T::Cursor>,
        T::Error,
    >) {
        let _admitted = self.permits.take();
        let page = self.inner.list(cursor, limit);
        let _woken = self.permits.release();
        page
    }
}

/// A limited tier adds a permit and changes nothing else: the inner tier serves
/// every call, once and as it is, and its answer is the answer. One permit was
/// taken for it, and is back.
pub proof fn law_limited_tiers_pass_every_call_on<T: Tier>(
    before: LimitedTier<T>,
    after: LimitedTier<T>,
    call: Call<T::Key, T::Value, T::Error>,
)
    requires
        LimitedTier::promised(before, after, call),
    ensures
        after.wrapped().history() == before.wrapped().history().push(call),
        T::promised(before.wrapped(), after.wrapped(), call),
        after.permits().granted() == before.permits().granted() + 1,
        after.permits().in_flight() == before.permits().in_flight(),
        after.permits().limit() == before.permits().limit(),
{
}

/// Listing goes to the inner tier as it is: the page is the inner tier's. One
/// permit was taken for it, and is back.
pub proof fn law_limited_tiers_pass_pages_on<T: TierList>(
    before: LimitedTier<T>,
    after: LimitedTier<T>,
    cursor: Option<T::Cursor>,
    limit: usize,
    page: Result<Page<T::Key, T::Cursor>, T::Error>,
)
    requires
        LimitedTier::listed(before, after, cursor, limit, page),
    ensures
        T::listed(before.wrapped(), after.wrapped(), cursor, limit, page),
        after.permits().granted() == before.permits().granted() + 1,
        after.permits().in_flight() == before.permits().in_flight(),
        after.permits().limit() == before.permits().limit(),
{
}

} // verus!
