//! Per-key single-flight gates: concurrent misses for the same key coalesce
//! into one fill instead of a thundering herd on the cold tier.
//!
//! [`SingleFlight`] is the set of gates as plain state. A task that wants a key
//! joins its gate, asks for it until it is admitted, and gives it back. A
//! gate disappears with the last task that is interested in it.

use core::task::Waker;
use vstd::prelude::*;

use crate::wake;
use crate::wake::{drain, enlist};

verus! {

/// Keys that can be told apart.
pub trait GateKey: Sized {
    /// What tells two keys apart.
    type Id;

    /// What tells this key apart.
    spec fn id(&self) -> Self::Id;

    /// Whether both are the same key.
    fn same(&self, other: &Self) -> (same: bool)
        ensures
            same == (self.id() == other.id()),
    ;

    /// The same key once more.
    fn duplicate(&self) -> (key: Self)
        ensures
            key.id() == self.id(),
    ;
}

impl GateKey for String {
    type Id = Seq<char>;

    open spec fn id(&self) -> Seq<char> {
        self@
    }

    fn same(&self, other: &Self) -> (same: bool) {
        *self == *other
    }

    fn duplicate(&self) -> (key: Self) {
        self.clone()
    }
}

impl GateKey for u64 {
    type Id = u64;

    open spec fn id(&self) -> u64 {
        *self
    }

    fn same(&self, other: &Self) -> (same: bool) {
        *self == *other
    }

    fn duplicate(&self) -> (key: Self) {
        *self
    }
}

/// A gate: held by one task, or free.
pub struct GateState {
    held: bool,
    wakers: Vec<Waker>,
}

impl GateState {
    /// Whether a task holds this gate.
    pub closed spec fn held(&self) -> bool {
        self.held
    }

    /// The wakers of the tasks that wait for it.
    pub closed spec fn waiting(&self) -> Seq<Waker> {
        self.wakers@
    }

    /// A free gate.
    #[must_use]
    pub fn new() -> (gate: Self)
        ensures
            !gate.held(),
            gate.waiting() == Seq::<Waker>::empty(),
    {
        GateState { held: false, wakers: Vec::new() }
    }

    /// Takes this gate if free; otherwise registers `waker` for the release.
    pub fn try_acquire(&mut self, waker: &Waker) -> (admitted: bool)
        ensures
            admitted == !old(self).held(),
            final(self).held(),
            admitted ==> final(self).waiting() == old(self).waiting(),
            !admitted ==> wake::enlisted(old(self).waiting(), *waker, final(self).waiting()),
    {
        if self.held {
            enlist(&mut self.wakers, waker);
            false
        } else {
            self.held = true;
            true
        }
    }

    /// Releases this gate, returning the wakers to notify. Waking all of them
    /// lets waiters re-race, which cannot lose wakeups.
    pub fn release(&mut self) -> (woken: Vec<Waker>)
        ensures
            !final(self).held(),
            final(self).waiting() == Seq::<Waker>::empty(),
            woken@ == old(self).waiting(),
    {
        self.held = false;
        drain(&mut self.wakers)
    }
}

/// What is known of one key's gate.
pub struct Gate {
    /// Whether a task holds it.
    pub held: bool,
    /// How many tasks hold it or wait for it.
    pub tasks: nat,
    /// The wakers of those that wait.
    pub waiting: Seq<Waker>,
}

/// Whether nobody holds `id`'s gate.
pub open spec fn free<I>(gates: Map<I, Gate>, id: I) -> bool {
    !gates[id].held
}

/// The gates once one more task is interested in `id`.
pub open spec fn joined<I>(gates: Map<I, Gate>, id: I) -> Map<I, Gate> {
    gates.insert(
        id,
        if gates.contains_key(id) {
            Gate { tasks: gates[id].tasks + 1, ..gates[id] }
        } else {
            Gate { held: false, tasks: 1, waiting: Seq::empty() }
        },
    )
}

/// The gates once a task took that of `id`.
pub open spec fn taken<I>(gates: Map<I, Gate>, id: I) -> Map<I, Gate> {
    gates.insert(id, Gate { held: true, ..gates[id] })
}

/// The gates once a task gave that of `id` back.
pub open spec fn given<I>(gates: Map<I, Gate>, id: I) -> Map<I, Gate> {
    if gates[id].tasks == 1 {
        gates.remove(id)
    } else {
        gates.insert(
            id,
            Gate { held: false, tasks: (gates[id].tasks - 1) as nat, waiting: Seq::empty() },
        )
    }
}

/// One holder per key at a time: once a gate was taken, nobody else is admitted
/// until it was given back.
pub proof fn law_one_holder_per_key<I>(gates: Map<I, Gate>, id: I)
    requires
        gates.contains_key(id),
        gates[id].tasks > 0,
        free(gates, id),
    ensures
        !free(taken(gates, id), id),
        !free(joined(taken(gates, id), id), id),
        free(given(joined(taken(gates, id), id), id), id),
        given(joined(taken(gates, id), id), id)[id].tasks == gates[id].tasks,
{
}

/// Distinct keys never contend: whatever happens to one key's gate, another's
/// stays as it is.
pub proof fn law_distinct_keys_never_contend<I>(gates: Map<I, Gate>, id: I, other: I)
    requires
        id != other,
    ensures
        joined(gates, id).contains_key(other) <==> gates.contains_key(other),
        taken(gates, id).contains_key(other) <==> gates.contains_key(other),
        given(gates, id).contains_key(other) <==> gates.contains_key(other),
        joined(gates, id)[other] == gates[other],
        taken(gates, id)[other] == gates[other],
        gates.contains_key(other) ==> given(gates, id)[other] == gates[other],
{
}

/// A gate that nobody else is interested in goes when it is given back: the set
/// of gates is what it was before its only task joined.
pub proof fn law_released_gates_go<I>(gates: Map<I, Gate>, id: I)
    requires
        !gates.contains_key(id),
    ensures
        given(taken(joined(gates, id), id), id) == gates,
{
    assert(given(taken(joined(gates, id), id), id) =~= gates);
}

/// What a task can do to the tasks of one key: joining raises their number by
/// one, taking and giving back decide who holds the key, and giving back lowers
/// the number by one. The key is forgotten with its last task, and only then;
/// those that wait stay on the list until it is given back.
pub proof fn law_keys_are_kept_while_tasks_want_them<I>(gates: Map<I, Gate>, id: I)
    ensures
        joined(gates, id).contains_key(id),
        !gates.contains_key(id) ==> {
            &&& joined(gates, id)[id].tasks == 1
            &&& !joined(gates, id)[id].held
            &&& joined(gates, id)[id].waiting.len() == 0
        },
        gates.contains_key(id) ==> {
            &&& joined(gates, id)[id].tasks == gates[id].tasks + 1
            &&& joined(gates, id)[id].held == gates[id].held
            &&& joined(gates, id)[id].waiting == gates[id].waiting
        },
        taken(gates, id).contains_key(id),
        taken(gates, id)[id].held,
        taken(gates, id)[id].tasks == gates[id].tasks,
        taken(gates, id)[id].waiting == gates[id].waiting,
        free(gates, id) <==> !gates[id].held,
        gates.contains_key(id) && gates[id].tasks > 0 ==> {
            &&& given(gates, id).contains_key(id) <==> gates[id].tasks > 1
            &&& gates[id].tasks > 1 ==> {
                &&& given(gates, id)[id].tasks == gates[id].tasks - 1
                &&& !given(gates, id)[id].held
                &&& given(gates, id)[id].waiting.len() == 0
            }
        },
{
}

struct Entry<K> {
    key: K,
    gate: GateState,
    tasks: usize,
}

impl<K> Entry<K> {
    spec fn gate(&self) -> Gate {
        Gate {
            held: self.gate.held(),
            tasks: self.tasks as nat,
            waiting: self.gate.waiting(),
        }
    }
}

/// Keyed single-flight: admits one holder per key at a time; others that ask
/// for the same key wait, then proceed one by one. Distinct keys never
/// contend.
pub struct SingleFlight<K> {
    entries: Vec<Entry<K>>,
}

/// Proof that its key's gate is held; given back to
/// [`SingleFlight::release`].
pub struct SingleFlightGuard<K> {
    key: K,
}

impl<K: GateKey> SingleFlightGuard<K> {
    /// The key whose gate is held.
    pub closed spec fn id(&self) -> K::Id {
        self.key.id()
    }

    /// The key whose gate is held.
    #[must_use]
    pub fn key(&self) -> (key: &K)
        ensures
            key.id() == self.id(),
    {
        &self.key
    }
}

/// The gates in `entries`.
spec fn gates_in<K: GateKey>(entries: Seq<Entry<K>>) -> Map<K::Id, Gate>
    decreases entries.len(),
{
    if entries.len() == 0 {
        Map::empty()
    } else {
        gates_in(entries.drop_last()).insert(entries.last().key.id(), entries.last().gate())
    }
}

spec fn distinct<K: GateKey>(entries: Seq<Entry<K>>) -> bool {
    forall|i: int, j: int|
        0 <= i < j < entries.len() ==> (#[trigger] entries[i]).key.id() != (
        #[trigger] entries[j]).key.id()
}

proof fn lemma_gates_in<K: GateKey>(entries: Seq<Entry<K>>)
    requires
        distinct(entries),
    ensures
        forall|i: int|
            0 <= i < entries.len() ==> {
                &&& gates_in(entries).contains_key((#[trigger] entries[i]).key.id())
                &&& gates_in(entries)[entries[i].key.id()] == entries[i].gate()
            },
        forall|id: K::Id|
            #[trigger] gates_in(entries).contains_key(id) ==> exists|i: int|
                0 <= i < entries.len() && (#[trigger] entries[i]).key.id() == id,
    decreases entries.len(),
{
    if entries.len() > 0 {
        let front = entries.drop_last();
        lemma_gates_in(front);
        assert forall|i: int| 0 <= i < entries.len() implies {
            &&& gates_in(entries).contains_key((#[trigger] entries[i]).key.id())
            &&& gates_in(entries)[entries[i].key.id()] == entries[i].gate()
        } by {
            if i < front.len() {
                assert(front[i] == entries[i]);
                assert(entries[i].key.id() != entries[entries.len() - 1].key.id());
            }
        }
        assert forall|id: K::Id| #[trigger] gates_in(entries).contains_key(id) implies exists|
            i: int,
        |
            0 <= i < entries.len() && (#[trigger] entries[i]).key.id() == id by {
            if id == entries.last().key.id() {
                assert(entries[entries.len() - 1].key.id() == id);
            } else {
                assert(gates_in(front).contains_key(id));
                let i = choose|i: int| 0 <= i < front.len() && (#[trigger] front[i]).key.id() == id;
                assert(entries[i].key.id() == id);
            }
        }
    }
}

/// Two sets of gates with the same entries are the same.
proof fn lemma_same_gates<K: GateKey>(entries: Seq<Entry<K>>, gates: Map<K::Id, Gate>)
    requires
        distinct(entries),
        forall|i: int|
            0 <= i < entries.len() ==> {
                &&& gates.contains_key((#[trigger] entries[i]).key.id())
                &&& gates[entries[i].key.id()] == entries[i].gate()
            },
        forall|id: K::Id|
            #[trigger] gates.contains_key(id) ==> exists|i: int|
                0 <= i < entries.len() && (#[trigger] entries[i]).key.id() == id,
    ensures
        gates_in(entries) == gates,
{
    lemma_gates_in(entries);
    let found = gates_in(entries);
    assert forall|id: K::Id| #[trigger] found.contains_key(id) <==> gates.contains_key(id) by {
        if found.contains_key(id) {
            let i = choose|i: int| 0 <= i < entries.len() && (#[trigger] entries[i]).key.id() == id;
            assert(gates.contains_key(entries[i].key.id()));
        }
        if gates.contains_key(id) {
            let i = choose|i: int| 0 <= i < entries.len() && (#[trigger] entries[i]).key.id() == id;
            assert(found.contains_key(entries[i].key.id()));
        }
    }
    assert forall|id: K::Id| #[trigger] found.contains_key(id) implies found[id] == gates[id] by {
        let i = choose|i: int| 0 <= i < entries.len() && (#[trigger] entries[i]).key.id() == id;
        assert(found[entries[i].key.id()] == entries[i].gate());
    }
    assert(found =~= gates);
}

impl<K: GateKey> SingleFlight<K> {
    /// The gates by key.
    pub closed spec fn gates(&self) -> Map<K::Id, Gate> {
        gates_in(self.entries@)
    }

    /// Every key has at most one gate, and somebody holds every held one.
    pub closed spec fn wf(&self) -> bool {
        &&& distinct(self.entries@)
        &&& forall|i: int|
            0 <= i < self.entries@.len() ==> ((#[trigger] self.entries@[i]).gate.held()
                ==> self.entries@[i].tasks > 0)
    }

    /// An empty gate set.
    #[must_use]
    pub fn new() -> (gates: Self)
        ensures
            gates.wf(),
            gates.gates() == Map::<K::Id, Gate>::empty(),
    {
        SingleFlight { entries: Vec::new() }
    }

    /// Whether no key has a gate.
    #[must_use]
    pub fn is_empty(&self) -> (empty: bool)
        requires
            self.wf(),
        ensures
            empty == (self.gates() == Map::<K::Id, Gate>::empty()),
    {
        proof {
            lemma_gates_in(self.entries@);
            if self.entries@.len() > 0 {
                assert(self.gates().contains_key(self.entries@[0].key.id()));
            }
        }
        self.entries.len() == 0
    }

    fn position(&self, key: &K) -> (position: Option<usize>)
        requires
            self.wf(),
        ensures
            match position {
                Some(i) => i < self.entries@.len() && self.entries@[i as int].key.id() == key.id()
                    && self.gates().contains_key(key.id()) && self.gates()[key.id()]
                    == self.entries@[i as int].gate(),
                None => !self.gates().contains_key(key.id()) && forall|i: int|
                    0 <= i < self.entries@.len() ==> (#[trigger] self.entries@[i]).key.id()
                        != key.id(),
            },
    {
        proof {
            lemma_gates_in(self.entries@);
        }
        let mut i: usize = 0;
        while i < self.entries.len()
            invariant
                i <= self.entries@.len(),
                forall|j: int| 0 <= j < i ==> (#[trigger] self.entries@[j]).key.id() != key.id(),
                forall|j: int|
                    0 <= j < self.entries@.len() ==> {
                        &&& self.gates().contains_key((#[trigger] self.entries@[j]).key.id())
                        &&& self.gates()[self.entries@[j].key.id()] == self.entries@[j].gate()
                    },
            decreases self.entries@.len() - i,
        {
            if self.entries[i].key.same(key) {
                assert(self.entries@[i as int].key.id() == key.id());
                return Some(i);
            }
            i += 1;
        }
        None
    }

    /// How many tasks hold `key` or wait for it.
    #[must_use]
    pub fn tasks(&self, key: &K) -> (tasks: usize)
        requires
            self.wf(),
        ensures
            tasks == if self.gates().contains_key(key.id()) {
                self.gates()[key.id()].tasks
            } else {
                0
            },
    {
        match self.position(key) {
            Some(i) => self.entries[i].tasks,
            None => 0,
        }
    }

    /// Joins the tasks that are interested in `key`.
    pub fn join(&mut self, key: &K)
        requires
            old(self).wf(),
            old(self).gates().contains_key(key.id()) ==> old(self).gates()[key.id()].tasks
                < usize::MAX,
        ensures
            final(self).wf(),
            final(self).gates() == joined(old(self).gates(), key.id()),
    {
        let ghost before = *self;
        match self.position(key) {
            Some(i) => {
                let tasks: usize = self.entries[i].tasks;
                self.entries[i].tasks = tasks + 1;
                proof {
                    self.lemma_changed(before, i as int);
                }
            },
            None => {
                self.entries.push(Entry { key: key.duplicate(), gate: GateState::new(), tasks: 1 });
                assert(self.entries@.drop_last() =~= before.entries@);
            },
        }
    }

    /// Only entry `i` changed.
    proof fn lemma_changed(self, before: SingleFlight<K>, i: int)
        requires
            before.wf(),
            0 <= i < before.entries@.len(),
            self.entries@.len() == before.entries@.len(),
            self.entries@[i].key.id() == before.entries@[i].key.id(),
            self.entries@[i].gate.held() ==> self.entries@[i].tasks > 0,
            forall|j: int|
                0 <= j < self.entries@.len() && j != i ==> #[trigger] self.entries@[j]
                    == before.entries@[j],
        ensures
            self.wf(),
            self.gates() == before.gates().insert(
                before.entries@[i].key.id(),
                self.entries@[i].gate(),
            ),
    {
        let id = before.entries@[i].key.id();
        let gates = before.gates().insert(id, self.entries@[i].gate());
        lemma_gates_in(before.entries@);
        assert(distinct(self.entries@)) by {
            assert forall|a: int, b: int| 0 <= a < b < self.entries@.len() implies (
            #[trigger] self.entries@[a]).key.id() != (#[trigger] self.entries@[b]).key.id() by {
                assert(before.entries@[a].key.id() != before.entries@[b].key.id());
            }
        }
        assert forall|j: int| 0 <= j < self.entries@.len() implies {
            &&& gates.contains_key((#[trigger] self.entries@[j]).key.id())
            &&& gates[self.entries@[j].key.id()] == self.entries@[j].gate()
        } by {
            if j != i {
                assert(before.entries@[j].key.id() != id) by {
                    if j < i {
                        assert(before.entries@[j].key.id() != before.entries@[i].key.id());
                    } else {
                        assert(before.entries@[i].key.id() != before.entries@[j].key.id());
                    }
                }
            }
        }
        assert forall|k: K::Id| #[trigger] gates.contains_key(k) implies exists|j: int|
            0 <= j < self.entries@.len() && (#[trigger] self.entries@[j]).key.id() == k by {
            if k == id {
                assert(self.entries@[i].key.id() == k);
            } else {
                assert(before.gates().contains_key(k));
                let j = choose|j: int|
                    0 <= j < before.entries@.len() && (#[trigger] before.entries@[j]).key.id() == k;
                assert(self.entries@[j].key.id() == k);
            }
        }
        lemma_same_gates(self.entries@, gates);
    }

    /// Takes `key`'s gate if it is free; otherwise registers `waker` for
    /// its release.
    pub fn try_acquire(&mut self, key: &K, waker: &Waker) -> (guard: Option<SingleFlightGuard<K>>)
        requires
            old(self).wf(),
            old(self).gates().contains_key(key.id()),
            old(self).gates()[key.id()].tasks > 0,
        ensures
            final(self).wf(),
            guard is Some <==> free(old(self).gates(), key.id()),
            guard matches Some(guard) ==> {
                &&& guard.id() == key.id()
                &&& final(self).gates() == taken(old(self).gates(), key.id())
            },
            guard is None ==> exists|waiting: Seq<Waker>| #[trigger]
                wake::enlisted(old(self).gates()[key.id()].waiting, *waker, waiting) && final(self).gates()
                    == old(self).gates().insert(
                    key.id(),
                    Gate { waiting, ..old(self).gates()[key.id()] },
                ),
    {
        let ghost before = *self;
        match self.position(key) {
            Some(i) => {
                let admitted = self.entries[i].gate.try_acquire(waker);
                proof {
                    self.lemma_changed(before, i as int);
                    if !admitted {
                        let waiting = self.entries@[i as int].gate.waiting();
                        assert(wake::enlisted(before.gates()[key.id()].waiting, *waker, waiting));
                        assert(self.entries@[i as int].gate() == Gate {
                            waiting,
                            ..before.gates()[key.id()]
                        });
                    }
                }
                if admitted {
                    Some(SingleFlightGuard { key: key.duplicate() })
                } else {
                    None
                }
            },
            None => None,
        }
    }

    /// Gives a gate back: returns the wakers to notify. With the last
    /// interested task its gate goes too.
    pub fn release(&mut self, guard: SingleFlightGuard<K>) -> (woken: Vec<Waker>)
        requires
            old(self).wf(),
            old(self).gates().contains_key(guard.id()),
            old(self).gates()[guard.id()].held,
        ensures
            final(self).wf(),
            woken@ == old(self).gates()[guard.id()].waiting,
            final(self).gates() == given(old(self).gates(), guard.id()),
    {
        let ghost before = *self;
        let ghost id = guard.id();
        match self.position(&guard.key) {
            Some(i) => {
                assert(before.entries@[i as int].gate.held());
                let tasks: usize = self.entries[i].tasks;
                let woken = self.entries[i].gate.release();
                self.entries[i].tasks = tasks - 1;
                proof {
                    self.lemma_changed(before, i as int);
                }
                if tasks == 1 {
                    let ghost mid = *self;
                    let _gone = self.entries.remove(i);
                    proof {
                        self.lemma_removed(mid, i as int);
                        assert(self.gates() =~= before.gates().remove(id));
                    }
                }
                woken
            },
            None => Vec::new(),
        }
    }

    /// Entry `i` went.
    proof fn lemma_removed(self, before: SingleFlight<K>, i: int)
        requires
            before.wf(),
            0 <= i < before.entries@.len(),
            self.entries@ == before.entries@.remove(i),
        ensures
            self.wf(),
            self.gates() == before.gates().remove(before.entries@[i].key.id()),
    {
        let id = before.entries@[i].key.id();
        let gates = before.gates().remove(id);
        lemma_gates_in(before.entries@);
        assert(forall|j: int|
            0 <= j < self.entries@.len() ==> #[trigger] self.entries@[j] == before.entries@[if j
                < i {
                j
            } else {
                j + 1
            }]);
        assert forall|a: int, b: int| 0 <= a < b < self.entries@.len() implies (
        #[trigger] self.entries@[a]).key.id() != (#[trigger] self.entries@[b]).key.id() by {
            let x = if a < i {
                a
            } else {
                a + 1
            };
            let y = if b < i {
                b
            } else {
                b + 1
            };
            assert(before.entries@[x].key.id() != before.entries@[y].key.id());
        }
        assert forall|j: int| 0 <= j < self.entries@.len() implies {
            &&& gates.contains_key((#[trigger] self.entries@[j]).key.id())
            &&& gates[self.entries@[j].key.id()] == self.entries@[j].gate()
        } by {
            let x = if j < i {
                j
            } else {
                j + 1
            };
            assert(self.entries@[j] == before.entries@[x]);
            if x < i {
                assert(before.entries@[x].key.id() != before.entries@[i].key.id());
            } else {
                assert(before.entries@[i].key.id() != before.entries@[x].key.id());
            }
        }
        assert forall|k: K::Id| #[trigger] gates.contains_key(k) implies exists|j: int|
            0 <= j < self.entries@.len() && (#[trigger] self.entries@[j]).key.id() == k by {
            assert(before.gates().contains_key(k));
            let x = choose|x: int|
                0 <= x < before.entries@.len() && (#[trigger] before.entries@[x]).key.id() == k;
            let j = if x < i {
                x
            } else {
                x - 1
            };
            assert(self.entries@[j] == before.entries@[x]);
        }
        lemma_same_gates(self.entries@, gates);
    }

    /// Leaves without having been admitted. Its gate stays until it is next
    /// released.
    pub fn abandon(&mut self, key: &K)
        requires
            old(self).wf(),
            old(self).gates().contains_key(key.id()),
            old(self).gates()[key.id()].tasks > if old(self).gates()[key.id()].held {
                1int
            } else {
                0int
            },
        ensures
            final(self).wf(),
            final(self).gates() == old(self).gates().insert(
                key.id(),
                Gate {
                    tasks: (old(self).gates()[key.id()].tasks - 1) as nat,
                    ..old(self).gates()[key.id()]
                },
            ),
    {
        let ghost before = *self;
        if let Some(i) = self.position(key) {
            let tasks: usize = self.entries[i].tasks;
            self.entries[i].tasks = tasks - 1;
            proof {
                self.lemma_changed(before, i as int);
            }
        }
    }
}

} // verus!
