//! The sans-io read flow.
//!
//! [`ReadFlow`] makes every decision of a read through a tier stack (probe
//! order, promotion, error classification) over *tier indices* alone. A
//! driver carries out its instructions and reports what happened:
//!
//! ```text
//! loop {
//!     match flow.step() {
//!         Get { tier }     => flow.on_get(what tiers[tier] answered),
//!         Promote { tier } => { copy the hit into tiers[tier]; flow.on_promote(); }
//!         Done(outcome)    => break outcome,
//!     }
//! }
//! ```
//!
//! Tier `0` is the topmost (fastest) tier; probing proceeds downward.

use vstd::prelude::*;

use crate::policy::{OnReadError, Promote, ReadPolicy};

verus! {

/// The driver's next instruction.
#[derive(Debug, Clone, Copy, PartialEq, Eq, Structural)]
pub enum ReadStep {
    /// Probe tier `tier` and report the result through [`ReadFlow::on_get`].
    Get {
        /// Tier to probe.
        tier: usize,
    },
    /// Copy the hit into tier `tier` (best effort), then call
    /// [`ReadFlow::on_promote`].
    Promote {
        /// Tier to copy the hit into.
        tier: usize,
    },
    /// The read is finished.
    Done(ReadOutcome),
}

/// Final classification of a read.
#[derive(Debug, Clone, Copy, PartialEq, Eq, Structural)]
pub enum ReadOutcome {
    /// A tier answered with the value.
    Hit {
        /// Tier that answered.
        tier: usize,
    },
    /// Every tier answered and none held the key: a *confirmed* miss.
    Miss,
    /// No tier hit, but at least one failed while falling through.
    Inconclusive,
    /// A tier failed under [`OnReadError::FailFast`].
    Failed {
        /// Tier that failed.
        tier: usize,
    },
}

/// What a probe of a single tier observed.
#[derive(Debug, Clone, Copy, PartialEq, Eq, Structural)]
pub enum Probe {
    /// The tier holds the key.
    Hit,
    /// The tier answered and does not hold the key.
    Miss,
    /// The tier failed to answer.
    Error,
}

#[derive(Debug, Clone, Copy)]
enum State {
    Probe { tier: usize },
    Promote { hit: usize, next: usize },
    Done(ReadOutcome),
}

/// What has happened in a read so far.
pub struct Progress {
    /// Number of tiers in the stack.
    pub tiers: nat,
    /// The read policy.
    pub policy: ReadPolicy,
    /// What tiers `0, 1, ..` answered, as far as they were probed.
    pub probes: Seq<Probe>,
    /// How many promotions have been attempted.
    pub promoted: nat,
}

/// Whether no tier below one that answered `probe` is asked any more.
pub open spec fn ends_probing(policy: ReadPolicy, probe: Probe) -> bool {
    probe == Probe::Hit || (probe == Probe::Error && policy.on_error == OnReadError::FailFast)
}

/// How many tiers (from the top) get a copy of a value found in tier `hit`.
pub open spec fn promotions(policy: ReadPolicy, hit: nat) -> nat {
    match policy.promote {
        Promote::Never => 0,
        Promote::TopOnly => if hit == 0 { 0 } else { 1 },
        Promote::AllAbove => hit,
    }
}

impl Progress {
    /// The histories that a driver can produce: only the last probe ended the
    /// probing, and only a hit was promoted.
    pub open spec fn valid(self) -> bool {
        &&& self.probes.len() <= self.tiers
        &&& forall|i: int|
            0 <= i < self.probes.len() - 1 ==> !ends_probing(self.policy, #[trigger] self.probes[i])
        &&& self.promoted > 0 ==> {
            &&& self.probes.len() > 0
            &&& self.probes.last() == Probe::Hit
            &&& self.promoted <= promotions(self.policy, (self.probes.len() - 1) as nat)
        }
    }

    /// The instruction that follows from the history alone.
    pub open spec fn next(self) -> ReadStep {
        let probed = self.probes.len();
        if probed > 0 && ends_probing(self.policy, self.probes.last()) {
            let tier = (probed - 1) as usize;
            if self.probes.last() == Probe::Hit {
                if self.promoted < promotions(self.policy, tier as nat) {
                    ReadStep::Promote { tier: self.promoted as usize }
                } else {
                    ReadStep::Done(ReadOutcome::Hit { tier })
                }
            } else {
                ReadStep::Done(ReadOutcome::Failed { tier })
            }
        } else if probed < self.tiers {
            ReadStep::Get { tier: probed as usize }
        } else if self.probes.contains(Probe::Error) {
            ReadStep::Done(ReadOutcome::Inconclusive)
        } else {
            ReadStep::Done(ReadOutcome::Miss)
        }
    }

    /// The history after one more probe.
    pub open spec fn probed(self, probe: Probe) -> Progress {
        Progress { probes: self.probes.push(probe), ..self }
    }

    /// The history after one more promotion.
    pub open spec fn promoted_once(self) -> Progress {
        Progress { promoted: self.promoted + 1, ..self }
    }

    /// How many instructions are left at most before [`ReadStep::Done`].
    pub open spec fn remaining(self) -> int {
        2 * self.tiers - self.probes.len() - self.promoted
    }
}

/// State machine for one read through a tier stack.
#[derive(Clone)]
pub struct ReadFlow {
    tiers: usize,
    policy: ReadPolicy,
    errors: usize,
    state: State,
    probes: Ghost<Seq<Probe>>,
    promoted: Ghost<nat>,
}

impl View for ReadFlow {
    type V = Progress;

    closed spec fn view(&self) -> Progress {
        Progress {
            tiers: self.tiers as nat,
            policy: self.policy,
            probes: self.probes@,
            promoted: self.promoted@,
        }
    }
}

impl ReadFlow {
    /// The flow's state agrees with its history.
    pub closed spec fn wf(&self) -> bool {
        &&& self@.valid()
        &&& self.errors <= self.probes@.len()
        &&& self.state is Probe ==> (self.errors > 0 <==> self.probes@.contains(Probe::Error))
        &&& match self.state {
            State::Probe { tier } => self@.next() == (ReadStep::Get { tier }),
            State::Promote { hit, next } => {
                &&& self@.next() == (ReadStep::Promote { tier: next })
                &&& self.probes@.len() == hit + 1
                &&& self.promoted@ == next
            },
            State::Done(outcome) => self@.next() == ReadStep::Done(outcome),
        }
    }

    /// Starts a read over `tiers` tiers (index `0` is the topmost).
    ///
    /// A zero-tier stack is vacuously a confirmed miss.
    #[must_use]
    pub fn new(tiers: usize, policy: ReadPolicy) -> (flow: Self)
        ensures
            flow.wf(),
            flow@ == (Progress {
                tiers: tiers as nat,
                policy,
                probes: Seq::empty(),
                promoted: 0,
            }),
    {
        let state = if tiers == 0 {
            State::Done(ReadOutcome::Miss)
        } else {
            State::Probe { tier: 0 }
        };
        ReadFlow {
            tiers,
            policy,
            errors: 0,
            state,
            probes: Ghost(Seq::empty()),
            promoted: Ghost(0),
        }
    }

    /// The driver's current instruction. Idempotent; advance the flow with
    /// [`ReadFlow::on_get`] / [`ReadFlow::on_promote`].
    #[must_use]
    pub fn step(&self) -> (step: ReadStep)
        requires
            self.wf(),
        ensures
            step == self@.next(),
    {
        match self.state {
            State::Probe { tier } => ReadStep::Get { tier },
            State::Promote { next, .. } => ReadStep::Promote { tier: next },
            State::Done(outcome) => ReadStep::Done(outcome),
        }
    }

    /// Reports the result of the probe requested by [`ReadStep::Get`].
    pub fn on_get(&mut self, probe: Probe)
        requires
            old(self).wf(),
            old(self)@.next() is Get,
        ensures
            final(self).wf(),
            final(self)@ == old(self)@.probed(probe),
    {
        let State::Probe { tier } = self.state else {
            return ;
        };
        let ghost before = self.probes@;
        proof {
            self.probes@ = before.push(probe);
            vstd::seq_lib::lemma_seq_contains_after_push(before, probe, Probe::Error);
            assert(self.probes@.last() == probe);
        }
        match probe {
            Probe::Hit => {
                self.state = self.after_hit(tier);
            },
            Probe::Miss => {
                self.advance(tier);
            },
            Probe::Error => match self.policy.on_error {
                OnReadError::FailFast => {
                    self.state = State::Done(ReadOutcome::Failed { tier });
                },
                OnReadError::FallThrough => {
                    self.errors += 1;
                    self.advance(tier);
                },
            },
        }
    }

    /// Reports that the promotion requested by [`ReadStep::Promote`] was
    /// attempted. Promotion is best effort, so there is nothing to report
    /// about its success.
    pub fn on_promote(&mut self)
        requires
            old(self).wf(),
            old(self)@.next() is Promote,
        ensures
            final(self).wf(),
            final(self)@ == old(self)@.promoted_once(),
    {
        let State::Promote { hit, next } = self.state else {
            return ;
        };
        let done = match self.policy.promote {
            Promote::TopOnly => true,
            Promote::AllAbove => next + 1 == hit,
            Promote::Never => true,
        };
        proof {
            self.promoted@ = self.promoted@ + 1;
        }
        self.state = if done {
            State::Done(ReadOutcome::Hit { tier: hit })
        } else {
            State::Promote { hit, next: next + 1 }
        };
    }

    fn advance(&mut self, tier: usize)
        requires
            tier < old(self).tiers,
        ensures
            *final(self) == (ReadFlow { state: final(self).state, ..*old(self) }),
            final(self).state == (if tier + 1 < old(self).tiers {
                State::Probe { tier: (tier + 1) as usize }
            } else if old(self).errors > 0 {
                State::Done(ReadOutcome::Inconclusive)
            } else {
                State::Done(ReadOutcome::Miss)
            }),
    {
        let next: usize = tier + 1;
        self.state = if next < self.tiers {
            State::Probe { tier: next }
        } else if self.errors > 0 {
            State::Done(ReadOutcome::Inconclusive)
        } else {
            State::Done(ReadOutcome::Miss)
        };
    }

    fn after_hit(&self, tier: usize) -> (state: State)
        ensures
            state == (if promotions(self.policy, tier as nat) == 0 {
                State::Done(ReadOutcome::Hit { tier })
            } else {
                State::Promote { hit: tier, next: 0 }
            }),
    {
        if tier == 0 || matches!(self.policy.promote, Promote::Never) {
            State::Done(ReadOutcome::Hit { tier })
        } else {
            // Fill top-first: the topmost tier serves the next read, so it
            // gets the value even if later promotions fail.
            State::Promote { hit: tier, next: 0 }
        }
    }
}

/// Honest misses: a read ends in a confirmed miss exactly when every tier of
/// the stack answered and none of them failed or held the key.
pub proof fn law_miss_is_confirmed(read: Progress)
    requires
        read.valid(),
    ensures
        read.next() == ReadStep::Done(ReadOutcome::Miss) <==> {
            &&& read.probes.len() == read.tiers
            &&& forall|i: int| 0 <= i < read.tiers ==> #[trigger] read.probes[i] == Probe::Miss
        },
{
    if read.next() == ReadStep::Done(ReadOutcome::Miss) {
        assert forall|i: int| 0 <= i < read.tiers implies #[trigger] read.probes[i]
            == Probe::Miss by {
            assert(!ends_probing(read.policy, read.probes[i]));
            assert(read.probes.contains(read.probes[i]));
        }
    }
}

/// A failing tier is never forgotten: a read that passed one ends in a hit
/// below it, or in a failure, or inconclusively, but never in a miss.
pub proof fn law_failure_is_never_a_miss(read: Progress)
    requires
        read.valid(),
        read.probes.contains(Probe::Error),
    ensures
        read.next() != ReadStep::Done(ReadOutcome::Miss),
        read.policy.on_error == OnReadError::FailFast ==> read.next() == ReadStep::Done(
            ReadOutcome::Failed { tier: (read.probes.len() - 1) as usize },
        ),
{
    let i = choose|i: int| 0 <= i < read.probes.len() && read.probes[i] == Probe::Error;
    if read.policy.on_error == OnReadError::FailFast {
        assert(ends_probing(read.policy, read.probes[i]));
    }
}

/// A read ends: every reported probe or promotion leaves a valid history
/// with one instruction less to go.
pub proof fn law_read_ends(read: Progress, probe: Probe)
    requires
        read.valid(),
        read.tiers <= usize::MAX,
    ensures
        read.remaining() >= 0,
        read.next() is Get ==> {
            &&& read.probed(probe).valid()
            &&& read.probed(probe).remaining() == read.remaining() - 1
        },
        read.next() is Promote ==> {
            &&& read.promoted_once().valid()
            &&& read.promoted_once().remaining() == read.remaining() - 1
        },
{
}

/// What comes next in a read follows from the answers so far. After a hit the
/// tiers that are to get a copy are filled one by one from the top: all above the
/// hit, or the topmost one, or none, as the policy says; then the read is done.
/// A failure ends a read that fails fast. Otherwise the next tier down is asked,
/// and after the last one the key is missing, or, if a tier failed, the read is
/// inconclusive.
pub proof fn law_steps_follow_the_answers(read: Progress)
    requires
        read.probes.len() <= read.tiers <= usize::MAX,
    ensures
        ({
            let probed = read.probes.len();
            let hit = probed > 0 && read.probes[probed - 1] == Probe::Hit;
            let failed = probed > 0 && read.probes[probed - 1] == Probe::Error
                && read.policy.on_error == OnReadError::FailFast;
            if hit {
                let above = probed - 1;
                if read.policy.promote == Promote::AllAbove && read.promoted < above || (
                read.policy.promote == Promote::TopOnly && read.promoted == 0 && above > 0) {
                    read.next() == (ReadStep::Promote { tier: read.promoted as usize })
                } else {
                    read.next() == ReadStep::Done(ReadOutcome::Hit { tier: above as usize })
                }
            } else if failed {
                read.next() == ReadStep::Done(ReadOutcome::Failed { tier: (probed - 1) as usize })
            } else if probed < read.tiers {
                read.next() == (ReadStep::Get { tier: probed as usize })
            } else if exists|i: int| 0 <= i < probed && #[trigger] read.probes[i] == Probe::Error {
                read.next() == ReadStep::Done(ReadOutcome::Inconclusive)
            } else {
                read.next() == ReadStep::Done(ReadOutcome::Miss)
            }
        }),
{
    let probed = read.probes.len();
    if exists|i: int| 0 <= i < probed && #[trigger] read.probes[i] == Probe::Error {
        let i = choose|i: int| 0 <= i < probed && #[trigger] read.probes[i] == Probe::Error;
        assert(read.probes.contains(read.probes[i]));
    }
}

} // verus!
