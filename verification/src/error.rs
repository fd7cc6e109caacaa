//! Router-level errors.
//!
//! The router records *which* tier failed, because in a hierarchy the identity
//! of the failing layer is half the diagnosis.

use vstd::prelude::*;
use vstd::string::StringExecFns;

use crate::text;
use crate::text::{numeral, wrap};

verus! {

/// What a [`TierFailure`] says.
pub struct Failure<E> {
    /// Index of the failing tier.
    pub tier: nat,
    /// Its diagnostic name.
    pub name: Seq<char>,
    /// What it answered.
    pub source: E,
}

/// One tier's failure, with the tier's position and name attached.
#[derive(Debug)]
pub struct TierFailure<E> {
    tier: usize,
    name: String,
    source: E,
}

impl<E> View for TierFailure<E> {
    type V = Failure<E>;

    closed spec fn view(&self) -> Failure<E> {
        Failure { tier: self.tier as nat, name: self.name@, source: self.source }
    }
}

/// The failures in `failures`, as mathematical values.
pub open spec fn failures_in<E>(failures: Seq<TierFailure<E>>) -> Seq<Failure<E>> {
    failures.map_values(|failure: TierFailure<E>| failure@)
}

impl<E> TierFailure<E> {
    /// The failure of the tier at index `tier`.
    pub fn new(tier: usize, name: &str, source: E) -> (failure: Self)
        ensures
            failure@ == (Failure { tier: tier as nat, name: name@, source }),
    {
        TierFailure { tier, name: name.to_owned(), source }
    }

    /// Index of the failing tier (0 is topmost).
    #[must_use]
    pub fn tier(&self) -> (tier: usize)
        ensures
            tier == self@.tier,
    {
        self.tier
    }

    /// Diagnostic name of the failing tier.
    #[must_use]
    pub fn tier_name(&self) -> (name: &str)
        ensures
            name@ == self@.name,
    {
        self.name.as_str()
    }

    /// What the tier answered.
    #[must_use]
    pub fn source(&self) -> (source: &E)
        ensures
            *source == self@.source,
    {
        &self.source
    }

    /// The failure in words.
    #[must_use]
    pub fn message(&self) -> (text: String)
        ensures
            text@ == failure_text(self@.tier, self@.name),
    {
        let mut text = wrap("tier ", numeral(self.tier).as_str(), " (");
        text.append(self.name.as_str());
        text.append(") failed");
        text
    }
}

/// `tier <index> (<name>) failed`.
pub open spec fn failure_text(tier: nat, name: Seq<char>) -> Seq<char> {
    "tier "@ + text::decimal(tier) + " ("@ + name + ") failed"@
}

/// Error returned by router operations.
///
/// The variants encode *how much* of the hierarchy the operation reached,
/// because partial cross-tier failures have consequences plain errors do not
/// (unconfirmed misses, stale copies, resurrected deletes).
#[derive(Debug)]
pub enum RouterError<E> {
    /// A single tier failed and the operation was aborted (fail-fast reads,
    /// write-through aborts). Tiers not yet reached were left untouched.
    Tier(TierFailure<E>),
    /// A fall-through read found no hit while at least one tier failed:
    /// absence is unconfirmed, so this is deliberately *not* `Ok(None)`.
    Inconclusive(Vec<TierFailure<E>>),
    /// A multi-tier operation (delete, write-around invalidation) failed on
    /// some tiers after succeeding on others. Stale upper copies can shadow
    /// new values or resurrect deleted keys.
    Partial(Vec<TierFailure<E>>),
    /// A write was routed to a stack with no writable tier.
    ReadOnly,
}

/// What a [`RouterError`] says.
pub enum Fault<E> {
    /// A single tier failed and the operation was aborted.
    Tier(Failure<E>),
    /// No hit, and these tiers failed.
    Inconclusive(Seq<Failure<E>>),
    /// These tiers failed after others had carried the operation out.
    Partial(Seq<Failure<E>>),
    /// No tier is writable.
    ReadOnly,
}

impl<E> View for RouterError<E> {
    type V = Fault<E>;

    open spec fn view(&self) -> Fault<E> {
        match self {
            RouterError::Tier(failure) => Fault::Tier(failure@),
            RouterError::Inconclusive(failures) => Fault::Inconclusive(failures_in(failures@)),
            RouterError::Partial(failures) => Fault::Partial(failures_in(failures@)),
            RouterError::ReadOnly => Fault::ReadOnly,
        }
    }
}

/// The result of a router operation, as a mathematical value.
pub open spec fn answer<A, E>(result: Result<A, RouterError<E>>) -> Result<A, Fault<E>> {
    match result {
        Ok(value) => Ok(value),
        Err(error) => Err(error@),
    }
}

/// The result of a router operation that returns something with a view.
pub open spec fn view_answer<A: View, E>(result: Result<A, RouterError<E>>) -> Result<
    A::V,
    Fault<E>,
> {
    match result {
        Ok(value) => Ok(value@),
        Err(error) => Err(error@),
    }
}

/// [`core::slice::from_ref`] is taken to view one value as a slice of length
/// one.
pub assume_specification<T>[ core::slice::from_ref::<T> ](s: &T) -> (slice: &[T])
    ensures
        slice@ == seq![*s],
;

impl<E> RouterError<E> {
    /// The individual tier failures behind this error.
    pub open spec fn behind(&self) -> Seq<TierFailure<E>> {
        match self {
            RouterError::Tier(failure) => seq![*failure],
            RouterError::Inconclusive(failures) => failures@,
            RouterError::Partial(failures) => failures@,
            RouterError::ReadOnly => Seq::empty(),
        }
    }

    /// The error in words.
    pub open spec fn words(&self) -> Seq<char> {
        match self {
            RouterError::Tier(failure) => failure_text(failure@.tier, failure@.name),
            RouterError::Inconclusive(failures) => "read inconclusive: no hit and "@
                + text::decimal(failures@.len()) + " tier(s) failed"@,
            RouterError::Partial(failures) => "operation partially failed on "@ + text::decimal(
                failures@.len(),
            ) + " tier(s); cross-tier state may be inconsistent"@,
            RouterError::ReadOnly => "write rejected: the router has no writable tier"@,
        }
    }

    /// The individual tier failures behind this error.
    #[must_use]
    pub fn failures(&self) -> (failures: &[TierFailure<E>])
        ensures
            failures@ == self.behind(),
    {
        match self {
            RouterError::Tier(failure) => core::slice::from_ref(failure),
            RouterError::Inconclusive(failures) => failures.as_slice(),
            RouterError::Partial(failures) => failures.as_slice(),
            RouterError::ReadOnly => {
                let none: &[TierFailure<E>; 0] = &[];
                let none: &[TierFailure<E>] = none;
                assert(none@ =~= Seq::empty());
                none
            },
        }
    }

    /// The first failure behind this error.
    #[must_use]
    pub fn source(&self) -> (source: Option<&TierFailure<E>>)
        ensures
            source == (if self.behind().len() > 0 {
                Some(&self.behind()[0])
            } else {
                None
            }),
    {
        match self {
            RouterError::Tier(failure) => Some(failure),
            RouterError::Inconclusive(failures) | RouterError::Partial(failures) => {
                if failures.len() > 0 {
                    Some(&failures[0])
                } else {
                    None
                }
            },
            RouterError::ReadOnly => None,
        }
    }

    /// The error in words.
    #[must_use]
    pub fn message(&self) -> (text: String)
        ensures
            text@ == self.words(),
    {
        match self {
            RouterError::Tier(failure) => failure.message(),
            RouterError::Inconclusive(failures) => wrap(
                "read inconclusive: no hit and ",
                numeral(failures.len()).as_str(),
                " tier(s) failed",
            ),
            RouterError::Partial(failures) => wrap(
                "operation partially failed on ",
                numeral(failures.len()).as_str(),
                " tier(s); cross-tier state may be inconsistent",
            ),
            RouterError::ReadOnly => "write rejected: the router has no writable tier".to_owned(),
        }
    }
}

/// Every failure that an error speaks of is to be had from it, in order.
pub proof fn law_errors_carry_their_failures<E>(error: RouterError<E>)
    ensures
        failures_in(error.behind()) == match error@ {
            Fault::Tier(failure) => seq![failure],
            Fault::Inconclusive(failures) => failures,
            Fault::Partial(failures) => failures,
            Fault::ReadOnly => Seq::empty(),
        },
{
    assert(failures_in(error.behind()) =~= match error@ {
        Fault::Tier(failure) => seq![failure],
        Fault::Inconclusive(failures) => failures,
        Fault::Partial(failures) => failures,
        Fault::ReadOnly => Seq::empty(),
    });
}

/// The words of an error name the tier that failed, or count the tiers that did.
pub proof fn law_errors_say_which_tiers_failed<E>(error: RouterError<E>)
    ensures
        error.words() == match error@ {
            Fault::Tier(failure) => "tier "@ + text::decimal(failure.tier) + " ("@ + failure.name
                + ") failed"@,
            Fault::Inconclusive(failures) => "read inconclusive: no hit and "@ + text::decimal(
                failures.len(),
            ) + " tier(s) failed"@,
            Fault::Partial(failures) => "operation partially failed on "@ + text::decimal(
                failures.len(),
            ) + " tier(s); cross-tier state may be inconsistent"@,
            Fault::ReadOnly => "write rejected: the router has no writable tier"@,
        },
{
}

} // verus!
