//! The read flow, step by step.

use tierstore::policy::{OnReadError, Promote, ReadPolicy};
use tierstore::read::{Probe, ReadFlow, ReadOutcome, ReadStep};

fn policy(promote: Promote, on_error: OnReadError) -> ReadPolicy {
    ReadPolicy { promote, on_error }
}

#[test]
fn hit_on_top_tier_ends_immediately() {
    let mut flow = ReadFlow::new(3, policy(Promote::AllAbove, OnReadError::FallThrough));
    assert_eq!(flow.step(), ReadStep::Get { tier: 0 });
    flow.on_get(Probe::Hit);
    assert_eq!(flow.step(), ReadStep::Done(ReadOutcome::Hit { tier: 0 }));
}

#[test]
fn hit_below_promotes_all_above_top_first() {
    let mut flow = ReadFlow::new(3, policy(Promote::AllAbove, OnReadError::FallThrough));
    flow.on_get(Probe::Miss);
    flow.on_get(Probe::Miss);
    assert_eq!(flow.step(), ReadStep::Get { tier: 2 });
    flow.on_get(Probe::Hit);
    assert_eq!(flow.step(), ReadStep::Promote { tier: 0 });
    flow.on_promote();
    assert_eq!(flow.step(), ReadStep::Promote { tier: 1 });
    flow.on_promote();
    assert_eq!(flow.step(), ReadStep::Done(ReadOutcome::Hit { tier: 2 }));
}

#[test]
fn hit_below_promotes_top_only() {
    let mut flow = ReadFlow::new(3, policy(Promote::TopOnly, OnReadError::FallThrough));
    flow.on_get(Probe::Miss);
    flow.on_get(Probe::Miss);
    flow.on_get(Probe::Hit);
    assert_eq!(flow.step(), ReadStep::Promote { tier: 0 });
    flow.on_promote();
    assert_eq!(flow.step(), ReadStep::Done(ReadOutcome::Hit { tier: 2 }));
}

#[test]
fn hit_below_never_promotes() {
    let mut flow = ReadFlow::new(2, policy(Promote::Never, OnReadError::FallThrough));
    flow.on_get(Probe::Miss);
    flow.on_get(Probe::Hit);
    assert_eq!(flow.step(), ReadStep::Done(ReadOutcome::Hit { tier: 1 }));
}

#[test]
fn all_miss_is_a_confirmed_miss() {
    let mut flow = ReadFlow::new(2, policy(Promote::AllAbove, OnReadError::FallThrough));
    flow.on_get(Probe::Miss);
    flow.on_get(Probe::Miss);
    assert_eq!(flow.step(), ReadStep::Done(ReadOutcome::Miss));
}

#[test]
fn error_then_hit_below_still_hits() {
    let mut flow = ReadFlow::new(2, policy(Promote::AllAbove, OnReadError::FallThrough));
    flow.on_get(Probe::Error);
    flow.on_get(Probe::Hit);
    assert_eq!(flow.step(), ReadStep::Promote { tier: 0 });
    flow.on_promote();
    assert_eq!(flow.step(), ReadStep::Done(ReadOutcome::Hit { tier: 1 }));
}

#[test]
fn error_fall_through_with_miss_is_inconclusive() {
    let mut flow = ReadFlow::new(2, policy(Promote::AllAbove, OnReadError::FallThrough));
    flow.on_get(Probe::Error);
    flow.on_get(Probe::Miss);
    assert_eq!(flow.step(), ReadStep::Done(ReadOutcome::Inconclusive));
}

#[test]
fn error_fail_fast_stops_at_failing_tier() {
    let mut flow = ReadFlow::new(3, policy(Promote::AllAbove, OnReadError::FailFast));
    flow.on_get(Probe::Miss);
    flow.on_get(Probe::Error);
    assert_eq!(flow.step(), ReadStep::Done(ReadOutcome::Failed { tier: 1 }));
}

#[test]
fn zero_tiers_is_vacuously_a_miss() {
    let flow = ReadFlow::new(0, ReadPolicy::default());
    assert_eq!(flow.step(), ReadStep::Done(ReadOutcome::Miss));
}

#[test]
fn a_failure_after_a_miss_is_no_miss() {
    let mut flow = ReadFlow::new(2, policy(Promote::Never, OnReadError::FallThrough));
    flow.on_get(Probe::Miss);
    flow.on_get(Probe::Error);
    assert_eq!(flow.step(), ReadStep::Done(ReadOutcome::Inconclusive));
}

#[test]
fn top_only_promotion_of_a_top_hit_is_none() {
    let mut flow = ReadFlow::new(2, policy(Promote::TopOnly, OnReadError::FallThrough));
    flow.on_get(Probe::Hit);
    assert_eq!(flow.step(), ReadStep::Done(ReadOutcome::Hit { tier: 0 }));
}

#[test]
fn every_read_ends_after_probing_each_tier_once() {
    let mut flow = ReadFlow::new(4, policy(Promote::AllAbove, OnReadError::FallThrough));
    let mut steps = 0;
    while let ReadStep::Get { tier } = flow.step() {
        assert_eq!(tier, steps);
        flow.on_get(Probe::Miss);
        steps += 1;
    }
    assert_eq!(steps, 4);
    assert_eq!(flow.step(), ReadStep::Done(ReadOutcome::Miss));
}
