//! Single flight, admission control and the worker handoff.

use std::sync::atomic::{AtomicUsize, Ordering};
use std::sync::Arc;
use std::task::{Wake, Waker};

use tierstore::limited::SemState;
use tierstore::offload::OneshotState;
use tierstore::single_flight::{GateState, SingleFlight};

struct Counter(AtomicUsize);

impl Wake for Counter {
    fn wake(self: Arc<Self>) {
        self.0.fetch_add(1, Ordering::SeqCst);
    }
}

fn task() -> (Arc<Counter>, Waker) {
    let counter = Arc::new(Counter(AtomicUsize::new(0)));
    (Arc::clone(&counter), Waker::from(counter))
}

fn wakes(counter: &Arc<Counter>) -> usize {
    counter.0.load(Ordering::SeqCst)
}

fn wake_all(wakers: Vec<Waker>) {
    for waker in wakers {
        waker.wake();
    }
}

fn key(s: &str) -> String {
    s.to_owned()
}

#[test]
fn gate_reacquires_after_release_and_cleans_up() {
    let (_, waker) = task();
    let mut gates: SingleFlight<String> = SingleFlight::new();
    for _ in 0..2 {
        gates.join(&key("k"));
        let guard = gates.try_acquire(&key("k"), &waker).expect("free");
        assert_eq!(guard.key(), "k");
        assert!(gates.release(guard).is_empty());
    }
    assert!(gates.is_empty(), "released gates should be removed");
}

#[test]
fn distinct_keys_do_not_contend() {
    let (_, waker) = task();
    let mut gates: SingleFlight<String> = SingleFlight::new();
    gates.join(&key("a"));
    let a = gates.try_acquire(&key("a"), &waker).expect("free");
    // "b" must be acquirable while "a" is held.
    gates.join(&key("b"));
    let b = gates.try_acquire(&key("b"), &waker).expect("free");
    gates.release(a);
    gates.release(b);
    assert!(gates.is_empty());
}

#[test]
fn waiters_for_a_held_key_are_woken_once() {
    let (_, first) = task();
    let (counter, second) = task();
    let mut gates: SingleFlight<u64> = SingleFlight::new();
    assert_eq!(gates.tasks(&7), 0);
    gates.join(&7);
    let guard = gates.try_acquire(&7, &first).expect("free");
    gates.join(&7);
    assert_eq!(gates.tasks(&7), 2);
    assert!(gates.try_acquire(&7, &second).is_none());
    // Asking again does not enlist the same task twice.
    assert!(gates.try_acquire(&7, &second).is_none());
    let woken = gates.release(guard);
    assert_eq!(woken.len(), 1);
    wake_all(woken);
    assert_eq!(wakes(&counter), 1);
    assert!(!gates.is_empty());
    let guard = gates.try_acquire(&7, &second).expect("released");
    gates.release(guard);
    assert!(gates.is_empty());
}

#[test]
fn abandoned_gates_go_with_the_next_release() {
    let (_, waker) = task();
    let mut gates: SingleFlight<String> = SingleFlight::new();
    gates.join(&key("k"));
    gates.abandon(&key("k"));
    assert!(!gates.is_empty());
    gates.join(&key("k"));
    let guard = gates.try_acquire(&key("k"), &waker).expect("free");
    gates.release(guard);
    assert!(gates.is_empty());
}

#[test]
fn one_holder_at_a_time() {
    let (_, waker) = task();
    let mut gate = GateState::new();
    assert!(gate.try_acquire(&waker));
    assert!(!gate.try_acquire(&waker));
    assert_eq!(gate.release().len(), 1);
    assert!(gate.try_acquire(&waker));
    assert!(gate.release().is_empty());
}

#[test]
fn permits_are_limited() {
    let (counter, waker) = task();
    let (_, other) = task();
    let mut permits = SemState::new(2);
    assert!(permits.try_acquire(&other));
    assert!(permits.take());
    assert!(!permits.take());
    assert!(!permits.try_acquire(&waker));
    assert!(!permits.try_acquire(&waker));
    assert!(!permits.try_acquire(&other));
    let woken = permits.release();
    assert_eq!(woken.len(), 2);
    wake_all(woken);
    assert_eq!(wakes(&counter), 1);
    assert!(permits.try_acquire(&waker));
    assert!(permits.release().is_empty());
}

#[test]
fn results_are_handed_over_once() {
    let (counter, waker) = task();
    let mut state = OneshotState::new();
    assert_eq!(state.take_or_register(&waker), None);
    state.complete(7).expect("a task waits").wake();
    assert_eq!(wakes(&counter), 1);
    assert_eq!(state.take_or_register(&waker), Some(7));
    assert_eq!(state.take_or_register(&waker), None);
}

#[test]
fn the_last_task_that_asked_is_woken() {
    let (first, first_waker) = task();
    let (second, second_waker) = task();
    let mut state = OneshotState::new();
    assert_eq!(state.take_or_register(&first_waker), None);
    assert_eq!(state.take_or_register(&second_waker), None);
    state.complete(1).expect("a task waits").wake();
    assert_eq!((wakes(&first), wakes(&second)), (0, 1));
    let mut nobody = OneshotState::new();
    assert!(nobody.complete(2).is_none());
}

#[test]
fn concurrent_calls_stay_within_the_limit() {
    let (_, waker) = task();
    let mut permits = SemState::new(1);
    let mut in_flight = 0;
    let mut peak = 0;
    let mut done = 0;
    let mut waiting = 4;
    while done < 4 {
        // Everyone who waits asks; one call ends.
        for _ in 0..waiting {
            if permits.try_acquire(&waker) {
                in_flight += 1;
                waiting -= 1;
            }
        }
        peak = peak.max(in_flight);
        permits.release();
        in_flight -= 1;
        done += 1;
    }
    assert_eq!((peak, in_flight, waiting), (1, 0, 0));
}
