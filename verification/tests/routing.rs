//! Routers, stores and middleware over instrumented tiers.

use std::cell::RefCell;
use std::rc::Rc;

use tierstore::codec::{CodecError, CodecTier};
use tierstore::error::RouterError;
use tierstore::limited::LimitedTier;
use tierstore::policy::{OnReadError, OnWriteError, Policy, Promote, ReadPolicy, WriteMode};
use tierstore::report::KeyStatus;
use tierstore::router::Router;
use tierstore::store::{StoreError, TieredStore};
use tierstore::tier::{
    delete_each, get_each, put_each, Displaced, Page, Tier, TierList, TierRead, TierWrite,
};
use tierstore::verified::{VerifiedTier, VerifyError};

struct Shelf<V> {
    capacity: Option<usize>,
    failing: bool,
    refused: Option<String>,
    entries: Vec<(String, V)>,
    gets: usize,
    writes: usize,
}

/// A tier in memory, bounded or not, that can be told to fail. Clones share
/// their contents, so a test can look into a tier that a router owns.
struct MemoryTier<V> {
    name: &'static str,
    shelf: Rc<RefCell<Shelf<V>>>,
}

impl<V> Clone for MemoryTier<V> {
    fn clone(&self) -> Self {
        MemoryTier { name: self.name, shelf: Rc::clone(&self.shelf) }
    }
}

impl<V> MemoryTier<V> {
    fn new(name: &'static str, capacity: Option<usize>, failing: bool) -> Self {
        let refused = None;
        let shelf = Shelf { capacity, failing, refused, entries: Vec::new(), gets: 0, writes: 0 };
        MemoryTier { name, shelf: Rc::new(RefCell::new(shelf)) }
    }

    fn unbounded() -> Self {
        Self::new("memory", None, false)
    }

    fn bounded(capacity: usize) -> Self {
        Self::new("memory", Some(capacity), false)
    }

    fn failing() -> Self {
        Self::new("failing", None, true)
    }

    fn refuse(&self, key: &str) {
        self.shelf.borrow_mut().refused = Some(key.to_owned());
    }

    fn gets(&self) -> usize {
        self.shelf.borrow().gets
    }

    fn writes(&self) -> usize {
        self.shelf.borrow().writes
    }
}

impl<V: Clone> Tier for MemoryTier<V> {
    type Key = String;
    type Value = V;
    type Error = String;

    fn name(&self) -> &str {
        self.name
    }
}

impl<V: Clone> TierRead for MemoryTier<V> {
    fn get(&mut self, key: &String) -> Result<Option<V>, String> {
        let mut shelf = self.shelf.borrow_mut();
        shelf.gets += 1;
        if shelf.failing {
            return Err("failing tier: get".to_owned());
        }
        Ok(shelf.entries.iter().find(|(k, _)| k == key).map(|(_, v)| v.clone()))
    }

    fn contains(&mut self, key: &String) -> Result<bool, String> {
        let shelf = self.shelf.borrow();
        if shelf.failing {
            return Err("failing tier: exists".to_owned());
        }
        Ok(shelf.entries.iter().any(|(k, _)| k == key))
    }

    fn get_many(&mut self, keys: &[String]) -> Result<Vec<Option<V>>, String> {
        get_each(self, keys)
    }
}

impl<V: Clone> TierWrite for MemoryTier<V> {
    fn put(&mut self, key: String, value: V) -> Result<Displaced<String, V>, String> {
        let mut shelf = self.shelf.borrow_mut();
        shelf.writes += 1;
        if shelf.failing {
            return Err("failing tier: put".to_owned());
        }
        if shelf.refused.as_ref() == Some(&key) {
            return Err("refused".to_owned());
        }
        if let Some(entry) = shelf.entries.iter_mut().find(|(k, _)| *k == key) {
            entry.1 = value;
            return Ok(Vec::new());
        }
        shelf.entries.push((key, value));
        let mut displaced = Vec::new();
        if let Some(capacity) = shelf.capacity {
            while shelf.entries.len() > capacity {
                displaced.push(shelf.entries.remove(0));
            }
        }
        Ok(displaced)
    }

    fn delete(&mut self, key: &String) -> Result<bool, String> {
        let mut shelf = self.shelf.borrow_mut();
        shelf.writes += 1;
        if shelf.failing {
            return Err("failing tier: delete".to_owned());
        }
        let before = shelf.entries.len();
        shelf.entries.retain(|(k, _)| k != key);
        Ok(shelf.entries.len() < before)
    }

    fn put_many(&mut self, entries: Vec<(String, V)>) -> Result<Displaced<String, V>, String> {
        put_each(self, entries)
    }

    fn delete_many(&mut self, keys: &[String]) -> Result<Vec<bool>, String> {
        delete_each(self, keys)
    }
}

impl<V: Clone> TierList for MemoryTier<V> {
    type Cursor = usize;

    fn list(&mut self, cursor: Option<usize>, limit: usize) -> Result<Page<String, usize>, String> {
        let shelf = self.shelf.borrow();
        let start = cursor.unwrap_or(0);
        let keys: Vec<String> =
            shelf.entries.iter().skip(start).take(limit).map(|(k, _)| k.clone()).collect();
        let end = start + keys.len();
        let next = if end < shelf.entries.len() { Some(end) } else { None };
        Ok(Page { keys, next })
    }
}

/// A tier, a router or a store, as a tier of one type.
enum Node {
    Leaf(MemoryTier<String>),
    Router(Router<MemoryTier<String>>),
    Store(TieredStore<MemoryTier<String>>),
}

fn in_words<A>(result: Result<A, RouterError<String>>) -> Result<A, String> {
    result.map_err(|error| error.message())
}

impl Tier for Node {
    type Key = String;
    type Value = String;
    type Error = String;

    fn name(&self) -> &str {
        match self {
            Node::Leaf(tier) => tier.name(),
            Node::Router(router) => router.name(),
            Node::Store(store) => store.name(),
        }
    }
}

impl TierRead for Node {
    fn get(&mut self, key: &String) -> Result<Option<String>, String> {
        match self {
            Node::Leaf(tier) => tier.get(key),
            Node::Router(router) => in_words(TierRead::get(router, key)),
            Node::Store(store) => in_words(TierRead::get(store, key)),
        }
    }

    fn contains(&mut self, key: &String) -> Result<bool, String> {
        match self {
            Node::Leaf(tier) => tier.contains(key),
            Node::Router(router) => in_words(TierRead::contains(router, key)),
            Node::Store(store) => in_words(TierRead::contains(store, key)),
        }
    }

    fn get_many(&mut self, keys: &[String]) -> Result<Vec<Option<String>>, String> {
        match self {
            Node::Leaf(tier) => tier.get_many(keys),
            Node::Router(router) => in_words(TierRead::get_many(router, keys)),
            Node::Store(store) => in_words(TierRead::get_many(store, keys)),
        }
    }
}

impl TierWrite for Node {
    fn put(&mut self, key: String, value: String) -> Result<Displaced<String, String>, String> {
        match self {
            Node::Leaf(tier) => tier.put(key, value),
            Node::Router(router) => in_words(TierWrite::put(router, key, value)),
            Node::Store(store) => in_words(TierWrite::put(store, key, value)),
        }
    }

    fn delete(&mut self, key: &String) -> Result<bool, String> {
        match self {
            Node::Leaf(tier) => tier.delete(key),
            Node::Router(router) => in_words(TierWrite::delete(router, key)),
            Node::Store(store) => in_words(TierWrite::delete(store, key)),
        }
    }

    fn put_many(
        &mut self,
        entries: Vec<(String, String)>,
    ) -> Result<Displaced<String, String>, String> {
        match self {
            Node::Leaf(tier) => tier.put_many(entries),
            Node::Router(router) => in_words(TierWrite::put_many(router, entries)),
            Node::Store(store) => in_words(TierWrite::put_many(store, entries)),
        }
    }

    fn delete_many(&mut self, keys: &[String]) -> Result<Vec<bool>, String> {
        match self {
            Node::Leaf(tier) => tier.delete_many(keys),
            Node::Router(router) => in_words(TierWrite::delete_many(router, keys)),
            Node::Store(store) => in_words(TierWrite::delete_many(store, keys)),
        }
    }
}

fn key(s: &str) -> String {
    s.to_owned()
}

fn reading(promote: Promote, on_error: OnReadError) -> Policy {
    Policy { read: ReadPolicy { promote, on_error }, ..Policy::default() }
}

/// Availability over authority: fall through failures, refill the top.
fn cache_policy() -> Policy {
    Policy {
        read: ReadPolicy { promote: Promote::TopOnly, on_error: OnReadError::FallThrough },
        write: WriteMode::WriteThrough,
        on_write_error: OnWriteError::BestEffort,
        demote_displaced: true,
    }
}

#[test]
fn read_through_promotes_into_all_upper_tiers() {
    let mut hot = MemoryTier::unbounded();
    let mut warm = MemoryTier::unbounded();
    let mut cold = MemoryTier::unbounded();
    cold.put(key("user:1"), key("alice")).expect("seed cold");

    let mut router = Router::builder()
        .tier(hot.clone())
        .tier(warm.clone())
        .tier(cold.clone())
        .policy(reading(Promote::AllAbove, OnReadError::FallThrough))
        .build();

    assert_eq!(router.get(&key("user:1")).expect("routed get"), Some(key("alice")));
    // Inclusive promotion: both upper tiers now hold the value.
    assert_eq!(hot.get(&key("user:1")).expect("hot get"), Some(key("alice")));
    assert_eq!(warm.get(&key("user:1")).expect("warm get"), Some(key("alice")));
}

#[test]
fn top_only_promotion_skips_middle_tiers() {
    let mut hot = MemoryTier::unbounded();
    let mut warm = MemoryTier::unbounded();
    let mut cold = MemoryTier::unbounded();
    cold.put(key("k"), 7_u32).expect("seed cold");

    let mut router = Router::builder()
        .tier(hot.clone())
        .tier(warm.clone())
        .tier(cold.clone())
        .policy(reading(Promote::TopOnly, OnReadError::FallThrough))
        .build();

    assert_eq!(router.get(&key("k")).expect("routed get"), Some(7));
    assert_eq!(hot.get(&key("k")).expect("hot get"), Some(7));
    assert_eq!(warm.get(&key("k")).expect("warm get"), None);
}

#[test]
fn rollover_keeps_hot_evictions_reachable_via_warm() {
    let mut hot = MemoryTier::bounded(1);
    let mut warm = MemoryTier::unbounded();
    // `x` lives only in hot, `y` only in warm.
    hot.put(key("x"), key("vx")).expect("seed hot");
    warm.put(key("y"), key("vy")).expect("seed warm");

    let mut router = Router::builder()
        .tier(hot.clone())
        .tier(warm.clone())
        .policy(Policy {
            demote_displaced: true,
            ..reading(Promote::TopOnly, OnReadError::FallThrough)
        })
        .build();

    // Reading `y` promotes it into hot (capacity 1), displacing `x`, which
    // must roll over into warm rather than vanish.
    assert_eq!(router.get(&key("y")).expect("get y"), Some(key("vy")));
    assert_eq!(hot.get(&key("y")).expect("hot get"), Some(key("vy")));
    assert_eq!(hot.get(&key("x")).expect("hot get"), None);
    assert_eq!(warm.get(&key("x")).expect("warm get"), Some(key("vx")));
    // And the router still serves it.
    assert_eq!(router.get(&key("x")).expect("get x"), Some(key("vx")));
}

#[test]
fn displacement_off_the_bottom_is_returned_from_set() {
    let mut router = Router::builder().tier(MemoryTier::bounded(1)).build();

    assert_eq!(router.put(key("a"), key("va")).expect("put a"), vec![]);
    // `a` falls off the only (bottommost) tier: evicted from the store
    // entirely, and the caller is told so.
    assert_eq!(router.put(key("b"), key("vb")).expect("put b"), vec![(key("a"), key("va"))]);
}

#[test]
fn fall_through_serves_from_below_a_failing_tier() {
    let mut warm = MemoryTier::unbounded();
    warm.put(key("k"), key("v")).expect("seed warm");

    let mut router = Router::builder()
        .tier(MemoryTier::failing())
        .tier(warm.clone())
        .policy(reading(Promote::Never, OnReadError::FallThrough))
        .build();

    assert_eq!(router.get(&key("k")).expect("get"), Some(key("v")));
}

#[test]
fn miss_past_a_failing_tier_is_inconclusive_not_none() {
    let mut router: Router<MemoryTier<String>> =
        Router::builder().tier(MemoryTier::failing()).tier(MemoryTier::unbounded()).build();

    match router.get(&key("absent")) {
        Err(RouterError::Inconclusive(failures)) => {
            assert_eq!(failures.len(), 1);
            assert_eq!(failures[0].tier(), 0);
            assert_eq!(failures[0].tier_name(), "failing");
        }
        other => panic!("expected inconclusive read, got {other:?}"),
    }
}

#[test]
fn fail_fast_surfaces_the_failing_tier() {
    let mut warm = MemoryTier::unbounded();
    warm.put(key("k"), key("v")).expect("seed warm");

    let mut router = Router::builder()
        .tier(MemoryTier::failing())
        .tier(warm.clone())
        .policy(reading(Promote::Never, OnReadError::FailFast))
        .build();

    match router.get(&key("k")) {
        Err(RouterError::Tier(failure)) => assert_eq!(failure.tier(), 0),
        other => panic!("expected fail-fast tier error, got {other:?}"),
    }
}

#[test]
fn delete_attempts_every_tier_and_reports_partial_failure() {
    let mut warm = MemoryTier::unbounded();
    warm.put(key("k"), key("v")).expect("seed warm");

    let mut router = Router::builder().tier(MemoryTier::failing()).tier(warm.clone()).build();

    match router.delete(&key("k")) {
        Err(RouterError::Partial(failures)) => assert_eq!(failures.len(), 1),
        other => panic!("expected partial delete failure, got {other:?}"),
    }
    // The reachable tier was still cleaned up despite the failure above it.
    assert_eq!(warm.get(&key("k")).expect("warm get"), None);
}

#[test]
fn delete_reports_whether_the_key_existed_anywhere() {
    let hot = MemoryTier::unbounded();
    let mut warm = MemoryTier::unbounded();
    warm.put(key("k"), key("v")).expect("seed warm");

    let mut router = Router::builder().tier(hot.clone()).tier(warm.clone()).build();

    assert!(router.delete(&key("k")).expect("delete"));
    assert!(!router.delete(&key("k")).expect("second delete"));
}

#[test]
fn write_around_writes_bottom_and_invalidates_upper() {
    let mut hot = MemoryTier::unbounded();
    let mut warm = MemoryTier::unbounded();
    hot.put(key("k"), key("stale")).expect("seed hot");

    let mut router = Router::builder()
        .tier(hot.clone())
        .tier(warm.clone())
        .policy(Policy { write: WriteMode::WriteAround, ..Policy::default() })
        .build();

    router.put(key("k"), key("fresh")).expect("write around");
    assert_eq!(warm.get(&key("k")).expect("warm get"), Some(key("fresh")));
    // The stale hot copy must be gone, or reads would shadow the new value.
    assert_eq!(hot.get(&key("k")).expect("hot get"), None);
    assert_eq!(router.get(&key("k")).expect("routed get"), Some(key("fresh")));
}

#[test]
fn exists_falls_through_without_promoting() {
    let mut hot = MemoryTier::unbounded();
    let mut cold = MemoryTier::unbounded();
    cold.put(key("k"), key("v")).expect("seed cold");

    let mut router = Router::builder().tier(hot.clone()).tier(cold.clone()).build();

    assert!(router.contains(&key("k")).expect("exists"));
    // Existence checks never promote.
    assert_eq!(hot.get(&key("k")).expect("hot get"), None);
    assert!(!router.contains(&key("absent")).expect("exists absent"));
}

#[test]
fn batched_get_gathers_across_tiers_and_promotes() {
    let mut hot = MemoryTier::unbounded();
    let mut warm = MemoryTier::unbounded();
    let mut cold = MemoryTier::unbounded();
    hot.put(key("a"), key("va")).expect("seed hot");
    warm.put(key("b"), key("vb")).expect("seed warm");
    cold.put(key("c"), key("vc")).expect("seed cold");

    let mut router = Router::builder()
        .tier(hot.clone())
        .tier(warm.clone())
        .tier(cold.clone())
        .policy(reading(Promote::AllAbove, OnReadError::FallThrough))
        .build();

    let keys = [key("a"), key("b"), key("c"), key("nope")];
    assert_eq!(
        router.get_many(&keys).expect("batched get"),
        vec![Some(key("va")), Some(key("vb")), Some(key("vc")), None]
    );
    // Hits found below were promoted into hot.
    assert_eq!(hot.get(&key("b")).expect("hot get"), Some(key("vb")));
    assert_eq!(hot.get(&key("c")).expect("hot get"), Some(key("vc")));
}

#[test]
fn batched_put_reports_bottom_displacement() {
    let mut router = Router::builder().tier(MemoryTier::bounded(1)).build();

    let displaced = router
        .put_many(vec![(key("a"), key("va")), (key("b"), key("vb"))])
        .expect("batched put");
    assert_eq!(displaced, vec![(key("a"), key("va"))]);
}

#[test]
fn batched_delete_attempts_every_tier_and_reports_partial() {
    let mut warm = MemoryTier::unbounded();
    warm.put(key("k"), key("v")).expect("seed warm");

    let mut router = Router::builder().tier(MemoryTier::failing()).tier(warm.clone()).build();

    match router.delete_many(&[key("k")]) {
        Err(RouterError::Partial(failures)) => assert_eq!(failures.len(), 1),
        other => panic!("expected partial batched delete, got {other:?}"),
    }
    assert_eq!(warm.get(&key("k")).expect("warm get"), None);
}

#[test]
fn batched_read_reports_per_key_statuses() {
    let mut warm = MemoryTier::unbounded();
    warm.put(key("k"), key("v")).expect("seed warm");

    let mut router = Router::builder()
        .tier(MemoryTier::failing())
        .tier(warm.clone())
        .policy(reading(Promote::Never, OnReadError::FallThrough))
        .build();

    let report = router.read_many(&[key("k"), key("absent")]).expect("read_many");
    assert!(!report.is_complete());
    assert_eq!(report.failures.len(), 1);
    // The resolved key survives as a hit with tier provenance…
    assert_eq!(report.statuses[0], KeyStatus::Hit { tier: 1, value: key("v") });
    // …while the unresolved one is inconclusive, not a false miss.
    assert_eq!(report.statuses[1], KeyStatus::Inconclusive);
}

#[test]
fn batched_miss_past_failing_tier_is_inconclusive() {
    let mut warm = MemoryTier::unbounded();
    warm.put(key("k"), key("v")).expect("seed warm");

    let mut router = Router::builder().tier(MemoryTier::failing()).tier(warm.clone()).build();

    // "k" resolves below the failing tier, but "absent" cannot be confirmed
    // missing: whole-batch granularity makes the entire batch inconclusive.
    match router.get_many(&[key("k"), key("absent")]) {
        Err(RouterError::Inconclusive(failures)) => assert_eq!(failures.len(), 1),
        other => panic!("expected inconclusive batch, got {other:?}"),
    }
}

#[test]
fn best_effort_writes_skip_failing_tiers() {
    let mut warm = MemoryTier::unbounded();
    let mut router = Router::builder()
        .tier(MemoryTier::failing())
        .tier(warm.clone())
        .policy(Policy { on_write_error: OnWriteError::BestEffort, ..Policy::default() })
        .build();

    // The failing tier is skipped; the healthy one is written; the caller
    // sees success (a failed fill is a capacity loss, not a failure).
    router.put(key("k"), key("v")).expect("best-effort put");
    assert_eq!(warm.get(&key("k")).expect("warm"), Some(key("v")));

    let stats = router.stats();
    assert_eq!(stats[0].errors, 1, "the skipped failure lands in stats");
    assert_eq!(stats[1].puts, 1);
}

#[test]
fn stats_count_per_tier_activity() {
    let hot = MemoryTier::unbounded();
    let cold = MemoryTier::unbounded();
    let mut router = Router::builder().tier(hot.clone()).tier(cold.clone()).build();

    router.put(key("k"), key("v")).expect("put");
    assert_eq!(router.get(&key("k")).expect("get"), Some(key("v")));
    assert_eq!(router.get(&key("absent")).expect("miss"), None);

    let stats = router.stats();
    assert_eq!(stats.len(), 2);
    assert_eq!(stats[0].name, "memory");
    assert!(!stats[0].read_only);
    // Write-through wrote both tiers.
    assert_eq!(stats[0].puts, 1);
    assert_eq!(stats[1].puts, 1);
    // The hit was served from hot; cold was never probed for it.
    assert_eq!(stats[0].hits, 1);
    assert_eq!(stats[1].hits, 0);
    // The confirmed miss probed both tiers.
    assert_eq!(stats[0].misses, 1);
    assert_eq!(stats[1].misses, 1);
    assert_eq!(stats[0].errors, 0);
}

#[test]
fn routers_compose_as_tiers_of_routers() {
    let mut hot = MemoryTier::unbounded();
    let mut warm = MemoryTier::unbounded();
    let mut cold = MemoryTier::unbounded();
    cold.put(key("k"), key("v")).expect("seed cold");

    // The local hierarchy is itself a tier of the outer router.
    let local = Router::builder().tier(hot.clone()).tier(warm.clone()).build();
    let mut outer = Router::builder()
        .tier(Node::Router(local))
        .tier(Node::Leaf(cold.clone()))
        .policy(reading(Promote::AllAbove, OnReadError::FallThrough))
        .build();

    assert_eq!(outer.get(&key("k")).expect("outer get"), Some(key("v")));
    // Promotion into the inner router wrote through its own hierarchy.
    assert_eq!(hot.get(&key("k")).expect("hot get"), Some(key("v")));
    assert_eq!(warm.get(&key("k")).expect("warm get"), Some(key("v")));
}

#[test]
fn cache_over_read_only_origin() {
    let mut hot = MemoryTier::unbounded();
    let mut origin = MemoryTier::unbounded();
    origin.put(key("k"), key("v")).expect("seed origin");
    let seeded = origin.writes();
    let mut cache = Router::builder()
        .tier(hot.clone())
        .read_only_tier(origin.clone())
        .policy(cache_policy())
        .build();

    // Read-through with promotion into the writable layer.
    assert_eq!(cache.get(&key("k")).expect("get"), Some(key("v")));
    assert_eq!(hot.get(&key("k")).expect("hot"), Some(key("v")));

    // Puts fill the cache layers only: the origin cannot be written, and
    // no write is ever attempted against it.
    cache.put(key("k2"), key("v2")).expect("put");
    assert_eq!(cache.get(&key("k2")).expect("get"), Some(key("v2")));

    // Invalidation clears local copies; the origin re-serves the key
    // afterwards, by design for an origin the cache does not own.
    assert!(cache.delete(&key("k")).expect("invalidate"));
    assert_eq!(hot.get(&key("k")).expect("hot"), None);
    assert_eq!(cache.get(&key("k")).expect("get again"), Some(key("v")));
    assert_eq!(origin.writes(), seeded);
}

#[test]
fn fully_read_only_router_rejects_writes() {
    let mut origin = MemoryTier::unbounded();
    origin.put(key("k"), key("v")).expect("seed origin");
    let mut router = Router::builder().read_only_tier(origin.clone()).build();

    assert_eq!(router.get(&key("k")).expect("get"), Some(key("v")));
    match router.put(key("x"), key("y")) {
        Err(RouterError::ReadOnly) => {}
        other => panic!("expected RouterError::ReadOnly, got {other:?}"),
    }
    // Deletes are no-ops over read-only tiers: nothing deletable existed.
    assert!(!router.delete(&key("k")).expect("delete"));
    // And the key is still served.
    assert_eq!(router.get(&key("k")).expect("get again"), Some(key("v")));
}

#[test]
fn bounded_uppers_roll_over_losslessly() {
    let mut hot = MemoryTier::bounded(1);
    let warm = MemoryTier::unbounded();
    let mut store = TieredStore::builder().tier(hot.clone()).tier(warm.clone()).build();

    // Two puts through a one-slot hot tier: the overflow demotes into warm
    // instead of being lost, so both writes succeed.
    store.put(key("a"), key("va")).expect("put a");
    store.put(key("b"), key("vb")).expect("put b");

    // No promotion: data is served from wherever it lives, and stays there.
    assert_eq!(store.get(&key("a")).expect("get a"), Some(key("va")));
    assert_eq!(store.get(&key("b")).expect("get b"), Some(key("vb")));
    assert_eq!(hot.get(&key("a")).expect("hot peek"), None);
    // An absent key is an authoritative miss.
    assert_eq!(store.get(&key("absent")).expect("get absent"), None);
}

#[test]
fn displacement_off_the_bottom_is_data_loss() {
    // A store whose *bottom* tier is bounded can lose data; that must be
    // an error carrying the evicted entries, never a silent shrink.
    let mut store = TieredStore::builder().tier(MemoryTier::bounded(1)).build();

    store.put(key("a"), key("va")).expect("first put fits");
    match store.put(key("b"), key("vb")) {
        Err(StoreError::Evicted(lost)) => {
            assert_eq!(lost, vec![(key("a"), key("va"))]);
        }
        other => panic!("expected data-loss error, got {other:?}"),
    }
}

#[test]
fn reads_fail_fast_instead_of_serving_around_failures() {
    // The same layout a cache would happily serve through: a failing tier
    // above a healthy one holding the value.
    let mut warm = MemoryTier::unbounded();
    warm.put(key("k"), key("v")).expect("seed warm");

    let mut store = TieredStore::builder().tier(MemoryTier::failing()).tier(warm.clone()).build();

    match store.get(&key("k")) {
        Err(StoreError::Router(RouterError::Tier(failure))) => {
            assert_eq!(failure.tier(), 0);
        }
        other => panic!("a store must not serve around a broken tier, got {other:?}"),
    }
}

#[test]
fn cache_composes_over_store_as_its_bottom_tier() {
    // The blessed layering: cache tiers above, the authority below. The
    // store IS the cache's bottom tier.
    let mut backend = MemoryTier::unbounded();
    let store = TieredStore::builder().tier(backend.clone()).build();
    let mut hot = MemoryTier::bounded(1);
    let mut cache = Router::builder()
        .tier(Node::Leaf(hot.clone()))
        .tier(Node::Store(store))
        .policy(cache_policy())
        .build();

    // Write-through reaches the authority first, then the cache layer.
    cache.put(key("a"), key("va")).expect("put a");
    assert_eq!(backend.get(&key("a")).expect("backend peek"), Some(key("va")));

    // A hot hit never consults the authority.
    let peeks = backend.gets();
    assert_eq!(cache.get(&key("a")).expect("get a"), Some(key("va")));
    assert_eq!(backend.gets(), peeks);

    // Displacing `a` from the one-slot hot tier rolls it into the store
    // tier (already present there, lossless either way), and re-reading
    // it fills from the authority exactly once.
    cache.put(key("b"), key("vb")).expect("put b");
    assert_eq!(hot.get(&key("a")).expect("hot peek"), None);
    assert_eq!(cache.get(&key("a")).expect("get a again"), Some(key("va")));
    assert_eq!(backend.gets(), peeks + 1);
    assert_eq!(
        hot.get(&key("a")).expect("hot peek"),
        Some(key("va")),
        "the fill must promote back into the cache layer"
    );
}

#[test]
fn partial_deletes_surface_loudly() {
    let mut warm = MemoryTier::unbounded();
    warm.put(key("k"), key("v")).expect("seed warm");

    let mut store = TieredStore::builder().tier(MemoryTier::failing()).tier(warm.clone()).build();

    match store.delete(&key("k")) {
        Err(StoreError::Router(RouterError::Partial(failures))) => {
            assert_eq!(failures.len(), 1);
        }
        other => panic!("expected partial-delete error, got {other:?}"),
    }
    // The reachable tier was still cleaned up.
    assert_eq!(warm.get(&key("k")).expect("warm peek"), None);
}

/// Typed value with a hand-rolled `key\n<id>\n<body>` byte encoding.
#[derive(Debug, Clone, PartialEq, Eq)]
struct Doc {
    id: u32,
    body: String,
}

fn doc_key(key: &String) -> String {
    format!("hashed:{key}")
}

fn encode_doc(key: &String, doc: &Doc) -> Result<Vec<u8>, String> {
    if doc.body.len() > 100 {
        return Err("oversized record".to_owned());
    }
    Ok(format!("{key}\n{}\n{}", doc.id, doc.body).into_bytes())
}

fn decode_doc(bytes: Vec<u8>) -> Result<(String, Doc), String> {
    let text = String::from_utf8(bytes).map_err(|error| error.to_string())?;
    let mut parts = text.splitn(3, '\n');
    let (Some(key), Some(id), Some(body)) = (parts.next(), parts.next(), parts.next()) else {
        return Err("malformed record".to_owned());
    };
    let id = id.parse::<u32>().map_err(|error| error.to_string())?;
    Ok((key.to_owned(), Doc { id, body: body.to_owned() }))
}

type DocTier = CodecTier<
    MemoryTier<Vec<u8>>,
    String,
    Doc,
    String,
    fn(&String) -> String,
    fn(&String, &Doc) -> Result<Vec<u8>, String>,
    fn(Vec<u8>) -> Result<(String, Doc), String>,
>;

fn typed_over_bytes(inner: MemoryTier<Vec<u8>>) -> DocTier {
    CodecTier::new(inner, doc_key, encode_doc, decode_doc)
}

fn doc(id: u32, body: &str) -> Doc {
    Doc { id, body: body.to_owned() }
}

#[test]
fn typed_round_trip_over_a_byte_tier() {
    let mut tier = typed_over_bytes(MemoryTier::unbounded());
    let doc = doc(7, "hello");
    tier.put(key("k"), doc.clone()).expect("put");
    assert_eq!(tier.get(&key("k")).expect("get"), Some(doc));
    assert!(tier.contains(&key("k")).expect("exists"));
    assert!(tier.delete(&key("k")).expect("delete"));
    assert_eq!(tier.get(&key("k")).expect("get"), None);
}

#[test]
fn displaced_entries_climb_back_out_typed() {
    // A bounded byte tier under the codec: displacement crosses the
    // codec boundary and must come back with the ORIGINAL typed key.
    let byte_tier = MemoryTier::bounded(1);
    let mut router = Router::builder().tier(typed_over_bytes(byte_tier)).build();

    let first = doc(1, "one");
    router.put(key("a"), first.clone()).expect("put a");
    let displaced = router.put(key("b"), doc(2, "two")).expect("put b");
    assert_eq!(displaced, vec![(key("a"), first)]);
}

#[test]
fn codec_batches_stay_typed_and_keep_their_order() {
    let bytes = MemoryTier::bounded(2);
    let mut tier = typed_over_bytes(bytes.clone());
    let displaced = tier
        .put_many(vec![(key("a"), doc(1, "one")), (key("b"), doc(2, "two")), (key("c"), doc(3, "3"))])
        .expect("put_many");
    assert_eq!(displaced, vec![(key("a"), doc(1, "one"))]);
    assert_eq!(
        tier.get_many(&[key("c"), key("a"), key("b")]).expect("get_many"),
        vec![Some(doc(3, "3")), None, Some(doc(2, "two"))]
    );
    assert_eq!(
        tier.delete_many(&[key("b"), key("a")]).expect("delete_many"),
        vec![true, false]
    );
    assert_eq!(tier.name(), "codec(memory)");
}

#[test]
fn codec_failures_are_typed() {
    let mut bytes = MemoryTier::unbounded();
    bytes.put(key("hashed:k"), b"no record".to_vec()).expect("seed");
    let mut tier = typed_over_bytes(bytes.clone());

    match tier.get(&key("k")) {
        Err(CodecError::Codec(reason)) => assert_eq!(reason, "malformed record"),
        other => panic!("expected a codec error, got {other:?}"),
    }
    // An entry that does not encode never reaches the byte tier.
    let writes = bytes.writes();
    match tier.put(key("big"), doc(1, &"x".repeat(101))) {
        Err(CodecError::Codec(reason)) => assert_eq!(reason, "oversized record"),
        other => panic!("expected a codec error, got {other:?}"),
    }
    assert_eq!(bytes.writes(), writes);

    let mut broken = typed_over_bytes(MemoryTier::failing());
    match broken.get(&key("k")) {
        Err(error @ CodecError::Backend(_)) => {
            assert_eq!(error.message("failing tier: get"), "backend error: failing tier: get");
        }
        other => panic!("expected a backend error, got {other:?}"),
    }
    assert_eq!(
        CodecError::<String, String>::Codec(key("x")).message("bad"),
        "codec error: bad"
    );
}

fn not_empty(_key: &String, value: &String) -> Result<(), String> {
    if value.is_empty() {
        Err("empty value".to_owned())
    } else {
        Ok(())
    }
}

#[test]
fn corrupt_values_are_neither_served_nor_promoted() {
    let mut origin = MemoryTier::unbounded();
    origin.put(key("good"), key("v")).expect("seed");
    origin.put(key("bad"), key("")).expect("seed");
    let mut hot = MemoryTier::unbounded();
    let mut router = Router::builder()
        .tier(VerifiedTier::new(hot.clone(), not_empty))
        .tier(VerifiedTier::new(origin.clone(), not_empty))
        .policy(reading(Promote::AllAbove, OnReadError::FallThrough))
        .build();

    assert_eq!(router.get(&key("good")).expect("good"), Some(key("v")));
    match router.get(&key("bad")) {
        Err(RouterError::Inconclusive(failures)) => {
            assert_eq!(failures[0].tier(), 1);
            assert_eq!(failures[0].tier_name(), "verified(memory)");
            match failures[0].source() {
                error @ VerifyError::Corrupt(reason) => assert_eq!(
                    error.message(reason),
                    "verification rejected value: empty value"
                ),
                other => panic!("expected a rejected value, got {other:?}"),
            }
        }
        other => panic!("expected an inconclusive read, got {other:?}"),
    }
    assert!(hot.contains(&key("good")).expect("hot"));
    assert!(!hot.contains(&key("bad")).expect("hot"));
}

#[test]
fn one_corrupt_value_fails_its_batch() {
    let mut origin = MemoryTier::unbounded();
    origin.put(key("good"), key("v")).expect("seed");
    origin.put(key("bad"), key("")).expect("seed");
    let mut tier = VerifiedTier::new(origin, not_empty);

    assert_eq!(
        tier.get_many(&[key("good"), key("absent")]).expect("clean batch"),
        vec![Some(key("v")), None]
    );
    match tier.get_many(&[key("good"), key("bad")]) {
        Err(VerifyError::Corrupt(reason)) => assert_eq!(reason, "empty value"),
        other => panic!("expected a rejected batch, got {other:?}"),
    }
    // Existence checks and writes pass through unverified.
    assert!(tier.contains(&key("bad")).expect("exists"));
    tier.put(key("worse"), key("")).expect("put");
    assert!(tier.delete(&key("worse")).expect("delete"));
    let page = tier.list(None, 1).expect("list");
    assert_eq!(page.keys, vec![key("good")]);
    assert_eq!(page.next, Some(1));
}

#[test]
fn limited_tiers_forward_everything() {
    let mut tier = LimitedTier::new(MemoryTier::bounded(2), 1);
    assert_eq!(tier.put(key("a"), 1_u32).expect("put"), vec![]);
    let displaced = tier.put_many(vec![(key("b"), 2), (key("c"), 3)]).expect("put_many");
    assert_eq!(displaced, vec![(key("a"), 1)]);
    assert_eq!(tier.get(&key("b")).expect("get"), Some(2));
    assert_eq!(tier.get_many(&[key("a"), key("c")]).expect("get_many"), vec![None, Some(3)]);
    assert!(tier.contains(&key("c")).expect("exists"));
    assert_eq!(tier.list(None, 10).expect("list").keys, vec![key("b"), key("c")]);
    assert!(tier.delete(&key("b")).expect("delete"));
    assert_eq!(tier.delete_many(&[key("b"), key("c")]).expect("delete_many"), vec![false, true]);
    assert_eq!(tier.name(), "limited(memory)");
}

#[test]
fn without_demotion_displaced_entries_are_told_at_once() {
    let mut warm = MemoryTier::unbounded();
    let mut router = Router::builder()
        .tier(MemoryTier::bounded(1))
        .tier(warm.clone())
        .policy(Policy { demote_displaced: false, ..Policy::default() })
        .build();

    assert_eq!(router.put(key("a"), key("va")).expect("put a"), vec![]);
    // What the top tier displaces is told at once, although write-through left
    // a copy of it below.
    assert_eq!(router.put(key("b"), key("vb")).expect("put b"), vec![(key("a"), key("va"))]);
    assert_eq!(warm.get(&key("a")).expect("warm"), Some(key("va")));
}

#[test]
fn writes_read_back_through_rollover() {
    let mut router = Router::builder()
        .tier(MemoryTier::bounded(1))
        .tier(MemoryTier::bounded(2))
        .tier(MemoryTier::unbounded())
        .policy(Policy { demote_displaced: true, ..Policy::default() })
        .build();
    for i in 0..6 {
        router.put(format!("k{i}"), format!("v{i}")).expect("put");
    }
    for i in 0..6 {
        assert_eq!(router.get(&format!("k{i}")).expect("get"), Some(format!("v{i}")));
        assert!(router.contains(&format!("k{i}")).expect("exists"));
    }
}

#[test]
fn deleted_keys_stay_away() {
    let mut hot = MemoryTier::unbounded();
    let mut cold = MemoryTier::unbounded();
    hot.put(key("k"), key("new")).expect("seed hot");
    cold.put(key("k"), key("old")).expect("seed cold");
    let mut router = Router::builder().tier(hot.clone()).tier(cold.clone()).build();

    // The topmost copy answers.
    assert_eq!(router.get(&key("k")).expect("get"), Some(key("new")));
    assert!(router.delete(&key("k")).expect("delete"));
    assert_eq!(router.get(&key("k")).expect("get"), None);
    assert_eq!(cold.get(&key("k")).expect("cold"), None);
}

#[test]
fn aborted_writes_leave_upper_tiers_alone() {
    let hot = MemoryTier::unbounded();
    let mut router = Router::builder().tier(hot.clone()).tier(MemoryTier::failing()).build();

    match router.put(key("k"), key("v")) {
        Err(RouterError::Tier(failure)) => assert_eq!(failure.tier(), 1),
        other => panic!("expected an aborted write, got {other:?}"),
    }
    assert_eq!(hot.writes(), 0);
}

#[test]
fn removal_reports_say_what_was_there() {
    let mut warm = MemoryTier::unbounded();
    warm.put(key("k"), key("v")).expect("seed warm");
    let mut router = Router::builder().tier(MemoryTier::unbounded()).tier(warm.clone()).build();

    let report = router.remove_many(&[key("k"), key("absent")]);
    assert!(report.is_complete());
    assert_eq!(report.removed, vec![true, false]);

    let mut broken = Router::builder().tier(MemoryTier::failing()).tier(warm.clone()).build();
    let report = broken.remove_many(&[key("k")]);
    assert!(!report.is_complete());
    assert_eq!(report.removed, vec![false]);
    assert_eq!(report.failures.len(), 1);
}

#[test]
fn read_reports_turn_into_values() {
    let mut warm = MemoryTier::unbounded();
    warm.put(key("k"), key("v")).expect("seed warm");
    let mut router = Router::builder().tier(warm.clone()).build();

    let report = router.read_many(&[key("absent"), key("k")]).expect("read_many");
    assert!(report.is_complete());
    assert_eq!(report.statuses[0], KeyStatus::Miss);
    assert_eq!(report.statuses[0].value(), None);
    assert_eq!(report.statuses[1].value(), Some(&key("v")));
    assert_eq!(report.into_values(), vec![None, Some(key("v"))]);
}

#[test]
fn errors_speak_plainly() {
    let mut router: Router<MemoryTier<String>> = Router::builder()
        .tier(MemoryTier::unbounded())
        .tier(MemoryTier::failing())
        .policy(reading(Promote::Never, OnReadError::FailFast))
        .build();

    let error = router.get(&key("k")).expect_err("fail-fast");
    assert_eq!(error.message(), "tier 1 (failing) failed");
    assert_eq!(error.failures().len(), 1);
    assert_eq!(error.failures()[0].tier(), 1);
    assert_eq!(error.source().map(|failure| failure.source().clone()), Some(key("failing tier: get")));

    let error = router.delete(&key("k")).expect_err("partial");
    assert_eq!(
        error.message(),
        "operation partially failed on 1 tier(s); cross-tier state may be inconsistent"
    );
    assert_eq!(error.failures()[0].message(), "tier 1 (failing) failed");

    let mut lax: Router<MemoryTier<String>> =
        Router::builder().tier(MemoryTier::failing()).tier(MemoryTier::failing()).build();
    let error = lax.get(&key("k")).expect_err("inconclusive");
    assert_eq!(error.message(), "read inconclusive: no hit and 2 tier(s) failed");
    assert_eq!(error.failures().len(), 2);

    let error = RouterError::<String>::ReadOnly;
    assert_eq!(error.message(), "write rejected: the router has no writable tier");
    assert_eq!(error.failures().len(), 0);
    assert!(error.source().is_none());
}

#[test]
fn store_errors_speak_plainly() {
    let lost: StoreError<String, String, String> = StoreError::Evicted(vec![(key("a"), key("va"))]);
    assert_eq!(
        lost.message(),
        "write displaced 1 entry off the bottom tier — data loss for a store"
    );
    assert!(lost.source().is_none());
    let lost: StoreError<String, String, String> =
        StoreError::Evicted(vec![(key("a"), key("va")), (key("b"), key("vb"))]);
    assert_eq!(
        lost.message(),
        "write displaced 2 entries off the bottom tier — data loss for a store"
    );
    let routed: StoreError<String, String, String> = StoreError::from(RouterError::ReadOnly);
    assert_eq!(routed.message(), "write rejected: the router has no writable tier");
    assert!(routed.source().is_some());
}

#[test]
fn stores_batch_with_the_same_stance() {
    let mut store = TieredStore::builder()
        .tier(MemoryTier::bounded(1))
        .tier(MemoryTier::bounded(2))
        .build();
    store.put_many(vec![(key("a"), key("va")), (key("b"), key("vb"))]).expect("fits");
    let report = store.get_many(&[key("a"), key("b"), key("c")]).expect("get_many");
    assert_eq!(report.into_values(), vec![Some(key("va")), Some(key("vb")), None]);
    assert!(store.contains(&key("b")).expect("contains"));
    match store.put(key("c"), key("vc")) {
        Err(StoreError::Evicted(lost)) => assert_eq!(lost.len(), 1),
        other => panic!("expected data loss, got {other:?}"),
    }
    let report = store.delete_many(&[key("a"), key("b"), key("c")]);
    assert!(report.is_complete());
    assert_eq!(report.removed.iter().filter(|removed| **removed).count(), 2);
    assert_eq!(store.router().tier_count(), 2);
    assert_eq!(TieredStore::<MemoryTier<String>>::default_policy(), store.router().policy());
}

#[test]
fn a_router_over_an_empty_tier_misses_everything() {
    let mut router: Router<MemoryTier<String>> =
        Router::builder().tier(MemoryTier::unbounded()).build();
    assert_eq!(router.tier_count(), 1);
    assert_eq!(router.policy(), Policy::default());
    assert_eq!(router.get(&key("k")).expect("get"), None);
    assert!(!router.contains(&key("k")).expect("exists"));
    assert!(!router.delete(&key("k")).expect("delete"));
    assert_eq!(router.name(), "router");
    let stats = router.stats();
    assert_eq!((stats[0].hits, stats[0].misses, stats[0].puts, stats[0].errors), (0, 1, 0, 0));
}

#[test]
fn batched_reads_ask_lower_tiers_only_for_missing_keys() {
    let mut hot = MemoryTier::unbounded();
    let mut cold = MemoryTier::unbounded();
    hot.put(key("a"), key("va")).expect("seed hot");
    cold.put(key("a"), key("old")).expect("seed cold");
    cold.put(key("b"), key("vb")).expect("seed cold");
    let mut router = Router::builder().tier(hot.clone()).tier(cold.clone()).build();
    let before = cold.gets();
    assert_eq!(
        router.get_many(&[key("a"), key("b"), key("a"), key("c")]).expect("get_many"),
        vec![Some(key("va")), Some(key("vb")), Some(key("va")), None]
    );
    assert_eq!(cold.gets(), before + 2);
}

#[test]
fn failed_invalidations_make_a_write_around_partial() {
    let mut warm = MemoryTier::unbounded();
    let mut router = Router::builder()
        .tier(MemoryTier::failing())
        .tier(warm.clone())
        .policy(Policy { write: WriteMode::WriteAround, ..Policy::default() })
        .build();
    match router.put(key("k"), key("v")) {
        Err(RouterError::Partial(failures)) => assert_eq!(failures[0].tier(), 0),
        other => panic!("expected a partial write, got {other:?}"),
    }
    assert_eq!(warm.get(&key("k")).expect("warm"), Some(key("v")));
}

#[test]
fn first_failures_end_a_batch_served_one_by_one() {
    let mut broken = MemoryTier::<String>::failing();
    assert_eq!(get_each(&mut broken, &[key("a"), key("b")]), Err(key("failing tier: get")));
    assert_eq!(broken.gets(), 1);
    assert_eq!(
        put_each(&mut broken, vec![(key("a"), key("x")), (key("b"), key("y"))]),
        Err(key("failing tier: put"))
    );
    assert_eq!(broken.writes(), 1);
    assert_eq!(
        delete_each(&mut broken, &[key("a"), key("b")]),
        Err(key("failing tier: delete"))
    );
    assert_eq!(broken.writes(), 2);
}

#[test]
fn batched_writes_read_back_although_they_displace_one_another() {
    let hot = MemoryTier::bounded(1);
    let mut store = TieredStore::builder().tier(hot.clone()).tier(MemoryTier::unbounded()).build();
    store.put(key("b"), key("old")).expect("put");
    // Inserting "a" pushes the old "b" out before the new "b" follows.
    store.put_many(vec![(key("a"), key("1")), (key("b"), key("2"))]).expect("put_many");
    let report = store.get_many(&[key("a"), key("b")]).expect("get_many");
    assert_eq!(report.into_values(), vec![Some(key("1")), Some(key("2"))]);
}

#[test]
fn a_store_reports_what_the_tier_below_refuses() {
    let mut hot = MemoryTier::bounded(1);
    let mut warm = MemoryTier::unbounded();
    let mut store = TieredStore::builder().tier(hot.clone()).tier(warm.clone()).build();
    store.put(key("x"), key("vx")).expect("put x");
    warm.delete(&key("x")).expect("only hot holds x");
    warm.refuse("x");
    match store.put(key("k"), key("v")) {
        Err(StoreError::Evicted(lost)) => assert_eq!(lost, vec![(key("x"), key("vx"))]),
        other => panic!("expected data loss, got {other:?}"),
    }
    assert_eq!(hot.get(&key("x")).expect("hot"), None);
    assert_eq!(store.get(&key("k")).expect("get k"), Some(key("v")));
}

#[test]
fn a_batch_reports_what_the_tier_below_refuses() {
    let warm = MemoryTier::unbounded();
    let mut store =
        TieredStore::builder().tier(MemoryTier::bounded(1)).tier(warm.clone()).build();
    store.put(key("x"), key("vx")).expect("put x");
    warm.refuse("x");
    match store.put_many(vec![(key("a"), key("1")), (key("b"), key("2"))]) {
        Err(StoreError::Evicted(lost)) => assert_eq!(lost, vec![(key("x"), key("vx"))]),
        other => panic!("expected data loss, got {other:?}"),
    }
}

#[test]
fn refused_demotions_go_no_further_and_are_returned() {
    let mut warm = MemoryTier::unbounded();
    let mut cold = MemoryTier::unbounded();
    let mut store = TieredStore::builder()
        .tier(MemoryTier::bounded(1))
        .tier(warm.clone())
        .tier(cold.clone())
        .build();
    store.put(key("x"), key("vx")).expect("put x");
    warm.delete(&key("x")).expect("only hot holds x");
    cold.delete(&key("x")).expect("only hot holds x");
    warm.refuse("x");
    match store.put(key("k"), key("v")) {
        Err(StoreError::Evicted(lost)) => assert_eq!(lost, vec![(key("x"), key("vx"))]),
        other => panic!("expected data loss, got {other:?}"),
    }
    assert_eq!(warm.get(&key("x")).expect("warm"), None);
    assert_eq!(cold.get(&key("x")).expect("cold"), None);
    assert_eq!(store.get(&key("x")).expect("get x"), None);
    assert_eq!(store.get(&key("k")).expect("get k"), Some(key("v")));
}

#[test]
fn what_no_tier_takes_is_returned() {
    let policy = Policy { on_write_error: OnWriteError::BestEffort, ..Policy::default() };
    let mut router = Router::builder()
        .tier(MemoryTier::failing())
        .tier(MemoryTier::failing())
        .policy(policy)
        .build();
    assert_eq!(router.put(key("k"), key("v")).expect("put"), vec![(key("k"), key("v"))]);
    let batch = vec![(key("a"), key("1")), (key("b"), key("2"))];
    assert_eq!(router.put_many(batch.clone()).expect("put_many"), batch);

    let mut store = TieredStore::builder().tier(MemoryTier::failing()).policy(policy).build();
    match store.put(key("k"), key("v")) {
        Err(StoreError::Evicted(lost)) => assert_eq!(lost, vec![(key("k"), key("v"))]),
        other => panic!("expected data loss, got {other:?}"),
    }
}
