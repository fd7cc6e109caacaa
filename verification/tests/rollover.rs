//! Rollover caching over a slot store, a middle tier and the simulated remote.

use std::cell::RefCell;
use std::convert::Infallible;
use std::rc::Rc;
use std::time::Duration;

use tierstore::policy::{OnReadError, OnWriteError, Policy, Promote, ReadPolicy, WriteMode};
use tierstore::remote::RemoteStore;
use tierstore::router::Router;
use tierstore::slot::SlotMmapTier;
use tierstore::tier::{
    delete_each, get_each, put_each, Displaced, Tier, TierRead, TierWrite,
};

const SLOTS: usize = 2;
const SIZE: usize = 256;

struct Slots {
    region: Vec<u8>,
    tier: SlotMmapTier,
}

#[derive(Clone)]
enum Layer {
    Hot(Rc<RefCell<Slots>>),
    Remote(Rc<RefCell<RemoteStore>>),
}

impl Layer {
    fn hot(region: Vec<u8>) -> Self {
        let tier = SlotMmapTier::open(&region, SLOTS, SIZE);
        Layer::Hot(Rc::new(RefCell::new(Slots { region, tier })))
    }

    fn remote() -> Self {
        Layer::Remote(Rc::new(RefCell::new(RemoteStore::new(Duration::ZERO))))
    }

    fn fetches(&self) -> usize {
        match self {
            Layer::Hot(_) => 0,
            Layer::Remote(remote) => remote.borrow().fetches(),
        }
    }
}

fn certain<A>(result: Result<A, Infallible>) -> Result<A, String> {
    match result {
        Ok(value) => Ok(value),
        Err(never) => match never {},
    }
}

impl Tier for Layer {
    type Key = String;
    type Value = Vec<u8>;
    type Error = String;

    fn name(&self) -> &str {
        match self {
            Layer::Hot(_) => "mmap",
            Layer::Remote(_) => "remote",
        }
    }
}

impl TierRead for Layer {
    fn get(&mut self, key: &String) -> Result<Option<Vec<u8>>, String> {
        match self {
            Layer::Hot(slots) => {
                let slots = slots.borrow();
                Ok(slots.tier.fetch(&slots.region, key))
            }
            Layer::Remote(remote) => certain(remote.borrow_mut().get(key)),
        }
    }

    fn contains(&mut self, key: &String) -> Result<bool, String> {
        match self {
            Layer::Hot(slots) => Ok(slots.borrow().tier.contains(key)),
            Layer::Remote(remote) => certain(remote.borrow_mut().contains(key)),
        }
    }

    fn get_many(&mut self, keys: &[String]) -> Result<Vec<Option<Vec<u8>>>, String> {
        get_each(self, keys)
    }
}

impl TierWrite for Layer {
    fn put(&mut self, key: String, value: Vec<u8>) -> Result<Displaced<String, Vec<u8>>, String> {
        match self {
            Layer::Hot(slots) => {
                let Slots { region, tier } = &mut *slots.borrow_mut();
                tier.insert(region, key, &value).map_err(|error| error.message())
            }
            Layer::Remote(remote) => certain(remote.borrow_mut().put(key, value)),
        }
    }

    fn delete(&mut self, key: &String) -> Result<bool, String> {
        match self {
            Layer::Hot(slots) => {
                let Slots { region, tier } = &mut *slots.borrow_mut();
                Ok(tier.remove(region, key))
            }
            Layer::Remote(remote) => certain(remote.borrow_mut().delete(key)),
        }
    }

    fn put_many(
        &mut self,
        entries: Vec<(String, Vec<u8>)>,
    ) -> Result<Displaced<String, Vec<u8>>, String> {
        put_each(self, entries)
    }

    fn delete_many(&mut self, keys: &[String]) -> Result<Vec<bool>, String> {
        delete_each(self, keys)
    }
}

fn key(name: &str) -> String {
    name.to_owned()
}

fn record(name: &str) -> Vec<u8> {
    format!("record for {name}").into_bytes()
}

fn cache(hot: &Layer, warm: &Layer, cold: &Layer) -> Router<Layer> {
    Router::builder()
        .tier(hot.clone())
        .tier(warm.clone())
        .tier(cold.clone())
        .policy(Policy {
            read: ReadPolicy { promote: Promote::TopOnly, on_error: OnReadError::FallThrough },
            write: WriteMode::WriteThrough,
            on_write_error: OnWriteError::BestEffort,
            demote_displaced: true,
        })
        .build()
}

#[test]
fn rollover_survives_overflow_and_restart() {
    let mut remote = Layer::remote();
    for name in ["ada", "grace", "barbara"] {
        remote.put(key(name), record(name)).expect("seed");
    }
    let mut hot = Layer::hot(vec![0; SLOTS * SIZE]);
    let mut warm = Layer::remote();
    let mut router = cache(&hot, &warm, &remote);

    assert_eq!(router.get(&key("ada")).expect("get"), Some(record("ada")));
    assert_eq!(remote.fetches(), 1, "first read must fetch from the remote");
    assert_eq!(router.get(&key("ada")).expect("get"), Some(record("ada")));
    assert_eq!(remote.fetches(), 1, "a hot hit must not fetch");

    router.get(&key("grace")).expect("get");
    router.get(&key("barbara")).expect("get");
    assert_eq!(remote.fetches(), 3);
    // Two slots, three promoted entries: ada (the oldest) must have been
    // displaced and rolled over, not dropped.
    assert_eq!(hot.get(&key("ada")).expect("hot"), None);
    assert_eq!(warm.get(&key("ada")).expect("warm"), Some(record("ada")));

    assert_eq!(router.get(&key("ada")).expect("get"), Some(record("ada")));
    assert_eq!(remote.fetches(), 3, "a rolled-over read must not reach the remote");
    assert_eq!(warm.get(&key("grace")).expect("warm"), Some(record("grace")));

    // Write-through put: lands in every tier down to the remote, displacing
    // the oldest hot entry on the way.
    router.put(key("diana"), record("diana")).expect("put");
    assert!(remote.contains(&key("diana")).expect("exists"));
    assert_eq!(warm.get(&key("barbara")).expect("warm"), Some(record("barbara")));

    // The index is rebuilt by scanning the region.
    let region = match &hot {
        Layer::Hot(slots) => slots.borrow().region.clone(),
        Layer::Remote(_) => unreachable!(),
    };
    let mut hot = Layer::hot(region);
    assert_eq!(hot.get(&key("ada")).expect("hot"), Some(record("ada")));
    assert_eq!(hot.get(&key("diana")).expect("hot"), Some(record("diana")));
    let fetches = remote.fetches();
    let mut router = cache(&hot, &warm, &remote);
    assert_eq!(router.get(&key("ada")).expect("get"), Some(record("ada")));
    assert_eq!(router.get(&key("grace")).expect("get"), Some(record("grace")));
    assert_eq!(remote.fetches(), fetches, "these reads must not reach the remote");
}
