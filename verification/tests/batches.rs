//! Batches over a tier that only serves one key at a time.

use std::future::Future;
use std::task::{Context, Poll, Waker};

use moka::future::Cache;
use tierstore::tier::{delete_each, get_each, put_each, Displaced, Tier, TierRead, TierWrite};

/// A moka cache without batches of its own.
struct CacheTier {
    cache: Cache<String, i32>,
}

fn block_on<F: Future>(future: F) -> F::Output {
    let mut future = Box::pin(future);
    let mut context = Context::from_waker(Waker::noop());
    loop {
        match future.as_mut().poll(&mut context) {
            Poll::Ready(value) => return value,
            Poll::Pending => std::hint::spin_loop(),
        }
    }
}

impl Tier for CacheTier {
    type Key = String;
    type Value = i32;
    type Error = String;

    fn name(&self) -> &str {
        "moka"
    }
}

impl TierRead for CacheTier {
    fn get(&mut self, key: &String) -> Result<Option<i32>, String> {
        Ok(block_on(self.cache.get(key)))
    }

    fn contains(&mut self, key: &String) -> Result<bool, String> {
        Ok(self.cache.contains_key(key))
    }

    fn get_many(&mut self, keys: &[String]) -> Result<Vec<Option<i32>>, String> {
        get_each(self, keys)
    }
}

impl TierWrite for CacheTier {
    fn put(&mut self, key: String, value: i32) -> Result<Displaced<String, i32>, String> {
        block_on(self.cache.insert(key, value));
        Ok(Vec::new())
    }

    fn delete(&mut self, key: &String) -> Result<bool, String> {
        Ok(block_on(self.cache.remove(key)).is_some())
    }

    fn put_many(&mut self, entries: Vec<(String, i32)>) -> Result<Displaced<String, i32>, String> {
        put_each(self, entries)
    }

    fn delete_many(&mut self, keys: &[String]) -> Result<Vec<bool>, String> {
        delete_each(self, keys)
    }
}

#[test]
fn batch_defaults_loop_over_singular_ops() {
    let mut tier = CacheTier { cache: Cache::new(16) };
    let displaced = tier
        .put_many(vec![("a".to_owned(), 1), ("b".to_owned(), 2)])
        .expect("put_many");
    assert_eq!(displaced, Vec::new());
    assert_eq!(
        tier.get_many(&["a".to_owned(), "b".to_owned(), "c".to_owned()]).expect("get_many"),
        vec![Some(1), Some(2), None]
    );
    assert_eq!(
        tier.delete_many(&["a".to_owned(), "missing".to_owned()]).expect("delete_many"),
        vec![true, false]
    );
}
