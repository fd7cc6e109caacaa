//! The simulated remote.

use std::time::Duration;

use tierstore::remote::RemoteStore;
use tierstore::table::Table;
use tierstore::text::{numeral, wrap};
use tierstore::tier::{Tier, TierRead, TierWrite};

fn key(s: &str) -> String {
    s.to_owned()
}

#[test]
fn lookups_are_counted() {
    let mut remote = RemoteStore::new(Duration::from_millis(25));
    assert_eq!(remote.latency(), Duration::from_millis(25));
    assert_eq!(remote.put(key("ada"), b"1".to_vec()), Ok(vec![]));
    assert_eq!(remote.put_many(vec![(key("grace"), b"2".to_vec())]), Ok(vec![]));
    assert_eq!(remote.fetches(), 0);
    assert_eq!(remote.get(&key("ada")), Ok(Some(b"1".to_vec())));
    assert_eq!(remote.get(&key("absent")), Ok(None));
    assert_eq!(remote.fetches(), 2);
    assert_eq!(
        remote.get_many(&[key("grace"), key("ada")]),
        Ok(vec![Some(b"2".to_vec()), Some(b"1".to_vec())])
    );
    assert_eq!(remote.fetches(), 4);
    assert_eq!(remote.contains(&key("ada")), Ok(true));
    assert_eq!(remote.fetches(), 4);
    assert_eq!(remote.delete(&key("ada")), Ok(true));
    assert_eq!(
        remote.delete_many(&[key("ada"), key("grace"), key("grace")]),
        Ok(vec![false, true, false])
    );
    assert_eq!(remote.contains(&key("grace")), Ok(false));
    assert_eq!(remote.name(), "remote");
}

#[test]
fn tables_hold_each_key_once() {
    let mut table: Table<u64> = Table::new();
    assert_eq!(table.insert(key("a"), 1), None);
    assert_eq!(table.insert(key("b"), 2), None);
    assert_eq!(table.insert(key("a"), 3), Some(1));
    assert_eq!(table.get(&key("a")), Some(&3));
    assert_eq!(table.remove(&key("a")), Some(3));
    assert_eq!(table.remove(&key("a")), None);
    assert!(!table.contains(&key("a")));
    assert!(table.contains(&key("b")));
}

#[test]
fn numerals_are_decimal() {
    assert_eq!(numeral(0), "0");
    assert_eq!(numeral(9), "9");
    assert_eq!(numeral(10), "10");
    assert_eq!(numeral(4_070_901), "4070901");
    assert_eq!(wrap("<", "x", ">"), "<x>");
}

#[test]
fn a_store_over_remotes_reads_back_what_was_written() {
    let mut store = tierstore::store::TieredStore::builder()
        .tier(RemoteStore::new(Duration::ZERO))
        .tier(RemoteStore::new(Duration::ZERO))
        .build();
    store.put("k".to_owned(), b"old".to_vec()).expect("put");
    store.put("k".to_owned(), b"new".to_vec()).expect("put");
    assert_eq!(store.get(&"k".to_owned()).expect("get"), Some(b"new".to_vec()));
}
