//! Keys as file names, ranges, mapped files and their accounting.

use bytes::Bytes;
use std::path::PathBuf;

use tierstore::disk::{range_len, range_within, DiskTier, RangeError};
use tierstore::mapped::{displaced, slice_of, Found, MmapDiskTier};
use tierstore::names::{file_name, hex_decode, hex_encode, key_of, list_page};

fn key(s: &str) -> String {
    s.to_owned()
}

fn found(name: &str, len: u64, modified: i128) -> Found {
    Found { key: key(name), len, modified }
}

fn bounded(budget: u64) -> MmapDiskTier {
    MmapDiskTier::new(PathBuf::from("cache"), Some(budget), Vec::new())
}

#[test]
fn hex_round_trips() {
    let key = "user:1/profile — naïve";
    let encoded = hex_encode(key.as_bytes());
    assert!(encoded.chars().all(|c| c.is_ascii_hexdigit()));
    assert_eq!(
        hex_decode(&encoded).and_then(|b| String::from_utf8(b).ok()),
        Some(key.to_owned())
    );
}

#[test]
fn tmp_names_are_not_decodable_keys() {
    assert_eq!(hex_decode("6162.tmp"), None);
}

#[test]
fn hex_names_are_exact() {
    assert_eq!(hex_encode(&[0x00, 0x0f, 0xa9, 0xff]), "000fa9ff");
    assert_eq!(hex_decode("000FA9ff"), Some(vec![0x00, 0x0f, 0xa9, 0xff]));
    assert_eq!(hex_decode("0"), None);
    assert_eq!(hex_decode("0g"), None);
    assert_eq!(hex_decode("+7"), Some(vec![7]));
    assert_eq!(hex_decode("7+"), None);
    assert_eq!(hex_decode(""), Some(vec![]));
}

#[test]
fn names_stand_for_keys() {
    assert_eq!(file_name(&key("ab")), "6162");
    assert_eq!(key_of(&key("6162")), Some(key("ab")));
    assert_eq!(key_of(&key("README")), None);
    // Bytes that are no text are no key.
    assert_eq!(key_of(&key("ff")), None);
}

#[test]
fn pages_list_sorted_keys() {
    let names = || {
        vec![file_name(&key("b")), file_name(&key("a")), key("x.tmp"), file_name(&key("c"))]
    };
    let first = list_page(names(), None, 2);
    assert_eq!(first.keys, vec![key("a"), key("b")]);
    let second = list_page(names(), first.next, 2);
    assert_eq!(second.keys, vec![key("c")]);
    assert_eq!(second.next, None);
    let none = list_page(names(), None, 0);
    assert!(none.keys.is_empty());
    assert_eq!(none.next, None);
    assert!(list_page(names(), Some(9), 2).keys.is_empty());
}

#[test]
fn disk_tiers_know_their_root() {
    let tier = DiskTier::new(PathBuf::from("warm"));
    assert_eq!(tier.root(), &PathBuf::from("warm"));
}

#[test]
fn range_lengths_are_exact() {
    assert_eq!(range_len(10..14), Ok(4));
    assert_eq!(range_len(7..7), Ok(0));
    assert_eq!(range_len(std::ops::Range { start: 5, end: 3 }), Err(RangeError::Inverted));
    assert_eq!(RangeError::Inverted.message(), "inverted range");
    assert_eq!(RangeError::TooLarge.message(), "range too large");
    assert_eq!(RangeError::OutOfBounds.message(), "range out of bounds");
}

#[test]
fn ranges_lie_within_the_value() {
    assert_eq!(range_within(10..14, 100), Ok(4));
    assert_eq!(range_within(100..100, 100), Ok(0));
    assert_eq!(range_within(90..110, 100), Err(RangeError::OutOfBounds));
    // An empty range past the end is out of bounds as well.
    assert_eq!(range_within(110..110, 100), Err(RangeError::OutOfBounds));
    let inverted = std::ops::Range { start: 5, end: 3 };
    assert_eq!(range_within(inverted.clone(), 1), Err(RangeError::Inverted));
    let tier = DiskTier::new(PathBuf::from("warm"));
    assert_eq!(tier.read_range(10..14, Some(100)), Ok(Some((10, 4))));
    assert_eq!(tier.read_range(90..110, Some(100)), Err(RangeError::OutOfBounds));
    assert_eq!(tier.read_range(0..1, None), Ok(None));
    assert_eq!(tier.read_range(inverted, None), Err(RangeError::Inverted));
}

#[test]
fn following_the_pages_lists_every_key_once() {
    let tier = DiskTier::new(PathBuf::from("warm"));
    let mapped = MmapDiskTier::new(PathBuf::from("warm"), None, Vec::new());
    let names = || {
        let keys = ["e", "b", "d", "a", "c"];
        keys.iter().map(|name| file_name(&key(name))).chain([key("x.tmp")]).collect::<Vec<_>>()
    };
    let mut seen = Vec::new();
    let mut cursor = None;
    loop {
        let page = tier.list(names(), cursor, 2);
        assert_eq!(page, mapped.list(names(), cursor, 2));
        seen.extend(page.keys);
        cursor = page.next;
        if cursor.is_none() {
            break;
        }
    }
    assert_eq!(seen, vec![key("a"), key("b"), key("c"), key("d"), key("e")]);
}

#[test]
fn mapped_ranges_are_exact() {
    let tier = MmapDiskTier::new(PathBuf::from("warm"), None, Vec::new());
    let bytes = Bytes::from_static(b"0123456789");
    assert_eq!(tier.read_range(Some(&bytes), 2..5), Ok(Some(Bytes::from_static(b"234"))));
    assert_eq!(tier.read_range(Some(&bytes), 8..12), Err(RangeError::OutOfBounds));
    assert_eq!(tier.read_range(None, 0..1), Ok(None));
}

#[test]
fn eviction_is_just_enough() {
    let mut tier = bounded(10);
    for (name, len) in [("a", 3), ("b", 3), ("c", 3)] {
        assert!(tier.put(key(name), len, None).is_empty());
    }
    // One byte is left; the oldest entry alone makes room for four.
    assert_eq!(tier.put(key("d"), 4, None), vec![(key("a"), None)]);
    assert_eq!(tier.disk_usage(), 10);
    assert_eq!(tier.put(key("e"), 4, None), vec![(key("b"), None), (key("c"), None)]);
    assert_eq!(tier.disk_usage(), 8);
}

#[test]
fn ranges_slice_the_bytes() {
    let bytes = Bytes::from_static(b"0123456789");
    assert_eq!(slice_of(&bytes, 2..5), Ok(Bytes::from_static(b"234")));
    assert_eq!(slice_of(&bytes, 0..10), Ok(bytes.clone()));
    assert_eq!(slice_of(&bytes, 8..12), Err(RangeError::OutOfBounds));
    assert_eq!(
        slice_of(&bytes, std::ops::Range { start: 5, end: 3 }),
        Err(RangeError::OutOfBounds)
    );
}

#[test]
fn bounded_books_evict_the_oldest() {
    let mut tier = bounded(10);
    assert!(tier.put(key("a"), 4, Some(Bytes::from_static(b"aaaa"))).is_empty());
    assert!(tier.put(key("b"), 4, None).is_empty());
    // 4 + 4 + 4 = 12 > 10: the oldest entry rolls out with its mapping.
    let gone = tier.put(key("c"), 4, None);
    assert_eq!(displaced(gone), vec![(key("a"), Bytes::from_static(b"aaaa"))]);
    assert_eq!(tier.cached(&key("a")), None);
    assert_eq!(tier.disk_usage(), 8);
    // An entry without a mapping drops its value.
    let gone = tier.put(key("d"), 4, None);
    assert_eq!(gone, vec![(key("b"), None)]);
    assert!(displaced(gone).is_empty());
}

#[test]
fn accounting_is_rebuilt_oldest_first() {
    let files = vec![found("x", 4, 20), found("y", 4, 10)];
    let mut tier = MmapDiskTier::new(PathBuf::from("cache"), Some(10), files);
    assert_eq!(tier.disk_usage(), 8, "accounting must rebuild from disk");
    let gone = tier.put(key("z"), 4, None);
    assert_eq!(gone, vec![(key("y"), None)]);
    assert_eq!(tier.disk_usage(), 8);
    assert_eq!(tier.root(), &PathBuf::from("cache"));
}

#[test]
fn overwrites_are_accounted_once() {
    let mut tier = bounded(10);
    tier.put(key("k"), 8, Some(Bytes::from_static(b"old-old-")));
    let before = tier.cached(&key("k")).expect("mapped");
    assert!(tier.put(key("k"), 3, Some(Bytes::from_static(b"new"))).is_empty());
    assert_eq!(tier.disk_usage(), 3);
    // The handle from before the overwrite still reads the old value.
    assert_eq!(before.as_ref(), b"old-old-");
    assert_eq!(tier.cached(&key("k")), Some(Bytes::from_static(b"new")));
}

#[test]
fn forgotten_entries_free_their_bytes() {
    let mut tier = bounded(10);
    tier.put(key("a"), 6, None);
    tier.remember(key("a"), Bytes::from_static(b"aaaaaa"));
    assert!(tier.is_cached(&key("a")));
    tier.forget(&key("a"));
    assert!(!tier.is_cached(&key("a")));
    assert_eq!(tier.disk_usage(), 0);
    tier.forget(&key("a"));
    assert_eq!(tier.disk_usage(), 0);
    // Nothing is left of it in the eviction order either.
    assert!(tier.put(key("b"), 10, None).is_empty());
}

#[test]
fn an_entry_over_the_budget_does_not_stay() {
    let mut tier = bounded(10);
    tier.put(key("a"), 4, None);
    let gone = tier.put(key("big"), 11, None);
    assert_eq!(gone, vec![(key("a"), None), (key("big"), None)]);
    assert_eq!(tier.disk_usage(), 0);
}

#[test]
fn unbounded_books_evict_nothing() {
    let mut tier = MmapDiskTier::new(PathBuf::from("cache"), None, Vec::new());
    for i in 0..20 {
        assert!(tier.put(format!("k{i}"), 1000, None).is_empty());
    }
    assert_eq!(tier.disk_usage(), 20_000);
}
