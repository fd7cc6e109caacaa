//! The slot store, on plain memory.

use tierstore::slot::{read_slot, value_range, SlotError, SlotMmapTier, HEADER};

const SLOTS: usize = 2;
const SIZE: usize = 64;

fn key(s: &str) -> String {
    s.to_owned()
}

fn fresh() -> (Vec<u8>, SlotMmapTier) {
    let region = vec![0_u8; SLOTS * SIZE];
    let tier = SlotMmapTier::open(&region, SLOTS, SIZE);
    (region, tier)
}

#[test]
fn records_have_this_very_layout() {
    let (mut region, mut tier) = fresh();
    tier.insert(&mut region, key("ab"), b"xyz").expect("insert");
    // The last free slot is used first.
    assert_eq!(
        region[SIZE..SIZE + HEADER + 5],
        [1, 2, 0, 3, 0, 0, 0, b'a', b'b', b'x', b'y', b'z']
    );
    assert_eq!(value_range(&region, SIZE, 1), Some((SIZE + HEADER + 2, 3)));
    assert_eq!(read_slot(&region, SIZE, 1), Some((key("ab"), b"xyz".to_vec())));
    assert_eq!(read_slot(&region, SIZE, 0), None);
}

#[test]
fn overflow_displaces_the_oldest() {
    let (mut region, mut tier) = fresh();
    assert_eq!(tier.insert(&mut region, key("ada"), b"1"), Ok(vec![]));
    assert_eq!(tier.insert(&mut region, key("grace"), b"2"), Ok(vec![]));
    assert_eq!(
        tier.insert(&mut region, key("barbara"), b"3"),
        Ok(vec![(key("ada"), b"1".to_vec())])
    );
    assert_eq!(tier.fetch(&region, &key("ada")), None);
    assert!(!tier.contains(&key("ada")));
    assert_eq!(tier.fetch(&region, &key("grace")), Some(b"2".to_vec()));
    assert_eq!(tier.fetch(&region, &key("barbara")), Some(b"3".to_vec()));
    assert_eq!(
        tier.insert(&mut region, key("diana"), b"4"),
        Ok(vec![(key("grace"), b"2".to_vec())])
    );
}

#[test]
fn overwriting_displaces_nothing() {
    let (mut region, mut tier) = fresh();
    tier.insert(&mut region, key("a"), b"old").expect("insert");
    tier.insert(&mut region, key("b"), b"bb").expect("insert");
    assert_eq!(tier.insert(&mut region, key("a"), b"newer"), Ok(vec![]));
    assert_eq!(tier.fetch(&region, &key("a")), Some(b"newer".to_vec()));
    assert_eq!(tier.fetch(&region, &key("b")), Some(b"bb".to_vec()));
    // It keeps its place in the eviction order.
    assert_eq!(
        tier.insert(&mut region, key("c"), b"c"),
        Ok(vec![(key("a"), b"newer".to_vec())])
    );
}

#[test]
fn reopening_serves_what_was_held() {
    let (mut region, mut tier) = fresh();
    for name in ["ada", "grace", "barbara"] {
        tier.insert(&mut region, key(name), name.as_bytes()).expect("insert");
    }
    let mut again = SlotMmapTier::open(&region, SLOTS, SIZE);
    assert_eq!(again.fetch(&region, &key("ada")), None);
    assert_eq!(again.fetch(&region, &key("grace")), Some(b"grace".to_vec()));
    assert_eq!(again.fetch(&region, &key("barbara")), Some(b"barbara".to_vec()));
    assert!(again.remove(&mut region, &key("grace")));
    assert_eq!(again.insert(&mut region, key("diana"), b"d"), Ok(vec![]));
}

#[test]
fn removal_frees_the_slot() {
    let (mut region, mut tier) = fresh();
    tier.insert(&mut region, key("a"), b"1").expect("insert");
    tier.insert(&mut region, key("b"), b"2").expect("insert");
    assert!(tier.remove(&mut region, &key("a")));
    assert!(!tier.remove(&mut region, &key("a")));
    assert_eq!(tier.fetch(&region, &key("a")), None);
    assert_eq!(tier.fetch(&region, &key("b")), Some(b"2".to_vec()));
    assert_eq!(tier.insert(&mut region, key("c"), b"3"), Ok(vec![]));
    assert_eq!(
        tier.insert(&mut region, key("d"), b"4"),
        Ok(vec![(key("b"), b"2".to_vec())])
    );
}

#[test]
fn oversized_entries_cost_nobody_a_slot() {
    let (mut region, mut tier) = fresh();
    tier.insert(&mut region, key("a"), b"1").expect("insert");
    tier.insert(&mut region, key("b"), b"2").expect("insert");
    let before = region.clone();
    let error = tier.insert(&mut region, key("big"), &[0; SIZE]).expect_err("too big");
    assert_eq!(error, SlotError::TooBig { needed: HEADER + 3 + SIZE, slot_size: SIZE });
    assert_eq!(error.message(), "entry needs 74 bytes, slot holds 64");
    assert_eq!(region, before);
    assert!(tier.contains(&key("a")) && tier.contains(&key("b")));
}

#[test]
fn long_keys_cost_nobody_a_slot() {
    let size = 70_000;
    let mut region = vec![0_u8; size];
    let mut tier = SlotMmapTier::open(&region, 1, size);
    tier.insert(&mut region, key("a"), b"1").expect("insert");
    let error = tier.insert(&mut region, "k".repeat(65_536), b"2").expect_err("key too long");
    assert_eq!(error, SlotError::KeyTooLong);
    assert_eq!(error.message(), "key too long");
    assert_eq!(tier.fetch(&region, &key("a")), Some(b"1".to_vec()));
    let longest = "k".repeat(65_535);
    assert_eq!(
        tier.insert(&mut region, longest.clone(), b"2"),
        Ok(vec![(key("a"), b"1".to_vec())])
    );
    assert_eq!(tier.fetch(&region, &longest), Some(b"2".to_vec()));
}

#[test]
fn a_store_without_slots_takes_nothing() {
    let mut region: Vec<u8> = Vec::new();
    let mut tier = SlotMmapTier::open(&region, 0, SIZE);
    let error = tier.insert(&mut region, key("a"), b"1").expect_err("no slots");
    assert_eq!(error, SlotError::NoSlots);
    assert_eq!(error.message(), "mmap tier has zero slots");
}

#[test]
fn corrupt_slots_count_as_free() {
    let (mut region, mut tier) = fresh();
    tier.insert(&mut region, key("a"), b"1").expect("insert");
    region[SIZE + 3] = 200;
    let again = SlotMmapTier::open(&region, SLOTS, SIZE);
    assert!(!again.contains(&key("a")));
    assert_eq!(value_range(&region, SIZE, 1), None);
}

#[test]
fn a_key_that_stands_twice_is_told() {
    let (mut region, mut tier) = fresh();
    tier.insert(&mut region, key("a"), b"1").expect("insert");
    let copy = region[SIZE..].to_vec();
    region[..SIZE].copy_from_slice(&copy);
    let mut again = SlotMmapTier::open(&region, SLOTS, SIZE);
    assert_eq!(
        again.insert(&mut region, key("b"), b"2"),
        Ok(vec![(key("a"), b"1".to_vec())])
    );
    let error = again.insert(&mut region, key("c"), b"3").expect_err("out of sync");
    assert_eq!(error, SlotError::OutOfSync);
    assert_eq!(error.message(), "index and order out of sync");
    assert_eq!(SlotError::ValueTooLong.message(), "value too long");
}

#[test]
fn values_can_be_read_in_place() {
    let (mut region, mut tier) = fresh();
    tier.insert(&mut region, key("ada"), b"record").expect("insert");
    let (start, len) = tier.locate(&region, &key("ada")).expect("located");
    assert_eq!(&region[start..start + len], b"record");
    assert_eq!(tier.locate(&region, &key("grace")), None);
}

#[test]
fn a_store_with_fewer_entries_than_slots_evicts_nothing() {
    let (mut region, mut tier) = fresh();
    tier.insert(&mut region, key("a"), b"1").expect("insert");
    tier.insert(&mut region, key("b"), b"2").expect("insert");
    assert!(tier.remove(&mut region, &key("a")));
    assert_eq!(tier.insert(&mut region, key("c"), b"3"), Ok(vec![]));
    assert_eq!(
        tier.insert(&mut region, key("d"), b"4"),
        Ok(vec![(key("b"), b"2".to_vec())])
    );
}
