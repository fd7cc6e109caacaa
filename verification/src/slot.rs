//! A fixed-capacity slot store in a region of memory.
//!
//! The region (a mapped file, say) is divided into `slots` fixed-size slots,
//! each holding one `used | key_len | val_len | key | value` record. An
//! in-memory index maps keys to slots and is rebuilt by scanning the region on
//! open, so a reopened store (e.g. after a process restart) still serves
//! everything it held. When all slots are used, an insert evicts the oldest
//! entry first in, first out and returns it as displaced, which is exactly the
//! rollover contract that a router demotes on.

use std::collections::VecDeque;
use vstd::prelude::*;
use vstd::slice::slice_to_vec;
use vstd::string::StringExecFns;

use crate::mapped;
use crate::names;
use crate::names::text_of;
use crate::table::Table;
use crate::text;
use crate::text::{numeral, wrap};
use crate::tier::Displaced;

verus! {

/// Size of a record's header:
/// `used(1) | key_len(2, little endian) | val_len(4, little endian)`.
pub const HEADER: usize = 7;

/// The slot `slot` of a region with slots of `size` bytes.
pub open spec fn cell(region: Seq<u8>, size: nat, slot: nat) -> Seq<u8> {
    region.subrange((slot * size) as int, (slot * size + size) as int)
}

/// The key length that a slot states.
pub open spec fn key_len(cell: Seq<u8>) -> nat {
    cell[1] as nat + 256 * cell[2] as nat
}

/// The value length that a slot states.
pub open spec fn val_len(cell: Seq<u8>) -> nat {
    cell[3] as nat + 256 * cell[4] as nat + 65536 * cell[5] as nat + 16777216 * cell[6] as nat
}

/// Whether a slot is used and holds its record completely; a corrupt slot
/// counts as free.
pub open spec fn used(cell: Seq<u8>) -> bool {
    cell[0] == 1 && HEADER + key_len(cell) + val_len(cell) <= cell.len()
}

/// The key bytes of a used slot.
pub open spec fn key_bytes(cell: Seq<u8>) -> Seq<u8> {
    cell.subrange(HEADER as int, HEADER + key_len(cell))
}

/// The value of a used slot.
pub open spec fn value_bytes(cell: Seq<u8>) -> Seq<u8> {
    cell.subrange(HEADER + key_len(cell), HEADER + key_len(cell) + val_len(cell))
}

/// The entry in a slot, if it is used and its key is a text.
pub open spec fn entry(cell: Seq<u8>) -> Option<(Seq<char>, Seq<u8>)> {
    if used(cell) && vstd::utf8::valid_utf8(key_bytes(cell)) {
        Some((vstd::utf8::decode_utf8(key_bytes(cell)), value_bytes(cell)))
    } else {
        None
    }
}

/// Whether a slot holds an entry for `key`.
pub open spec fn holds(cell: Seq<u8>, key: Seq<char>) -> bool {
    match entry(cell) {
        Some((k, _)) => k == key,
        None => false,
    }
}

/// The record of an entry.
pub open spec fn record_of(key: Seq<u8>, value: Seq<u8>) -> Seq<u8> {
    seq![
        1u8,
        (key.len() % 256) as u8,
        (key.len() / 256) as u8,
        (value.len() % 256) as u8,
        ((value.len() / 256) % 256) as u8,
        ((value.len() / 65536) % 256) as u8,
        (value.len() / 16777216) as u8,
    ] + key + value
}

/// `region` with `bytes` written at `at`.
pub open spec fn patched(region: Seq<u8>, at: int, bytes: Seq<u8>) -> Seq<u8> {
    Seq::new(
        region.len(),
        |i: int|
            if at <= i < at + bytes.len() {
                bytes[i - at]
            } else {
                region[i]
            },
    )
}

/// `region` with an entry written into slot `slot`.
pub open spec fn written(
    region: Seq<u8>,
    size: nat,
    slot: nat,
    key: Seq<char>,
    value: Seq<u8>,
) -> Seq<u8> {
    patched(region, (slot * size) as int, record_of(vstd::utf8::encode_utf8(key), value))
}

proof fn lemma_slot_bounds(slot: nat, slots: nat, size: nat)
    requires
        slot < slots,
    ensures
        slot * size + size <= slots * size,
{
    assert(slot * size + size <= slots * size) by (nonlinear_arith)
        requires
            slot < slots,
    ;
}

proof fn lemma_slots_apart(a: nat, b: nat, size: nat)
    requires
        a < b,
    ensures
        a * size + size <= b * size,
{
    assert(a * size + size <= b * size) by (nonlinear_arith)
        requires
            a < b,
    ;
}

/// Why an entry cannot be stored.
#[derive(Debug, Clone, Copy, PartialEq, Eq, Structural)]
pub enum SlotError {
    /// The key is longer than a record can say.
    KeyTooLong,
    /// The value is longer than a record can say.
    ValueTooLong,
    /// The record does not fit into a slot.
    TooBig {
        /// Bytes that the record needs, or the largest number where they are
        /// beyond it.
        needed: usize,
        /// Bytes that a slot has.
        slot_size: usize,
    },
    /// There is no slot at all.
    NoSlots,
    /// The oldest key has no slot. Only a region in which a key stands twice
    /// leads to this.
    OutOfSync,
}

impl SlotError {
    /// The error in words.
    pub open spec fn words(self) -> Seq<char> {
        match self {
            SlotError::KeyTooLong => "key too long"@,
            SlotError::ValueTooLong => "value too long"@,
            SlotError::TooBig { needed, slot_size } => "entry needs "@ + text::decimal(
                needed as nat,
            ) + " bytes, slot holds "@ + text::decimal(slot_size as nat),
            SlotError::NoSlots => "mmap tier has zero slots"@,
            SlotError::OutOfSync => "index and order out of sync"@,
        }
    }

    /// The error in words.
    #[must_use]
    pub fn message(self) -> (message: String)
        ensures
            message@ == self.words(),
    {
        match self {
            SlotError::KeyTooLong => "key too long".to_owned(),
            SlotError::ValueTooLong => "value too long".to_owned(),
            SlotError::TooBig { needed, slot_size } => {
                let mut message = wrap(
                    "entry needs ",
                    numeral(needed).as_str(),
                    " bytes, slot holds ",
                );
                message.append(numeral(slot_size).as_str());
                message
            },
            SlotError::NoSlots => "mmap tier has zero slots".to_owned(),
            SlotError::OutOfSync => "index and order out of sync".to_owned(),
        }
    }
}

/// Start and length of the value in slot `slot`, if the slot is used.
pub fn value_range(region: &[u8], slot_size: usize, slot: usize) -> (range: Option<(usize, usize)>)
    requires
        slot_size > HEADER,
        slot * slot_size + slot_size <= region@.len(),
    ensures
        ({
            let c = cell(region@, slot_size as nat, slot as nat);
            match range {
                Some((start, len)) => used(c) && start == slot * slot_size + HEADER + key_len(c)
                    && len == val_len(c) && start + len <= slot * slot_size + slot_size,
                None => !used(c),
            }
        }),
{
    let ghost c = cell(region@, slot_size as nat, slot as nat);
    let _total: usize = region.len();
    let base: usize = slot * slot_size;
    assert(forall|i: int| 0 <= i < HEADER ==> #[trigger] c[i] == region@[base + i]);
    if region[base] != 1 {
        return None;
    }
    let key: usize = region[base + 1] as usize + 256 * (region[base + 2] as usize);
    let len: u64 = region[base + 3] as u64 + 256 * (region[base + 4] as u64) + 65536 * (region[base
        + 5] as u64) + 16777216 * (region[base + 6] as u64);
    assert(c[1] == region@[base + 1] && c[2] == region@[base + 2] && c[3] == region@[base + 3]
        && c[4] == region@[base + 4] && c[5] == region@[base + 5] && c[6] == region@[base + 6]
        && c[0] == region@[base + 0]);
    let room: usize = slot_size - HEADER;
    if key > room || len > (room - key) as u64 {
        return None;
    }
    Some((base + HEADER + key, len as usize))
}

/// The entry in slot `slot`.
pub fn read_slot(region: &[u8], slot_size: usize, slot: usize) -> (found: Option<(String, Vec<u8>)>)
    requires
        slot_size > HEADER,
        slot * slot_size + slot_size <= region@.len(),
    ensures
        match found {
            Some((key, value)) => entry(cell(region@, slot_size as nat, slot as nat)) == Some(
                (key@, value@),
            ),
            None => entry(cell(region@, slot_size as nat, slot as nat)) is None,
        },
{
    let ghost c = cell(region@, slot_size as nat, slot as nat);
    let _total: usize = region.len();
    match value_range(region, slot_size, slot) {
        Some((start, len)) => {
            let key_start: usize = slot * slot_size + HEADER;
            let key_part = slice_to_vec(&region[key_start..start]);
            assert(key_part@ =~= key_bytes(c));
            match text_of(key_part) {
                Some(key) => {
                    let value = slice_to_vec(&region[start..start + len]);
                    assert(value@ =~= value_bytes(c));
                    Some((key, value))
                },
                None => None,
            }
        },
        None => None,
    }
}

fn put_bytes(region: &mut [u8], at: usize, bytes: &[u8])
    requires
        at + bytes@.len() <= old(region)@.len(),
    ensures
        final(region)@ == patched(old(region)@, at as int, bytes@),
{
    let ghost before = region@;
    let _total: usize = region.len();
    let mut i: usize = 0;
    assert(region@ =~= patched(before, at as int, bytes@.take(0)));
    while i < bytes.len()
        invariant
            i <= bytes@.len(),
            at + bytes@.len() <= before.len(),
            before.len() == _total,
            before == old(region)@,
            region@ == patched(before, at as int, bytes@.take(i as int)),
        decreases bytes@.len() - i,
    {
        region[at + i] = bytes[i];
        i += 1;
        assert(region@ =~= patched(before, at as int, bytes@.take(i as int)));
    }
    assert(bytes@.take(i as int) =~= bytes@);
}

/// Writes an entry that fits into slot `slot`.
fn write_slot(region: &mut [u8], slot_size: usize, slot: usize, key: &String, value: &[u8])
    requires
        slot_size > HEADER,
        slot * slot_size + slot_size <= old(region)@.len(),
        vstd::utf8::encode_utf8(key@).len() <= u16::MAX,
        value@.len() <= u32::MAX,
        HEADER + vstd::utf8::encode_utf8(key@).len() + value@.len() <= slot_size,
    ensures
        final(region)@ == written(old(region)@, slot_size as nat, slot as nat, key@, value@),
{
    let ghost before = region@;
    let _total: usize = region.len();
    let base: usize = slot * slot_size;
    let text = key.as_str().as_bytes();
    let klen: usize = text.len();
    let vlen: usize = value.len();
    let header: [u8; 7] = [
        1u8,
        (klen % 256) as u8,
        (klen / 256) as u8,
        (vlen % 256) as u8,
        ((vlen / 256) % 256) as u8,
        ((vlen / 65536) % 256) as u8,
        (vlen / 16777216) as u8,
    ];
    put_bytes(region, base, &header);
    put_bytes(region, base + HEADER, text);
    put_bytes(region, base + HEADER + klen, value);
    proof {
        let record = record_of(text@, value@);
        assert(record.len() == HEADER + klen + vlen);
        assert(header@ =~= record.take(7));
        assert(region@ =~= patched(before, base as int, record));
    }
}

/// What a [`SlotMmapTier`] knows about its region.
#[verifier::ext_equal]
pub struct Slots {
    /// The slot of each key.
    pub index: Map<Seq<char>, usize>,
    /// Keys in eviction order, oldest first.
    pub order: Seq<Seq<char>>,
    /// Slots that hold nothing; the last one is used next.
    pub free: Seq<usize>,
}

/// What the first `count` slots of `region` hold.
pub open spec fn scanned(region: Seq<u8>, size: nat, count: nat) -> Slots
    decreases count,
{
    if count == 0 {
        Slots { index: Map::empty(), order: Seq::empty(), free: Seq::empty() }
    } else {
        let slot = (count - 1) as nat;
        let before = scanned(region, size, slot);
        match entry(cell(region, size, slot)) {
            Some((key, _)) => Slots {
                index: before.index.insert(key, slot as usize),
                order: before.order.push(key),
                free: before.free,
            },
            None => Slots { free: before.free.push(slot as usize), ..before },
        }
    }
}

/// How many bytes a record is said to need: a number beyond the largest is
/// stated as the largest.
pub open spec fn needed(key_len: nat, val_len: nat) -> usize {
    if HEADER + key_len + val_len <= usize::MAX {
        (HEADER + key_len + val_len) as usize
    } else {
        usize::MAX
    }
}

/// What keeps an entry with `key_len` key bytes and `val_len` value bytes out
/// of slots of `size` bytes.
pub open spec fn refusal(key_len: nat, val_len: nat, size: usize) -> Option<SlotError> {
    if HEADER + key_len + val_len > size {
        Some(SlotError::TooBig { needed: needed(key_len, val_len), slot_size: size })
    } else if key_len > u16::MAX {
        Some(SlotError::KeyTooLong)
    } else if val_len > u32::MAX {
        Some(SlotError::ValueTooLong)
    } else {
        None
    }
}

/// Where a write goes, and what it means for the store.
pub struct Placement {
    /// The store afterwards.
    pub slots: Slots,
    /// The slot that is written, or why none is.
    pub target: Result<usize, SlotError>,
    /// Whether what stands in that slot is displaced.
    pub evicts: bool,
}

impl Slots {
    /// Every slot that is named exists.
    pub open spec fn within(self, count: nat) -> bool {
        &&& forall|key: Seq<char>| #[trigger]
            self.index.contains_key(key) ==> self.index[key] < count
        &&& forall|i: int| 0 <= i < self.free.len() ==> #[trigger] self.free[i] < count
    }

    /// The store fits `region`, which has `count` slots of `size` bytes, and
    /// agrees with it.
    pub open spec fn sound(self, region: Seq<u8>, size: nat, count: nat) -> bool {
        &&& size > HEADER
        &&& count <= usize::MAX
        &&& region.len() == count * size
        &&& self.agrees(region, size, count)
    }

    /// The store agrees with the first `count` slots of `region`.
    pub open spec fn agrees(self, region: Seq<u8>, size: nat, count: nat) -> bool {
        &&& self.within(count)
        // A key's slot holds an entry for that key.
        &&& forall|key: Seq<char>| #[trigger]
            self.index.contains_key(key) ==> holds(cell(region, size, self.index[key] as nat), key)
        // Each slot is either a key's or free.
        &&& forall|slot: nat|
            slot < count ==> match entry(#[trigger] cell(region, size, slot)) {
                Some((key, _)) => self.index.contains_key(key) && self.index[key] == slot,
                None => self.free.contains(slot as usize),
            }
        // Free slots hold nothing, and none is listed twice.
        &&& forall|i: int|
            0 <= i < self.free.len() ==> entry(
                cell(region, size, #[trigger] self.free[i] as nat),
            ) is None
        &&& self.free.no_duplicates()
        // The eviction order lists exactly the keys.
        &&& self.order.no_duplicates()
        &&& forall|key: Seq<char>| #[trigger]
            self.order.contains(key) <==> self.index.contains_key(key)
    }

    /// Where an accepted entry for `key` goes: into the slot it has, else into
    /// a free one, else into that of the oldest key.
    pub open spec fn placed(self, key: Seq<char>) -> Placement {
        if self.index.contains_key(key) {
            Placement { slots: self, target: Ok(self.index[key]), evicts: false }
        } else if self.free.len() > 0 {
            let slot = self.free.last();
            Placement {
                slots: Slots {
                    index: self.index.insert(key, slot),
                    order: self.order.push(key),
                    free: self.free.drop_last(),
                },
                target: Ok(slot),
                evicts: false,
            }
        } else if self.order.len() == 0 {
            Placement { slots: self, target: Err(SlotError::NoSlots), evicts: false }
        } else {
            let oldest = self.order[0];
            let order = self.order.skip(1);
            if self.index.contains_key(oldest) {
                let slot = self.index[oldest];
                Placement {
                    slots: Slots {
                        index: self.index.remove(oldest).insert(key, slot),
                        order: order.push(key),
                        free: self.free,
                    },
                    target: Ok(slot),
                    evicts: true,
                }
            } else {
                Placement {
                    slots: Slots { order, ..self },
                    target: Err(SlotError::OutOfSync),
                    evicts: false,
                }
            }
        }
    }

    /// The store once `key`, which it holds, was removed.
    pub open spec fn cleared(self, key: Seq<char>) -> Slots {
        Slots {
            index: self.index.remove(key),
            order: mapped::others(self.order, key),
            free: self.free.push(self.index[key]),
        }
    }

    /// What the store serves for `key` out of `region`.
    pub open spec fn served(self, region: Seq<u8>, size: nat, key: Seq<char>) -> Option<Seq<u8>> {
        if self.index.contains_key(key) {
            match entry(cell(region, size, self.index[key] as nat)) {
                Some((_, value)) => Some(value),
                None => None,
            }
        } else {
            None
        }
    }
}

/// A store with the region it lives in.
pub struct Shelf {
    /// The store.
    pub slots: Slots,
    /// Its bytes.
    pub region: Seq<u8>,
    /// Bytes per slot.
    pub size: nat,
    /// Number of slots.
    pub count: nat,
}

impl Shelf {
    /// The store agrees with its region.
    pub open spec fn sound(self) -> bool {
        self.slots.sound(self.region, self.size, self.count)
    }

    /// What is served for `key`.
    pub open spec fn served(self, key: Seq<char>) -> Option<Seq<u8>> {
        self.slots.served(self.region, self.size, key)
    }

    /// The keys in eviction order, oldest first.
    pub open spec fn keys(self) -> Seq<Seq<char>> {
        self.slots.order
    }

    /// Whether `after` is this store once `value` was stored under `key`, with
    /// `displaced` handed back: a key that is there keeps its place, a new one
    /// comes last, and the oldest entry goes if all slots were taken.
    pub open spec fn stored(
        self,
        key: Seq<char>,
        value: Seq<u8>,
        after: Shelf,
        displaced: Seq<(Seq<char>, Seq<u8>)>,
    ) -> bool {
        let known = self.keys().contains(key);
        let full = self.keys().len() == self.count;
        let oldest = self.keys()[0];
        &&& after.sound()
        &&& after.keys().len() <= after.count
        &&& after.served(key) == Some(value)
        &&& if known || !full {
            &&& displaced == Seq::<(Seq<char>, Seq<u8>)>::empty()
            &&& after.keys() == if known {
                self.keys()
            } else {
                self.keys().push(key)
            }
            &&& forall|other: Seq<char>|
                other != key ==> #[trigger] after.served(other) == self.served(other)
        } else {
            &&& self.served(oldest) matches Some(bytes) && displaced == seq![(oldest, bytes)]
            &&& after.keys() == self.keys().skip(1).push(key)
            &&& forall|other: Seq<char>|
                other != key ==> #[trigger] after.served(other) == (if other == oldest {
                    None
                } else {
                    self.served(other)
                })
        }
    }

    /// Whether `after` is this store once `key` was removed.
    pub open spec fn removed(self, key: Seq<char>, after: Shelf) -> bool {
        &&& after.sound()
        &&& after.served(key) is None
        &&& after.keys() == mapped::others(self.keys(), key)
        &&& forall|other: Seq<char>|
            other != key ==> #[trigger] after.served(other) == self.served(other)
    }
}

/// Displaced entries as mathematical values.
pub open spec fn shown(displaced: Seq<(String, Vec<u8>)>) -> Seq<(Seq<char>, Seq<u8>)> {
    displaced.map_values(|entry: (String, Vec<u8>)| (entry.0@, entry.1@))
}

/// The index of a slot store. The region itself stays with the driver, which
/// hands it to every call.
pub struct SlotMmapTier {
    slot_size: usize,
    slots: usize,
    index: Table<usize>,
    order: VecDeque<String>,
    free: Vec<usize>,
}

impl View for SlotMmapTier {
    type V = Slots;

    closed spec fn view(&self) -> Slots {
        Slots { index: self.index@, order: names::texts(self.order@), free: self.free@ }
    }
}

impl SlotMmapTier {
    /// The store fits a region of `len` bytes.
    pub closed spec fn wf(&self, len: nat) -> bool {
        &&& self.index.wf()
        &&& self.slot_size > HEADER
        &&& self.slots * self.slot_size == len
        &&& self@.within(self.slots as nat)
    }

    /// Number of slots.
    pub closed spec fn count(&self) -> nat {
        self.slots as nat
    }

    /// Bytes per slot.
    pub closed spec fn size(&self) -> usize {
        self.slot_size
    }

    /// The store with its bytes `region`.
    pub open spec fn over(&self, region: Seq<u8>) -> Shelf {
        Shelf { slots: self@, region, size: self.size() as nat, count: self.count() }
    }

    /// Rebuilds the index from whatever records `region` already holds.
    pub fn open(region: &[u8], slots: usize, slot_size: usize) -> (tier: Self)
        requires
            slot_size > HEADER,
            region@.len() == slots * slot_size,
        ensures
            tier.wf(region@.len()),
            tier.count() == slots,
            tier.size() == slot_size,
            tier@ == scanned(region@, slot_size as nat, slots as nat),
            keys_apart(region@, slot_size as nat, slots as nat) ==> tier.over(region@).sound(),
    {
        proof {
            if keys_apart(region@, slot_size as nat, slots as nat) {
                law_opened_stores_are_sound(region@, slot_size as nat, slots as nat);
            }
        }
        let mut tier = SlotMmapTier {
            slot_size,
            slots,
            index: Table::new(),
            order: VecDeque::new(),
            free: Vec::new(),
        };
        let mut slot: usize = 0;
        assert(tier@ =~= scanned(region@, slot_size as nat, 0));
        while slot < slots
            invariant
                slot <= slots,
                slot_size > HEADER,
                region@.len() == slots * slot_size,
                tier.index.wf(),
                tier.slots == slots,
                tier.slot_size == slot_size,
                tier@ == scanned(region@, slot_size as nat, slot as nat),
                tier@.within(slot as nat),
            decreases slots - slot,
        {
            proof {
                lemma_slot_bounds(slot as nat, slots as nat, slot_size as nat);
            }
            let ghost before = tier@;
            match read_slot(region, slot_size, slot) {
                Some((key, _)) => {
                    let ghost text = key@;
                    let ghost held = tier.order@;
                    let _replaced = tier.index.insert(key.clone(), slot);
                    tier.order.push_back(key);
                    assert(names::texts(tier.order@) =~= names::texts(held).push(text));
                },
                None => {
                    tier.free.push(slot);
                },
            }
            assert(tier@ =~= scanned(region@, slot_size as nat, (slot + 1) as nat));
            slot += 1;
        }
        tier
    }

    /// Whether an entry of this size can be stored.
    fn fits(&self, key_len: usize, val_len: usize) -> (verdict: Result<(), SlotError>)
        ensures
            match verdict {
                Ok(()) => refusal(key_len as nat, val_len as nat, self.size()) is None,
                Err(error) => refusal(key_len as nat, val_len as nat, self.size()) == Some(error),
            },
    {
        let room: usize = self.slot_size.saturating_sub(HEADER);
        if HEADER > self.slot_size || key_len > room || val_len > room - key_len {
            let needed: usize = HEADER.saturating_add(key_len).saturating_add(val_len);
            return Err(SlotError::TooBig { needed, slot_size: self.slot_size });
        }
        if key_len > u16::MAX as usize {
            return Err(SlotError::KeyTooLong);
        }
        if val_len > u32::MAX as usize {
            return Err(SlotError::ValueTooLong);
        }
        Ok(())
    }

    /// The value of `key`.
    #[must_use]
    pub fn fetch(&self, region: &[u8], key: &String) -> (value: Option<Vec<u8>>)
        requires
            self.wf(region@.len()),
        ensures
            match value {
                Some(value) => self@.served(region@, self.size() as nat, key@) == Some(value@),
                None => self@.served(region@, self.size() as nat, key@) is None,
            },
    {
        match self.index.get(key) {
            Some(slot) => {
                proof {
                    lemma_slot_bounds(*slot as nat, self.slots as nat, self.slot_size as nat);
                }
                match read_slot(region, self.slot_size, *slot) {
                    Some((_, value)) => Some(value),
                    None => None,
                }
            },
            None => None,
        }
    }

    /// Whether the store holds `key`.
    #[must_use]
    pub fn contains(&self, key: &String) -> (contains: bool)
        requires
            exists|len: nat| self.wf(len),
        ensures
            contains == self@.index.contains_key(key@),
    {
        self.index.contains(key)
    }

    /// Where in `region` the value of `key` lies: start and length.
    #[must_use]
    pub fn locate(&self, region: &[u8], key: &String) -> (range: Option<(usize, usize)>)
        requires
            self.wf(region@.len()),
        ensures
            match range {
                Some((start, len)) => {
                    &&& self@.index.contains_key(key@)
                    &&& used(cell(region@, self.size() as nat, self@.index[key@] as nat))
                    &&& start + len <= region@.len()
                    &&& region@.subrange(start as int, start + len) == value_bytes(
                        cell(region@, self.size() as nat, self@.index[key@] as nat),
                    )
                },
                None => self@.index.contains_key(key@) ==> !used(
                    cell(region@, self.size() as nat, self@.index[key@] as nat),
                ),
            },
    {
        match self.index.get(key) {
            Some(slot) => {
                proof {
                    assert(self@.index.contains_key(key@));
                    lemma_slot_bounds(*slot as nat, self.slots as nat, self.slot_size as nat);
                }
                let range = value_range(region, self.slot_size, *slot);
                proof {
                    if let Some((start, len)) = range {
                        let c = cell(region@, self.slot_size as nat, *slot as nat);
                        assert(region@.subrange(start as int, start + len) =~= value_bytes(c));
                    }
                }
                range
            },
            None => None,
        }
    }

    /// Inserts or replaces an entry, returning what it displaced.
    ///
    /// Everything is validated before anyone is evicted: an entry that cannot
    /// be stored must not cost an existing one its slot.
    pub fn insert(&mut self, region: &mut [u8], key: String, value: &[u8]) -> (result: Result<
        Displaced<String, Vec<u8>>,
        SlotError,
    >)
        requires
            old(self).wf(old(region)@.len()),
        ensures
            final(self).wf(final(region)@.len()),
            final(self).count() == old(self).count(),
            final(self).size() == old(self).size(),
            final(region)@.len() == old(region)@.len(),
            ({
                let size = old(self).size();
                let placement = old(self)@.placed(key@);
                match refusal(vstd::utf8::encode_utf8(key@).len(), value@.len(), size) {
                    Some(error) => {
                        &&& result == Err::<Displaced<String, Vec<u8>>, _>(error)
                        &&& final(self)@ == old(self)@
                        &&& final(region)@ == old(region)@
                    },
                    None => {
                        &&& final(self)@ == placement.slots
                        &&& match placement.target {
                            Ok(slot) => {
                                &&& final(region)@ == written(
                                    old(region)@,
                                    size as nat,
                                    slot as nat,
                                    key@,
                                    value@,
                                )
                                &&& result matches Ok(displaced)
                                &&& shown(displaced@) == match entry(
                                    cell(old(region)@, size as nat, slot as nat),
                                ) {
                                    Some(gone) => if placement.evicts {
                                        seq![gone]
                                    } else {
                                        Seq::empty()
                                    },
                                    None => Seq::empty(),
                                }
                            },
                            Err(error) => {
                                &&& final(region)@ == old(region)@
                                &&& result == Err::<Displaced<String, Vec<u8>>, _>(error)
                            },
                        }
                    },
                }
            }),
            old(self).over(old(region)@).sound() ==> {
                &&& final(self).over(final(region)@).sound()
                &&& old(self).count() > 0 && refusal(
                    vstd::utf8::encode_utf8(key@).len(),
                    value@.len(),
                    old(self).size(),
                ) is None ==> (result matches Ok(displaced) && old(self).over(old(region)@).stored(
                    key@,
                    value@,
                    final(self).over(final(region)@),
                    shown(displaced@),
                ))
            },
    {
        let ghost start = *self;
        let ghost text = key@;
        proof {
            let shelf = self.over(region@);
            if shelf.sound() {
                law_every_slot_is_taken_or_free(shelf);
                if shelf.count > 0 && refusal(
                    vstd::utf8::encode_utf8(key@).len(),
                    value@.len(),
                    self.size(),
                ) is None {
                    law_stores_evict_only_when_full(shelf, text, value@);
                }
            }
        }
        let _total: usize = region.len();
        if let Err(error) = self.fits(key.as_str().as_bytes().len(), value.len()) {
            return Err(error);
        }
        if let Some(slot) = self.index.get(&key) {
            let slot: usize = *slot;
            proof {
                lemma_slot_bounds(slot as nat, self.slots as nat, self.slot_size as nat);
            }
            write_slot(region, self.slot_size, slot, &key, value);
            let displaced: Displaced<String, Vec<u8>> = Vec::new();
            assert(shown(displaced@) =~= Seq::empty());
            return Ok(displaced);
        }
        let mut displaced: Displaced<String, Vec<u8>> = Vec::new();
        assert(shown(displaced@) =~= Seq::empty());
        let slot: usize = if self.free.len() > 0 {
            let slot: usize = self.free[self.free.len() - 1];
            let _taken = self.free.pop();
            slot
        } else {
            // Full: evict the oldest entry and hand it back for demotion.
            let Some(oldest) = self.order.pop_front() else {
                assert(self@ =~= start@);
                return Err(SlotError::NoSlots);
            };
            assert(start@.order[0] == oldest@);
            assert(names::texts(self.order@) =~= start@.order.skip(1));
            let Some(slot) = self.index.remove(&oldest) else {
                assert(self@ =~= start@.placed(text).slots);
                return Err(SlotError::OutOfSync);
            };
            proof {
                lemma_slot_bounds(slot as nat, self.slots as nat, self.slot_size as nat);
            }
            if let Some(gone) = read_slot(region, self.slot_size, slot) {
                let ghost shape = (gone.0@, gone.1@);
                displaced.push(gone);
                assert(shown(displaced@) =~= seq![shape]);
            }
            slot
        };
        proof {
            lemma_slot_bounds(slot as nat, self.slots as nat, self.slot_size as nat);
        }
        write_slot(region, self.slot_size, slot, &key, value);
        let ghost held = self.order@;
        let _replaced = self.index.insert(key.clone(), slot);
        self.order.push_back(key);
        assert(names::texts(self.order@) =~= names::texts(held).push(text));
        assert(self@ =~= start@.placed(text).slots);
        Ok(displaced)
    }

    /// Removes `key`, reporting whether it was there.
    pub fn remove(&mut self, region: &mut [u8], key: &String) -> (removed: bool)
        requires
            old(self).wf(old(region)@.len()),
        ensures
            final(self).wf(final(region)@.len()),
            final(self).count() == old(self).count(),
            final(self).size() == old(self).size(),
            removed == old(self)@.index.contains_key(key@),
            !removed ==> final(self)@ == old(self)@ && final(region)@ == old(region)@,
            removed ==> {
                &&& final(self)@ == old(self)@.cleared(key@)
                &&& final(region)@ == old(region)@.update(
                    old(self)@.index[key@] * old(self).size(),
                    0,
                )
            },
            old(self).over(old(region)@).sound() ==> old(self).over(old(region)@).removed(
                key@,
                final(self).over(final(region)@),
            ),
    {
        let ghost start = *self;
        proof {
            let shelf = self.over(region@);
            if shelf.sound() {
                if self@.index.contains_key(key@) {
                    law_removal_frees_one_slot(
                        self@,
                        region@,
                        self.size() as nat,
                        self.count(),
                        key@,
                    );
                } else {
                    assert(!self@.order.contains(key@));
                    lemma_others_same(self@.order, key@);
                }
            }
        }
        let _total: usize = region.len();
        let Some(slot) = self.index.remove(key) else {
            assert(self@ =~= start@);
            return false;
        };
        proof {
            assert(start@.index.contains_key(key@));
            lemma_slot_bounds(slot as nat, self.slots as nat, self.slot_size as nat);
        }
        let base: usize = slot * self.slot_size;
        region[base] = 0;
        self.free.push(slot);
        let mut kept: VecDeque<String> = VecDeque::new();
        let ghost all = self.order@;
        let mut i: usize = 0;
        assert(names::texts(all.take(0)) =~= Seq::empty());
        assert(names::texts(kept@) =~= Seq::empty());
        while i < self.order.len()
            invariant
                all == self.order@,
                i <= all.len(),
                names::texts(kept@) == mapped::others(names::texts(all.take(i as int)), key@),
            decreases all.len() - i,
        {
            let ghost before = kept@;
            let ghost seen = names::texts(all.take(i + 1));
            assert(seen.drop_last() =~= names::texts(all.take(i as int)));
            if self.order[i] != *key {
                kept.push_back(self.order[i].clone());
                assert(names::texts(kept@) =~= names::texts(before).push(all[i as int]@));
            }
            i += 1;
        }
        assert(all.take(i as int) =~= all);
        self.order = kept;
        assert(self@ =~= start@.cleared(key@));
        true
    }
}

/// No key stands in two of the first `count` slots.
pub open spec fn keys_apart(region: Seq<u8>, size: nat, count: nat) -> bool {
    forall|a: nat, b: nat|
        a < b < count ==> match (
            entry(#[trigger] cell(region, size, a)),
            entry(#[trigger] cell(region, size, b)),
        ) {
            (Some((x, _)), Some((y, _))) => x != y,
            _ => true,
        }
}

proof fn lemma_lengths(key: Seq<u8>, value: Seq<u8>)
    requires
        key.len() <= u16::MAX,
        value.len() <= u32::MAX,
    ensures
        record_of(key, value).len() == HEADER + key.len() + value.len(),
        record_of(key, value)[0] == 1,
        key_len(record_of(key, value)) == key.len(),
        val_len(record_of(key, value)) == value.len(),
{
    let record = record_of(key, value);
    let k = key.len();
    let v = value.len();
    assert(record[1] == (k % 256) as u8 && record[2] == (k / 256) as u8);
    assert(record[3] == (v % 256) as u8 && record[4] == ((v / 256) % 256) as u8);
    assert(record[5] == ((v / 65536) % 256) as u8 && record[6] == (v / 16777216) as u8);
}

proof fn lemma_record_reads(c: Seq<u8>, key: Seq<char>, value: Seq<u8>)
    requires
        vstd::utf8::encode_utf8(key).len() <= u16::MAX,
        value.len() <= u32::MAX,
        HEADER + vstd::utf8::encode_utf8(key).len() + value.len() <= c.len(),
        forall|i: int|
            0 <= i < HEADER + vstd::utf8::encode_utf8(key).len() + value.len() ==> #[trigger] c[i]
                == record_of(vstd::utf8::encode_utf8(key), value)[i],
    ensures
        entry(c) == Some((key, value)),
{
    let name = vstd::utf8::encode_utf8(key);
    let record = record_of(name, value);
    lemma_lengths(name, value);
    assert(c[0] == record[0] && c[1] == record[1] && c[2] == record[2] && c[3] == record[3] && c[4]
        == record[4] && c[5] == record[5] && c[6] == record[6]);
    assert(key_bytes(c) =~= name);
    assert(value_bytes(c) =~= value);
    vstd::utf8::encode_utf8_valid_utf8(key);
    vstd::utf8::encode_utf8_decode_utf8(key);
}

/// A written slot reads back as the entry that was written, and every other
/// slot keeps its bytes.
pub proof fn law_records_round_trip(
    region: Seq<u8>,
    size: nat,
    count: nat,
    slot: nat,
    key: Seq<char>,
    value: Seq<u8>,
)
    requires
        region.len() == count * size,
        size <= usize::MAX,
        slot < count,
        refusal(vstd::utf8::encode_utf8(key).len(), value.len(), size as usize) is None,
    ensures
        entry(cell(written(region, size, slot, key, value), size, slot)) == Some((key, value)),
        forall|other: nat|
            other < count && other != slot ==> #[trigger] cell(
                written(region, size, slot, key, value),
                size,
                other,
            ) == cell(region, size, other),
{
    let name = vstd::utf8::encode_utf8(key);
    let record = record_of(name, value);
    let after = written(region, size, slot, key, value);
    lemma_slot_bounds(slot, count, size);
    lemma_lengths(name, value);
    let c = cell(after, size, slot);
    let base = (slot * size) as int;
    assert forall|i: int| 0 <= i < record.len() implies #[trigger] c[i] == record[i] by {
        assert(c[i] == after[base + i]);
    }
    lemma_record_reads(c, key, value);
    assert forall|other: nat| other < count && other != slot implies #[trigger] cell(
        after,
        size,
        other,
    ) == cell(region, size, other) by {
        lemma_other_cell(region, after, size, count, slot, record.len(), other);
    }
}

/// A change within the first `len` bytes of one slot leaves other slots alone.
proof fn lemma_other_cell(
    region: Seq<u8>,
    after: Seq<u8>,
    size: nat,
    count: nat,
    slot: nat,
    len: nat,
    other: nat,
)
    requires
        region.len() == count * size,
        after.len() == region.len(),
        slot < count,
        other < count,
        other != slot,
        len <= size,
        forall|i: int|
            0 <= i < region.len() && !(slot * size <= i < slot * size + len) ==> #[trigger] after[i]
                == region[i],
    ensures
        cell(after, size, other) == cell(region, size, other),
{
    lemma_slot_bounds(slot, count, size);
    lemma_slot_bounds(other, count, size);
    if other < slot {
        lemma_slots_apart(other, slot, size);
    } else {
        lemma_slots_apart(slot, other, size);
    }
    let a = cell(after, size, other);
    let b = cell(region, size, other);
    let base = (other * size) as int;
    assert forall|i: int| 0 <= i < size implies #[trigger] a[i] == b[i] by {
        assert(a[i] == after[base + i]);
        assert(b[i] == region[base + i]);
    }
    assert(a =~= b);
}

/// Opening a region in which no key stands twice gives a store that agrees
/// with it: every complete record is served, every other slot is free.
pub proof fn law_opened_stores_are_sound(region: Seq<u8>, size: nat, count: nat)
    requires
        size > HEADER,
        count <= usize::MAX,
        region.len() == count * size,
        keys_apart(region, size, count),
    ensures
        scanned(region, size, count).sound(region, size, count),
{
    lemma_scanned(region, size, count);
}

/// What scanning the first `count` slots finds.
proof fn lemma_scanned(region: Seq<u8>, size: nat, count: nat)
    requires
        count <= usize::MAX,
        keys_apart(region, size, count),
    ensures
        scanned(region, size, count).agrees(region, size, count),
    decreases count,
{
    if count > 0 {
        let last = (count - 1) as nat;
        lemma_scanned(region, size, last);
        let before = scanned(region, size, last);
        let slots = scanned(region, size, count);
        match entry(cell(region, size, last)) {
            Some((key, _)) => {
                if before.index.contains_key(key) {
                    let other = before.index[key] as nat;
                    assert(holds(cell(region, size, other), key));
                    assert(false);
                }
                assert(!before.order.contains(key));
                assert forall|k: Seq<char>| #[trigger]
                    slots.order.contains(k) <==> slots.index.contains_key(k) by {
                    vstd::seq_lib::lemma_seq_contains_after_push(before.order, key, k);
                }
                assert forall|k: Seq<char>| #[trigger] slots.index.contains_key(k) implies holds(
                    cell(region, size, slots.index[k] as nat),
                    k,
                ) && slots.index[k] < count by {
                    if k != key {
                        assert(before.index.contains_key(k));
                    }
                }
                assert forall|slot: nat| slot < count implies match entry(
                    #[trigger] cell(region, size, slot),
                ) {
                    Some((key, _)) => slots.index.contains_key(key) && slots.index[key] == slot,
                    None => slots.free.contains(slot as usize),
                } by {
                    if slot < last {
                        assert(cell(region, size, slot) == cell(region, size, slot));
                    }
                }
            },
            None => {
                if before.free.contains(last as usize) {
                    let i = choose|i: int|
                        0 <= i < before.free.len() && before.free[i] == last as usize;
                    assert(before.free[i] < last);
                }
                assert forall|slot: nat| slot < count implies match entry(
                    #[trigger] cell(region, size, slot),
                ) {
                    Some((key, _)) => slots.index.contains_key(key) && slots.index[key] == slot,
                    None => slots.free.contains(slot as usize),
                } by {
                    vstd::seq_lib::lemma_seq_contains_after_push(
                        before.free,
                        last as usize,
                        slot as usize,
                    );
                }
            },
        }
    }
}

/// A store with at least one slot accepts every entry that fits a slot, stays
/// in agreement with its region, and serves the entry from then on. It evicts
/// only when it is full and the key is new; then the oldest entry goes, and it
/// is that entry, key and value, that the write hands back. Nothing else
/// changes.
pub proof fn law_writes_displace_only_the_oldest(
    slots: Slots,
    region: Seq<u8>,
    size: nat,
    count: nat,
    key: Seq<char>,
    value: Seq<u8>,
)
    requires
        slots.sound(region, size, count),
        size <= usize::MAX,
        count > 0,
        refusal(vstd::utf8::encode_utf8(key).len(), value.len(), size as usize) is None,
    ensures
        ({
            let placement = slots.placed(key);
            let slot = placement.target->Ok_0;
            let after = written(region, size, slot as nat, key, value);
            &&& placement.target is Ok
            &&& slot < count
            &&& placement.slots.sound(after, size, count)
            &&& placement.slots.served(after, size, key) == Some(value)
            &&& placement.evicts <==> slots.free.len() == 0 && !slots.index.contains_key(key)
            &&& placement.evicts ==> slots.order.len() > 0 && slots.served(
                region,
                size,
                slots.order[0],
            ) is Some && entry(cell(region, size, slot as nat)) == Some(
                (slots.order[0], slots.served(region, size, slots.order[0])->0),
            )
            &&& forall|other: Seq<char>|
                other != key ==> #[trigger] placement.slots.served(after, size, other) == (
                if placement.evicts && other == slots.order[0] {
                    None
                } else {
                    slots.served(region, size, other)
                })
        }),
{
    let placement = slots.placed(key);
    assert(cell(region, size, 0) == cell(region, size, 0));
    if slots.free.len() == 0 && !slots.index.contains_key(key) {
        let first = entry(cell(region, size, 0));
        if first is None {
            assert(slots.free.contains(0usize));
        }
        assert(slots.order.contains((first->0).0));
        assert(slots.order.contains(slots.order[0]));
    }
    let slot = placement.target->Ok_0;
    let after = written(region, size, slot as nat, key, value);
    law_records_round_trip(region, size, count, slot as nat, key, value);
    let grown = placement.slots;
    assert forall|k: Seq<char>| #[trigger] grown.index.contains_key(k) implies grown.index[k] < count
        && holds(cell(after, size, grown.index[k] as nat), k) by {
        if k != key {
            assert(slots.index.contains_key(k));
            assert(holds(cell(region, size, slots.index[k] as nat), k));
            if slots.index[k] == slot {
                assert(entry(cell(region, size, slot as nat)) is Some);
                if slots.index.contains_key(key) {
                    assert(holds(cell(region, size, slot as nat), key));
                } else if slots.free.len() > 0 {
                    assert(slots.free[slots.free.len() - 1] == slot);
                } else {
                    assert(holds(cell(region, size, slot as nat), slots.order[0]));
                }
                assert(false);
            }
        }
    }
    assert forall|i: int| 0 <= i < grown.free.len() implies #[trigger] grown.free[i] < count && entry(
        cell(after, size, grown.free[i] as nat),
    ) is None by {
        assert(slots.free[i] == grown.free[i]);
        if grown.free[i] == slot {
            if slots.index.contains_key(key) {
                assert(holds(cell(region, size, slot as nat), key));
            } else {
                assert(slots.free[slots.free.len() - 1] == slot);
            }
        }
    }
    assert forall|s: nat| s < count implies match entry(#[trigger] cell(after, size, s)) {
        Some((k, _)) => grown.index.contains_key(k) && grown.index[k] == s,
        None => grown.free.contains(s as usize),
    } by {
        if s != slot {
            assert(cell(after, size, s) == cell(region, size, s));
            match entry(cell(region, size, s)) {
                Some((k, _)) => {
                    if k == key {
                        assert(slots.index[key] == slot);
                    }
                },
                None => {
                    let i = choose|i: int|
                        0 <= i < slots.free.len() && slots.free[i] == s as usize;
                    if grown.free.len() < slots.free.len() {
                        assert(i < slots.free.len() - 1);
                        assert(grown.free[i] == s as usize);
                    }
                },
            }
        }
    }
    assert forall|k: Seq<char>| #[trigger]
        grown.order.contains(k) <==> grown.index.contains_key(k) by {
        if !slots.index.contains_key(key) {
            if slots.free.len() > 0 {
                vstd::seq_lib::lemma_seq_contains_after_push(slots.order, key, k);
            } else {
                vstd::seq_lib::lemma_seq_contains_after_push(slots.order.skip(1), key, k);
                lemma_skip_member(slots.order, k);
            }
        }
    }
    assert(grown.order.no_duplicates()) by {
        assert(slots.order.contains(key) <==> slots.index.contains_key(key));
        if !slots.index.contains_key(key) && slots.free.len() == 0 {
            lemma_skip_member(slots.order, key);
        }
    }
    assert forall|other: Seq<char>| other != key implies #[trigger] grown.served(after, size, other)
        == (if placement.evicts && other == slots.order[0] {
        None
    } else {
        slots.served(region, size, other)
    }) by {
        if grown.index.contains_key(other) {
            assert(slots.index.contains_key(other));
            assert(holds(cell(region, size, slots.index[other] as nat), other));
            assert(holds(cell(after, size, grown.index[other] as nat), other));
        }
    }
}

/// Every slot is taken by one key or free, so a store with fewer keys than
/// slots has a free one.
pub proof fn law_every_slot_is_taken_or_free(shelf: Shelf)
    requires
        shelf.sound(),
    ensures
        shelf.keys().len() + shelf.slots.free.len() == shelf.count,
{
    let slots = shelf.slots;
    let taken = Seq::new(slots.order.len(), |i: int| slots.index[slots.order[i]] as int);
    let free = Seq::new(slots.free.len(), |i: int| slots.free[i] as int);
    let all = taken + free;
    assert forall|i: int| 0 <= i < taken.len() implies 0 <= #[trigger] taken[i] < shelf.count
        && holds(cell(shelf.region, shelf.size, taken[i] as nat), slots.order[i]) by {
        assert(slots.order.contains(slots.order[i]));
    }
    assert forall|i: int| 0 <= i < free.len() implies 0 <= #[trigger] free[i] < shelf.count && entry(
        cell(shelf.region, shelf.size, free[i] as nat),
    ) is None by {
        assert(slots.free[i] < shelf.count);
    }
    assert forall|i: int, j: int| 0 <= i < j < all.len() implies all[i] != all[j] by {
        if j < taken.len() {
            assert(all[i] == taken[i] && all[j] == taken[j]);
            assert(slots.order[i] != slots.order[j]);
        } else if i < taken.len() {
            assert(all[i] == taken[i] && all[j] == free[j - taken.len()]);
        } else {
            assert(all[i] == free[i - taken.len()] && all[j] == free[j - taken.len()]);
            assert(slots.free[i - taken.len()] != slots.free[j - taken.len()]);
        }
    }
    assert(all.no_duplicates());
    let range = vstd::set_lib::set_int_range(0, shelf.count as int);
    assert forall|s: int| #[trigger] all.to_set().contains(s) <==> range.contains(s) by {
        if all.contains(s) {
            let i = choose|i: int| 0 <= i < all.len() && all[i] == s;
            if i < taken.len() {
                assert(taken[i] == s);
            } else {
                assert(free[i - taken.len()] == s);
            }
        }
        if range.contains(s) {
            match entry(cell(shelf.region, shelf.size, s as nat)) {
                Some((key, _)) => {
                    assert(slots.order.contains(key));
                    let i = choose|i: int| 0 <= i < slots.order.len() && slots.order[i] == key;
                    assert(all[i] == s);
                },
                None => {
                    let i = choose|i: int|
                        0 <= i < slots.free.len() && slots.free[i] == s as usize;
                    assert(all[taken.len() + i] == s);
                },
            }
        }
    }
    assert(all.to_set() =~= range);
    all.unique_seq_to_set();
    vstd::set_lib::lemma_int_range(0, shelf.count as int);
}

/// A store evicts only when every slot is taken and the key is new; then it is
/// the oldest entry that goes.
pub proof fn law_stores_evict_only_when_full(shelf: Shelf, key: Seq<char>, value: Seq<u8>)
    requires
        shelf.sound(),
        shelf.size <= usize::MAX,
        shelf.count > 0,
        refusal(vstd::utf8::encode_utf8(key).len(), value.len(), shelf.size as usize) is None,
    ensures
        ({
            let placement = shelf.slots.placed(key);
            let slot = placement.target->Ok_0;
            let after = Shelf {
                slots: placement.slots,
                region: written(shelf.region, shelf.size, slot as nat, key, value),
                ..shelf
            };
            let displaced = if placement.evicts {
                seq![entry(cell(shelf.region, shelf.size, slot as nat))->0]
            } else {
                Seq::empty()
            };
            &&& placement.target is Ok
            &&& placement.evicts ==> entry(cell(shelf.region, shelf.size, slot as nat)) is Some
            &&& shelf.stored(key, value, after, displaced)
        }),
{
    law_writes_displace_only_the_oldest(
        shelf.slots,
        shelf.region,
        shelf.size,
        shelf.count,
        key,
        value,
    );
    law_every_slot_is_taken_or_free(shelf);
    let placement = shelf.slots.placed(key);
    let slot = placement.target->Ok_0;
    let after = Shelf {
        slots: placement.slots,
        region: written(shelf.region, shelf.size, slot as nat, key, value),
        ..shelf
    };
    law_every_slot_is_taken_or_free(after);
    assert(shelf.keys().contains(key) <==> shelf.slots.index.contains_key(key));
    assert forall|other: Seq<char>| other != key implies #[trigger] after.served(other) == (
    if placement.evicts && other == shelf.keys()[0] {
        None
    } else {
        shelf.served(other)
    }) by {
        assert(placement.slots.served(after.region, shelf.size, other) == after.served(other));
    }
}

proof fn lemma_others_same(order: Seq<Seq<char>>, key: Seq<char>)
    requires
        !order.contains(key),
    ensures
        mapped::others(order, key) == order,
    decreases order.len(),
{
    if order.len() > 0 {
        let front = order.drop_last();
        assert(order[order.len() - 1] != key);
        if front.contains(key) {
            let i = choose|i: int| 0 <= i < front.len() && front[i] == key;
            assert(order[i] == key);
        }
        lemma_others_same(front, key);
        assert(front.push(order.last()) =~= order);
    }
}

/// Removing a key frees its slot: the store stays in agreement with its region,
/// no longer serves the key, and serves every other key as before.
pub proof fn law_removal_frees_one_slot(
    slots: Slots,
    region: Seq<u8>,
    size: nat,
    count: nat,
    key: Seq<char>,
)
    requires
        slots.sound(region, size, count),
        slots.index.contains_key(key),
    ensures
        ({
            let after = region.update(slots.index[key] * size, 0);
            &&& slots.cleared(key).sound(after, size, count)
            &&& slots.cleared(key).served(after, size, key) is None
            &&& forall|other: Seq<char>|
                other != key ==> #[trigger] slots.cleared(key).served(after, size, other)
                    == slots.served(region, size, other)
        }),
{
    let slot = slots.index[key] as nat;
    let after = region.update((slot * size) as int, 0);
    let cleared = slots.cleared(key);
    lemma_slot_bounds(slot, count, size);
    assert(cell(after, size, slot)[0] == 0);
    assert(entry(cell(after, size, slot)) is None);
    assert forall|s: nat| s < count && s != slot implies #[trigger] cell(after, size, s) == cell(
        region,
        size,
        s,
    ) by {
        lemma_other_cell(region, after, size, count, slot, 1, s);
    }
    assert forall|k: Seq<char>| #[trigger] cleared.index.contains_key(k) implies cleared.index[k]
        < count && holds(cell(after, size, cleared.index[k] as nat), k) by {
        assert(slots.index.contains_key(k));
        assert(holds(cell(region, size, slots.index[k] as nat), k));
        assert(holds(cell(region, size, slot), key));
    }
    if slots.free.contains(slot as usize) {
        let i = choose|i: int| 0 <= i < slots.free.len() && slots.free[i] == slot as usize;
        assert(entry(cell(region, size, slots.free[i] as nat)) is None);
        assert(holds(cell(region, size, slot), key));
    }
    assert forall|i: int| 0 <= i < cleared.free.len() implies #[trigger] cleared.free[i] < count
        && entry(cell(after, size, cleared.free[i] as nat)) is None by {
        if i < slots.free.len() {
            assert(slots.free[i] == cleared.free[i]);
        }
    }
    assert forall|s: nat| s < count implies match entry(#[trigger] cell(after, size, s)) {
        Some((k, _)) => cleared.index.contains_key(k) && cleared.index[k] == s,
        None => cleared.free.contains(s as usize),
    } by {
        vstd::seq_lib::lemma_seq_contains_after_push(slots.free, slot as usize, s as usize);
        if s != slot {
            assert(cell(after, size, s) == cell(region, size, s));
        }
    }
    mapped::lemma_others(slots.order, key, Map::empty());
    assert forall|other: Seq<char>| other != key implies #[trigger] cleared.served(
        after,
        size,
        other,
    ) == slots.served(region, size, other) by {
        if slots.index.contains_key(other) {
            assert(cleared.index.contains_key(other));
            assert(holds(cell(after, size, cleared.index[other] as nat), other));
        }
    }
}

/// A reopened store serves everything that it held: scanning the region of a
/// store finds the same entries.
pub proof fn law_reopened_stores_serve_the_same(
    slots: Slots,
    region: Seq<u8>,
    size: nat,
    count: nat,
    key: Seq<char>,
)
    requires
        slots.sound(region, size, count),
    ensures
        scanned(region, size, count).sound(region, size, count),
        scanned(region, size, count).index.contains_key(key) <==> slots.index.contains_key(key),
        scanned(region, size, count).served(region, size, key) == slots.served(region, size, key),
{
    assert(keys_apart(region, size, count)) by {
        assert forall|a: nat, b: nat| a < b < count implies match (
            entry(#[trigger] cell(region, size, a)),
            entry(#[trigger] cell(region, size, b)),
        ) {
            (Some((x, _)), Some((y, _))) => x != y,
            _ => true,
        } by {}
    }
    law_opened_stores_are_sound(region, size, count);
    let again = scanned(region, size, count);
    if slots.index.contains_key(key) {
        let slot = slots.index[key] as nat;
        assert(holds(cell(region, size, slot), key));
        assert(again.index[key] == slot);
    }
    if again.index.contains_key(key) {
        let slot = again.index[key] as nat;
        assert(holds(cell(region, size, slot), key));
        assert(slots.index[key] == slot);
    }
}

proof fn lemma_skip_member<A>(items: Seq<A>, other: A)
    requires
        items.len() > 0,
        items.no_duplicates(),
    ensures
        items.skip(1).no_duplicates(),
        items.skip(1).contains(other) <==> items.contains(other) && other != items[0],
{
    let rest = items.skip(1);
    if rest.contains(other) {
        let i = choose|i: int| 0 <= i < rest.len() && rest[i] == other;
        assert(items[i + 1] == other);
    }
    if items.contains(other) && other != items[0] {
        let i = choose|i: int| 0 <= i < items.len() && items[i] == other;
        assert(rest[i - 1] == other);
    }
}

/// An entry is refused only where it cannot be stored, and then it is said why:
/// the record, header and all, is larger than a slot, or a length is larger than
/// the header can state. What fits is never refused.
pub proof fn law_only_what_does_not_fit_is_refused(key_len: nat, val_len: nat, size: usize)
    ensures
        refusal(key_len, val_len, size) is None <==> 7 + key_len + val_len <= size && key_len
            <= 65535 && val_len <= 4294967295,
        refusal(key_len, val_len, size) matches Some(error) ==> match error {
            SlotError::TooBig { needed, slot_size } => {
                &&& 7 + key_len + val_len > size
                &&& slot_size == size
                &&& 7 + key_len + val_len <= usize::MAX ==> needed == 7 + key_len + val_len
                &&& 7 + key_len + val_len > usize::MAX ==> needed == usize::MAX
            },
            SlotError::KeyTooLong => 7 + key_len + val_len <= size && key_len > 65535,
            SlotError::ValueTooLong => 7 + key_len + val_len <= size && key_len <= 65535 && val_len
                > 4294967295,
            _ => false,
        },
{
}

/// What fits is stored. Be there at least one slot, and be the record of `key`
/// and `value` no larger than a slot, with lengths that the header can state.
/// Then the entry finds a slot and is served from then on. If the key was there
/// already, or if it was not and a slot is free, every other entry stays, and
/// the key keeps its place in the order or comes last; otherwise the oldest entry
/// goes, and it alone, and the new key comes last.
pub proof fn law_what_fits_is_stored(shelf: Shelf, key: Seq<char>, value: Seq<u8>)
    requires
        shelf.sound(),
        shelf.size <= usize::MAX,
        shelf.count > 0,
        7 + vstd::utf8::encode_utf8(key).len() + value.len() <= shelf.size,
        vstd::utf8::encode_utf8(key).len() <= 65535,
        value.len() <= 4294967295,
    ensures
        refusal(vstd::utf8::encode_utf8(key).len(), value.len(), shelf.size as usize) is None,
        ({
            let order = shelf.slots.order;
            let placement = shelf.slots.placed(key);
            let slot = placement.target->Ok_0 as nat;
            let after = Shelf {
                slots: placement.slots,
                region: written(shelf.region, shelf.size, slot, key, value),
                ..shelf
            };
            let evicts = !order.contains(key) && order.len() == shelf.count;
            &&& placement.target is Ok
            &&& placement.evicts == evicts
            &&& after.sound()
            &&& after.served(key) == Some(value)
            &&& forall|other: Seq<char>|
                other != key && !(evicts && other == order[0]) ==> #[trigger] after.served(other)
                    == shelf.served(other)
            &&& evicts ==> {
                &&& order.len() > 0
                &&& after.served(order[0]) is None
                &&& shelf.served(order[0]) is Some
                &&& entry(cell(shelf.region, shelf.size, slot)) == Some(
                    (order[0], shelf.served(order[0])->0),
                )
            }
            &&& after.slots.order == if order.contains(key) {
                order
            } else if evicts {
                order.skip(1).push(key)
            } else {
                order.push(key)
            }
        }),
{
    law_stores_evict_only_when_full(shelf, key, value);
    law_every_slot_is_taken_or_free(shelf);
    law_writes_displace_only_the_oldest(
        shelf.slots,
        shelf.region,
        shelf.size,
        shelf.count,
        key,
        value,
    );
    let slots = shelf.slots;
    assert(slots.order.contains(key) <==> slots.index.contains_key(key));
    if slots.placed(key).evicts {
        let oldest = slots.order[0];
        assert(slots.order.contains(oldest));
        assert(oldest != key);
    }
}

/// A store knows a key exactly if it serves a value for it, and that is the value
/// in the slot of the key.
pub proof fn law_known_keys_are_served(slots: Slots, region: Seq<u8>, size: nat, count: nat, key: Seq<char>)
    requires
        slots.sound(region, size, count),
    ensures
        slots.index.contains_key(key) <==> slots.served(region, size, key) is Some,
        slots.index.contains_key(key) <==> slots.order.contains(key),
        slots.index.contains_key(key) ==> {
            let c = cell(region, size, slots.index[key] as nat);
            &&& used(c)
            &&& slots.served(region, size, key) == Some(value_bytes(c))
        },
{
    if slots.index.contains_key(key) {
        assert(holds(cell(region, size, slots.index[key] as nat), key));
    }
}

/// Removing a key takes it, and only it, out of the order.
pub proof fn law_removal_keeps_the_order(slots: Slots, key: Seq<char>)
    ensures
        slots.cleared(key).order == slots.order.filter(|other: Seq<char>| other != key),
        !slots.cleared(key).index.contains_key(key),
        forall|other: Seq<char>|
            other != key ==> (#[trigger] slots.cleared(key).index.contains_key(other)
                <==> slots.index.contains_key(other)),
        forall|other: Seq<char>|
            other != key && slots.index.contains_key(other) ==> #[trigger] slots.cleared(
                key,
            ).index[other] == slots.index[other],
{
    mapped::law_others_are_kept_in_order(slots.order, key);
}

/// The layout of a slot: a one, the length of the key in two bytes and of the
/// value in four, the lowest first, the key, and the value. Nothing else in the
/// region changes.
pub proof fn law_slots_have_one_layout(
    region: Seq<u8>,
    size: nat,
    count: nat,
    slot: nat,
    key: Seq<char>,
    value: Seq<u8>,
)
    requires
        region.len() == count * size,
        slot < count,
        7 + vstd::utf8::encode_utf8(key).len() + value.len() <= size,
        vstd::utf8::encode_utf8(key).len() <= 65535,
        value.len() <= 4294967295,
    ensures
        ({
            let name = vstd::utf8::encode_utf8(key);
            let base = (slot * size) as int;
            let end = base + 7 + name.len() + value.len();
            let after = written(region, size, slot, key, value);
            &&& after.len() == region.len()
            &&& end <= after.len()
            &&& after[base] == 1
            &&& after[base + 1] + 256 * after[base + 2] == name.len()
            &&& after[base + 3] + 256 * after[base + 4] + 65536 * after[base + 5] + 16777216
                * after[base + 6] == value.len()
            &&& after.subrange(base + 7, base + 7 + name.len()) == name
            &&& after.subrange(base + 7 + name.len(), end) == value
            &&& forall|i: int|
                0 <= i < region.len() && !(base <= i < end) ==> #[trigger] after[i] == region[i]
        }),
{
    let name = vstd::utf8::encode_utf8(key);
    let base = (slot * size) as int;
    let record = record_of(name, value);
    let after = written(region, size, slot, key, value);
    lemma_slot_bounds(slot, count, size);
    lemma_lengths(name, value);
    assert forall|i: int| 0 <= i < record.len() implies after[base + i] == #[trigger] record[i] by {
    }
    assert(after[base + 0] == record[0] && after[base + 1] == record[1] && after[base + 2]
        == record[2] && after[base + 3] == record[3] && after[base + 4] == record[4] && after[base
        + 5] == record[5] && after[base + 6] == record[6]);
    assert(after.subrange(base + 7, base + 7 + name.len()) =~= name) by {
        assert forall|i: int| 0 <= i < name.len() implies after[base + 7 + i] == #[trigger] name[i] by {
            assert(record[7 + i] == name[i]);
        }
    }
    let end = base + 7 + name.len() + value.len();
    assert(after.subrange(base + 7 + name.len(), end) =~= value) by {
        assert forall|i: int| 0 <= i < value.len() implies after[base + 7 + name.len() + i]
            == #[trigger] value[i] by {
            assert(record[7 + name.len() + i] == value[i]);
        }
    }
}

/// What a slot holds, byte by byte: an entry, if the slot starts with a one, its
/// lengths stay within the slot and its key is a text; else nothing, so that a
/// corrupt slot counts as free.
pub proof fn law_slots_are_read_as_laid_out(c: Seq<u8>)
    requires
        c.len() > 7,
    ensures
        ({
            let key_end = 7 + c[1] + 256 * c[2];
            let end = key_end + c[3] + 256 * c[4] + 65536 * c[5] + 16777216 * c[6];
            match entry(c) {
                Some((key, value)) => {
                    &&& c[0] == 1
                    &&& end <= c.len()
                    &&& c.subrange(7, key_end) == vstd::utf8::encode_utf8(key)
                    &&& c.subrange(key_end, end) == value
                },
                None => c[0] != 1 || end > c.len() || !vstd::utf8::valid_utf8(
                    c.subrange(7, key_end),
                ),
            }
        }),
{
    if let Some((key, value)) = entry(c) {
        vstd::utf8::decode_utf8_encode_utf8(key_bytes(c));
    }
}

/// A store that is opened lists its keys in the order of their slots.
pub proof fn law_opened_stores_order_by_slot(region: Seq<u8>, size: nat, count: nat)
    requires
        count <= usize::MAX,
        region.len() == count * size,
        keys_apart(region, size, count),
    ensures
        ({
            let slots = scanned(region, size, count);
            &&& forall|i: int|
                0 <= i < slots.order.len() ==> slots.index.contains_key(#[trigger] slots.order[i])
                    && slots.index[slots.order[i]] < count
            &&& forall|i: int, j: int|
                0 <= i < j < slots.order.len() ==> slots.index[#[trigger] slots.order[i]]
                    < slots.index[#[trigger] slots.order[j]]
        }),
{
    lemma_slot_order(region, size, count);
}

/// The keys of the first `count` slots, in the order of their slots.
proof fn lemma_slot_order(region: Seq<u8>, size: nat, count: nat)
    requires
        count <= usize::MAX,
        keys_apart(region, size, count),
    ensures
        ({
            let slots = scanned(region, size, count);
            &&& forall|i: int|
                0 <= i < slots.order.len() ==> slots.index.contains_key(#[trigger] slots.order[i])
                    && slots.index[slots.order[i]] < count && holds(
                    cell(region, size, slots.index[slots.order[i]] as nat),
                    slots.order[i],
                )
            &&& forall|i: int, j: int|
                0 <= i < j < slots.order.len() ==> slots.index[#[trigger] slots.order[i]]
                    < slots.index[#[trigger] slots.order[j]]
        }),
    decreases count,
{
    if count > 0 {
        let slot = (count - 1) as nat;
        let slots = scanned(region, size, count);
        let before = scanned(region, size, slot);
        lemma_slot_order(region, size, slot);
        if let Some((key, _)) = entry(cell(region, size, slot)) {
            assert forall|i: int| 0 <= i < before.order.len() implies #[trigger] before.order[i]
                != key by {
                let other = before.index[before.order[i]] as nat;
                assert(holds(cell(region, size, other), before.order[i]));
                assert(cell(region, size, slot) == cell(region, size, slot));
            }
            assert forall|i: int| 0 <= i < slots.order.len() implies (#[trigger] slots.order[i]
                == before.order[i] && i < before.order.len()) || slots.order[i] == key by {}
            assert forall|i: int, j: int| 0 <= i < j < slots.order.len() implies slots.index[
            #[trigger] slots.order[i]] < slots.index[#[trigger] slots.order[j]] by {
                assert(before.order[i] == slots.order[i]);
                if j < before.order.len() {
                    assert(before.order[j] == slots.order[j]);
                }
            }
        }
    }
}

/// The words of an error say what is too long, or how many bytes are needed and
/// how many there are.
pub proof fn law_slot_errors_say_what_does_not_fit(needed: usize, slot_size: usize)
    ensures
        (SlotError::TooBig { needed, slot_size }).words() == "entry needs "@ + text::decimal(
            needed as nat,
        ) + " bytes, slot holds "@ + text::decimal(slot_size as nat),
        SlotError::KeyTooLong.words() == "key too long"@,
        SlotError::ValueTooLong.words() == "value too long"@,
        SlotError::NoSlots.words() == "mmap tier has zero slots"@,
        SlotError::OutOfSync.words() == "index and order out of sync"@,
{
}

/// A write finds no slot only where there is none: the key is new, no slot is free,
/// and there is no oldest entry whose slot could be had. A store that agrees with
/// its region is never out of step, so it finds none only if it has no slots at
/// all.
pub proof fn law_writes_find_a_slot_if_there_is_one(shelf: Shelf, key: Seq<char>)
    ensures
        ({
            let slots = shelf.slots;
            let oldest = slots.order[0];
            match slots.placed(key).target {
                Ok(_) => slots.index.contains_key(key) || slots.free.len() > 0 || (slots.order.len()
                    > 0 && slots.index.contains_key(oldest)),
                Err(SlotError::NoSlots) => !slots.index.contains_key(key) && slots.free.len() == 0
                    && slots.order.len() == 0,
                Err(SlotError::OutOfSync) => !slots.index.contains_key(key) && slots.free.len() == 0
                    && slots.order.len() > 0 && !slots.index.contains_key(oldest),
                Err(_) => false,
            }
        }),
        shelf.sound() && shelf.count == 0 ==> shelf.slots.placed(key).target == Err::<usize, _>(
            SlotError::NoSlots,
        ),
        shelf.sound() && shelf.count > 0 ==> shelf.slots.placed(key).target is Ok,
{
    let slots = shelf.slots;
    if shelf.sound() {
        law_every_slot_is_taken_or_free(shelf);
        assert(slots.order.contains(key) <==> slots.index.contains_key(key));
        if slots.order.len() > 0 {
            assert(slots.order.contains(slots.order[0]));
        }
        if slots.index.contains_key(key) {
            assert(slots.order.contains(key));
        }
    }
}

} // verus!
