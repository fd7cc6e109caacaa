//! Write feeds for keeping caches on several nodes coherent.
//!
//! Each node publishes its recent writes as a compact ring inside one gossiped
//! entry ([`WriteFeed`]); every peer turns entry changes into typed events
//! ([`PeerWrites`]): [`PeerWrite::Invalidate`] for each new write, or
//! [`PeerWrite::Resync`] when it provably missed some (the peer's ring advanced
//! past its cursor). The application applies them, typically by dropping local
//! copies per invalidation and by flushing on a resync.
//!
//! - **State-based, not a log.** The feed entry always carries the last N
//!   writes; loss, lag and duplication are all safe because subscribers
//!   reconcile against the current entry and invalidation is idempotent.
//!   Missing writes are *detected*, never silently dropped: ring overflow past
//!   a slow peer degrades to an explicit resync.
//! - **Keys travel by your codec.** A key that fails to decode is skipped, so
//!   keep codecs in lockstep across nodes.
//! - **History is not replayed.** A subscriber starts at each existing peer
//!   feed's current end. Feeds appearing later replay their visible window:
//!   those writes are genuinely new.
//!
//! Each node's feed is totally ordered by sequence number, which is enough for
//! per-writer session consistency: hand `(writer, seq)` to the client as a
//! token, and any node serving that client waits for [`FrontierView::reached`]
//! before reading locally. The [`Frontier`] is advanced after each write was
//! applied, so "reached" means applied, not merely delivered.

use std::collections::VecDeque;
use vstd::prelude::*;
use vstd::slice::slice_to_vec;

use crate::table::Table;

verus! {

/// The group entry key under which each node's write feed is gossiped.
pub const ENTRY_KEY: &'static str = "tierstore:writes";

/// Attempts before giving up on advertising a frame under backpressure (the
/// ring keeps the write; the next publish carries it again).
pub const PUBLISH_RETRIES: usize = 8;

/// Encoded keys as mathematical values.
pub open spec fn contents(keys: Seq<Vec<u8>>) -> Seq<Seq<u8>> {
    keys.map_values(|key: Vec<u8>| key@)
}

/// How many numbers `size` bytes can tell apart.
pub open spec fn span(size: nat) -> nat
    decreases size,
{
    if size == 0 {
        1
    } else {
        256 * span((size - 1) as nat)
    }
}

/// A number in `size` bytes, the lowest byte first.
pub open spec fn bytes_of(number: nat, size: nat) -> Seq<u8>
    decreases size,
{
    if size == 0 {
        Seq::empty()
    } else {
        seq![(number % 256) as u8] + bytes_of(number / 256, (size - 1) as nat)
    }
}

/// The number that bytes stand for, the lowest byte first.
pub open spec fn number_of(bytes: Seq<u8>) -> nat
    decreases bytes.len(),
{
    if bytes.len() == 0 {
        0
    } else {
        bytes[0] as nat + 256 * number_of(bytes.skip(1))
    }
}

/// A length as a record states it.
pub open spec fn stated(len: nat) -> u32 {
    if len <= u32::MAX {
        len as u32
    } else {
        u32::MAX
    }
}

/// The encoded keys one after the other, each behind its length.
pub open spec fn joined(keys: Seq<Seq<u8>>) -> Seq<u8>
    decreases keys.len(),
{
    if keys.len() == 0 {
        Seq::empty()
    } else {
        joined(keys.drop_last()) + bytes_of(stated(keys.last().len()) as nat, 4) + keys.last()
    }
}

/// A frame on the wire: `first_seq(8, little endian) | count(4, little endian)`
/// and per key `len(4, little endian) | bytes`.
pub open spec fn wire(first_seq: u64, keys: Seq<Seq<u8>>) -> Seq<u8> {
    bytes_of(first_seq as nat, 8) + bytes_of(stated(keys.len()) as nat, 4) + joined(keys)
}

/// The length that stands at `offset`.
pub open spec fn len_at(bytes: Seq<u8>, offset: nat) -> nat {
    number_of(bytes.subrange(offset as int, offset as int + 4))
}

/// The `count` keys that stand at `offset`, if the bytes hold them completely.
pub open spec fn keys_at(bytes: Seq<u8>, offset: nat, count: nat) -> Option<Seq<Seq<u8>>>
    decreases count,
{
    if count == 0 {
        Some(Seq::empty())
    } else if offset + 4 > bytes.len() || offset + 4 + len_at(bytes, offset) > bytes.len() {
        None
    } else {
        let end = offset + 4 + len_at(bytes, offset);
        match keys_at(bytes, end, (count - 1) as nat) {
            Some(rest) => Some(seq![bytes.subrange(offset as int + 4, end as int)] + rest),
            None => None,
        }
    }
}

/// The frame that stands at the start of `bytes`.
pub open spec fn parsed(bytes: Seq<u8>) -> Option<(u64, Seq<Seq<u8>>)> {
    if bytes.len() < 12 {
        None
    } else {
        match keys_at(bytes, 12, len_at(bytes, 8)) {
            Some(keys) => Some((number_of(bytes.subrange(0, 8)) as u64, keys)),
            None => None,
        }
    }
}

/// The wire frame: `first_seq` plus the encoded keys of the last N writes,
/// sequential from `first_seq`.
#[derive(Debug)]
pub struct Frame {
    /// The sequence number of the first key.
    pub first_seq: u64,
    /// The encoded keys.
    pub keys: Vec<Vec<u8>>,
}

impl View for Frame {
    type V = (u64, Seq<Seq<u8>>);

    open spec fn view(&self) -> (u64, Seq<Seq<u8>>) {
        (self.first_seq, contents(self.keys@))
    }
}

/// Every write of the frame has a sequence number, and so has the next one.
pub open spec fn countable(frame: (u64, Seq<Seq<u8>>)) -> bool {
    frame.0 + frame.1.len() <= u64::MAX
}

fn len_u32(len: usize) -> (stated_len: u32)
    ensures
        stated_len == stated(len as nat),
{
    if len <= u32::MAX as usize {
        len as u32
    } else {
        u32::MAX
    }
}

/// Appends a number in `size` bytes, the lowest byte first.
fn append_number(out: &mut Vec<u8>, number: u64, size: usize)
    ensures
        final(out)@ == old(out)@ + bytes_of(number as nat, size as nat),
{
    let ghost whole = old(out)@ + bytes_of(number as nat, size as nat);
    let mut rest: u64 = number;
    let mut left: usize = size;
    while left > 0
        invariant
            out@ + bytes_of(rest as nat, left as nat) == whole,
        decreases left,
    {
        let ghost held = out@;
        out.push((rest % 256) as u8);
        proof {
            let after = bytes_of((rest / 256) as nat, (left - 1) as nat);
            assert(held + (seq![(rest % 256) as u8] + after) =~= out@ + after);
        }
        rest = rest / 256;
        left -= 1;
    }
    assert(out@ + Seq::<u8>::empty() =~= out@);
}

/// Reads the number that stands in the `size` bytes at `at`.
fn number_at(bytes: &[u8], at: usize, size: usize) -> (number: u64)
    requires
        size <= 8,
        at + size <= bytes@.len(),
    ensures
        number == number_of(bytes@.subrange(at as int, at + size)),
        number < span(size as nat),
{
    assert(at + size <= bytes.len());
    let end: usize = at + size;
    let mut first: usize = end;
    let mut number: u64 = 0;
    assert(bytes@.subrange(first as int, end as int) =~= Seq::empty());
    while first > at
        invariant
            size <= 8,
            end == at + size,
            at <= first <= end <= bytes@.len(),
            number == number_of(bytes@.subrange(first as int, end as int)),
            number < span((end - first) as nat),
        decreases first,
    {
        let ghost read = bytes@.subrange(first as int, end as int);
        proof {
            lemma_spans_fit((end - first) as nat);
        }
        first -= 1;
        number = bytes[first] as u64 + 256 * number;
        assert(bytes@.subrange(first as int, end as int).skip(1) =~= read);
    }
    number
}

impl Frame {
    /// The frame on the wire.
    #[must_use]
    pub fn encode(&self) -> (bytes: Vec<u8>)
        ensures
            bytes@ == wire(self@.0, self@.1),
    {
        let ghost keys = self@.1;
        let mut out: Vec<u8> = Vec::new();
        append_number(&mut out, self.first_seq, 8);
        append_number(&mut out, len_u32(self.keys.len()) as u64, 4);
        let ghost head = out@;
        let mut i: usize = 0;
        assert(out@ =~= head + joined(keys.take(0)));
        while i < self.keys.len()
            invariant
                keys == contents(self.keys@),
                i <= self.keys@.len(),
                out@ == head + joined(keys.take(i as int)),
            decreases self.keys@.len() - i,
        {
            append_number(&mut out, len_u32(self.keys[i].len()) as u64, 4);
            let mut key: Vec<u8> = slice_to_vec(self.keys[i].as_slice());
            out.append(&mut key);
            proof {
                let next = keys.take(i + 1);
                assert(next.drop_last() =~= keys.take(i as int));
                assert(next.last() == self.keys@[i as int]@);
                assert(out@ =~= head + joined(next));
            }
            i += 1;
        }
        assert(keys.take(i as int) =~= keys);
        assert(out@ =~= wire(self@.0, self@.1));
        out
    }

    /// Reads the frame at the start of `bytes`. A truncated frame is none.
    #[must_use]
    pub fn decode(bytes: &[u8]) -> (frame: Option<Self>)
        ensures
            match frame {
                Some(frame) => parsed(bytes@) == Some(frame@),
                None => parsed(bytes@) is None,
            },
    {
        let total: usize = bytes.len();
        if total < 12 {
            return None;
        }
        let first_seq: u64 = number_at(bytes, 0, 8);
        let count: u64 = number_at(bytes, 8, 4);
        let mut keys: Vec<Vec<u8>> = Vec::new();
        let mut offset: usize = 12;
        let mut left: u64 = count;
        assert(contents(keys@) =~= Seq::empty());
        proof {
            lemma_prefix(Seq::<Seq<u8>>::empty(), keys_at(bytes@, 12, count as nat));
        }
        while left > 0
            invariant
                total == bytes@.len(),
                12 <= offset <= total,
                left <= count,
                count == len_at(bytes@, 8),
                keys_at(bytes@, 12, count as nat) == before(
                    contents(keys@),
                    keys_at(bytes@, offset as nat, left as nat),
                ),
            decreases left,
        {
            let ghost held = keys@;
            let ghost start = offset as nat;
            if total - offset < 4 {
                return None;
            }
            let len: u64 = number_at(bytes, offset, 4);
            if len > (total - offset - 4) as u64 {
                return None;
            }
            let end: usize = offset + 4 + len as usize;
            let key: Vec<u8> = slice_to_vec(&bytes[offset + 4..end]);
            let ghost text = key@;
            keys.push(key);
            proof {
                assert(text =~= bytes@.subrange(start as int + 4, end as int));
                assert(contents(keys@) =~= contents(held).push(text));
                lemma_before(
                    contents(held),
                    text,
                    keys_at(bytes@, end as nat, (left - 1) as nat),
                );
            }
            offset = end;
            left -= 1;
        }
        assert(contents(keys@) + Seq::<Seq<u8>>::empty() =~= contents(keys@));
        Some(Frame { first_seq, keys })
    }

    /// Whether every write of the frame, and the next one, has a sequence
    /// number.
    #[must_use]
    pub fn countable(&self) -> (countable: bool)
        ensures
            countable == self::countable(self@),
    {
        self.keys.len() as u64 <= u64::MAX - self.first_seq
    }

    /// The sequence number of the write that follows the frame.
    #[must_use]
    pub fn end(&self) -> (end: u64)
        requires
            self::countable(self@),
        ensures
            end == self@.0 + self@.1.len(),
    {
        self.first_seq + self.keys.len() as u64
    }
}

/// `keys` followed by the rest, if there is one.
spec fn before(keys: Seq<Seq<u8>>, rest: Option<Seq<Seq<u8>>>) -> Option<Seq<Seq<u8>>> {
    match rest {
        Some(rest) => Some(keys + rest),
        None => None,
    }
}

proof fn lemma_prefix(none: Seq<Seq<u8>>, rest: Option<Seq<Seq<u8>>>)
    requires
        none.len() == 0,
    ensures
        before(none, rest) == rest,
{
    if let Some(keys) = rest {
        assert(none + keys =~= keys);
    }
}

proof fn lemma_before(keys: Seq<Seq<u8>>, key: Seq<u8>, rest: Option<Seq<Seq<u8>>>)
    ensures
        before(keys.push(key), rest) == before(
            keys,
            match rest {
                Some(rest) => Some(seq![key] + rest),
                None => None,
            },
        ),
{
    if let Some(more) = rest {
        assert(keys.push(key) + more =~= keys + (seq![key] + more));
    }
}

proof fn lemma_spans_fit(size: nat)
    requires
        size < 8,
    ensures
        span(size + 1) == 256 * span(size) <= u64::MAX + 1,
{
    reveal_with_fuel(span, 9);
}

proof fn lemma_number_read(number: nat, size: nat)
    requires
        number < span(size),
    ensures
        bytes_of(number, size).len() == size,
        number_of(bytes_of(number, size)) == number,
    decreases size,
{
    if size > 0 {
        lemma_number_read(number / 256, (size - 1) as nat);
        assert(bytes_of(number, size).skip(1) =~= bytes_of(number / 256, (size - 1) as nat));
    }
}

proof fn lemma_number_written(bytes: Seq<u8>)
    ensures
        bytes_of(number_of(bytes), bytes.len()) == bytes,
        number_of(bytes) < span(bytes.len()),
    decreases bytes.len(),
{
    if bytes.len() > 0 {
        lemma_number_written(bytes.skip(1));
        assert(bytes_of(number_of(bytes), bytes.len()) =~= bytes);
    } else {
        assert(bytes_of(number_of(bytes), bytes.len()) =~= bytes);
    }
}

proof fn lemma_length_read(len: u32)
    ensures
        bytes_of(len as nat, 4).len() == 4,
        number_of(bytes_of(len as nat, 4)) == len,
{
    reveal_with_fuel(span, 5);
    lemma_number_read(len as nat, 4);
}

/// Every length in a frame can be stated.
pub open spec fn statable(keys: Seq<Seq<u8>>) -> bool {
    &&& keys.len() <= u32::MAX
    &&& forall|i: int| 0 <= i < keys.len() ==> (#[trigger] keys[i]).len() <= u32::MAX
}

/// A frame reads back from the wire as it was, whatever follows it.
pub proof fn law_frames_round_trip(first_seq: u64, keys: Seq<Seq<u8>>, more: Seq<u8>)
    requires
        statable(keys),
    ensures
        parsed(wire(first_seq, keys) + more) == Some((first_seq, keys)),
{
    let bytes = wire(first_seq, keys) + more;
    lemma_head(first_seq, keys);
    assert(bytes.subrange(0, 8) =~= bytes_of(first_seq as nat, 8));
    assert(bytes.subrange(8, 12) =~= bytes_of(stated(keys.len()) as nat, 4));
    assert(bytes.subrange(12, 12 + joined(keys).len() as int) =~= joined(keys));
    lemma_keys_read(bytes, 12, keys);
}

/// A frame that was cut short is rejected, wherever the cut is.
pub proof fn law_truncated_frames_are_rejected(first_seq: u64, keys: Seq<Seq<u8>>, cut: nat)
    requires
        statable(keys),
        cut < wire(first_seq, keys).len(),
    ensures
        parsed(wire(first_seq, keys).take(cut as int)) is None,
{
    let whole = wire(first_seq, keys);
    let bytes = whole.take(cut as int);
    lemma_head(first_seq, keys);
    if cut >= 12 {
        assert(bytes.subrange(8, 12) =~= bytes_of(stated(keys.len()) as nat, 4));
        assert(whole.subrange(12, 12 + joined(keys).len() as int) =~= joined(keys));
        lemma_keys_cut(whole, 12, keys, cut);
    }
}

/// What a frame reads as goes back to the wire as the bytes that it was read
/// from: nothing in them is passed over, and one sequence of bytes is the only
/// way to write a frame.
pub proof fn law_frames_are_read_from_their_own_bytes(bytes: Seq<u8>)
    ensures
        match parsed(bytes) {
            Some((first_seq, keys)) => {
                &&& statable(keys)
                &&& wire(first_seq, keys).is_prefix_of(bytes)
            },
            None => true,
        },
{
    if let Some((first_seq, keys)) = parsed(bytes) {
        let count = len_at(bytes, 8);
        reveal_with_fuel(span, 9);
        lemma_number_written(bytes.subrange(0, 8));
        lemma_number_written(bytes.subrange(8, 12));
        lemma_keys_written(bytes, 12, count);
        assert(bytes_of(first_seq as nat, 8) == bytes.subrange(0, 8));
        assert(bytes_of(stated(keys.len()) as nat, 4) == bytes.subrange(8, 12));
        let whole = wire(first_seq, keys);
        assert(whole =~= bytes.take(whole.len() as int));
    }
}

proof fn lemma_keys_written(bytes: Seq<u8>, offset: nat, count: nat)
    requires
        offset <= bytes.len(),
    ensures
        match keys_at(bytes, offset, count) {
            Some(keys) => {
                &&& keys.len() == count
                &&& forall|i: int| 0 <= i < keys.len() ==> (#[trigger] keys[i]).len() <= u32::MAX
                &&& offset + joined(keys).len() <= bytes.len()
                &&& bytes.subrange(offset as int, (offset + joined(keys).len()) as int) == joined(
                    keys,
                )
            },
            None => true,
        },
    decreases count,
{
    if let Some(keys) = keys_at(bytes, offset, count) {
        if count > 0 {
            let len = len_at(bytes, offset);
            let end = offset + 4 + len;
            let rest = keys_at(bytes, end, (count - 1) as nat)->0;
            let key = bytes.subrange(offset as int + 4, end as int);
            reveal_with_fuel(span, 5);
            lemma_number_written(bytes.subrange(offset as int, offset as int + 4));
            lemma_keys_written(bytes, end, (count - 1) as nat);
            lemma_joined_front(key, rest);
            assert(keys == seq![key] + rest);
            assert(bytes.subrange(offset as int, (offset + joined(keys).len()) as int) =~= joined(
                keys,
            ));
        } else {
            assert(bytes.subrange(offset as int, offset as int) =~= Seq::empty());
        }
    }
}

proof fn lemma_head(first_seq: u64, keys: Seq<Seq<u8>>)
    ensures
        wire(first_seq, keys).len() == 12 + joined(keys).len(),
        bytes_of(first_seq as nat, 8).len() == 8,
        number_of(bytes_of(first_seq as nat, 8)) == first_seq,
        bytes_of(stated(keys.len()) as nat, 4).len() == 4,
        number_of(bytes_of(stated(keys.len()) as nat, 4)) == stated(keys.len()),
{
    reveal_with_fuel(span, 9);
    lemma_number_read(first_seq as nat, 8);
    lemma_length_read(stated(keys.len()));
}

proof fn lemma_joined_front(key: Seq<u8>, rest: Seq<Seq<u8>>)
    ensures
        joined(seq![key] + rest) == bytes_of(stated(key.len()) as nat, 4) + key + joined(rest),
    decreases rest.len(),
{
    let keys = seq![key] + rest;
    reveal_with_fuel(joined, 2);
    if rest.len() == 0 {
        assert(keys.drop_last() =~= Seq::<Seq<u8>>::empty());
        assert(joined(keys) =~= bytes_of(stated(key.len()) as nat, 4) + key + joined(rest));
    } else {
        assert(keys.drop_last() =~= seq![key] + rest.drop_last());
        assert(keys.last() == rest.last());
        lemma_joined_front(key, rest.drop_last());
        assert(joined(keys) =~= bytes_of(stated(key.len()) as nat, 4) + key + joined(rest));
    }
}

proof fn lemma_first_key(bytes: Seq<u8>, offset: nat, keys: Seq<Seq<u8>>)
    requires
        keys.len() > 0,
        statable(keys),
        offset + joined(keys).len() <= bytes.len(),
        bytes.subrange(offset as int, (offset + joined(keys).len()) as int) == joined(keys),
    ensures
        joined(keys).len() == 4 + keys[0].len() + joined(keys.skip(1)).len(),
        len_at(bytes, offset) == keys[0].len(),
        bytes.subrange(offset as int + 4, (offset + 4 + keys[0].len()) as int) == keys[0],
        bytes.subrange(
            (offset + 4 + keys[0].len()) as int,
            (offset + joined(keys).len()) as int,
        ) == joined(keys.skip(1)),
        statable(keys.skip(1)),
{
    let key = keys[0];
    let rest = keys.skip(1);
    let len = bytes_of(stated(key.len()) as nat, 4);
    assert(keys =~= seq![key] + rest);
    lemma_joined_front(key, rest);
    lemma_length_read(stated(key.len()));
    let all = joined(keys);
    assert(all.subrange(0, 4) =~= len);
    assert(all.subrange(4, (4 + key.len()) as int) =~= key);
    assert(all.subrange((4 + key.len()) as int, all.len() as int) =~= joined(rest));
    assert(bytes.subrange(offset as int, offset as int + 4) =~= all.subrange(0, 4));
    assert(bytes.subrange(offset as int + 4, (offset + 4 + key.len()) as int) =~= all.subrange(
        4,
        (4 + key.len()) as int,
    ));
    assert(bytes.subrange((offset + 4 + key.len()) as int, (offset + all.len()) as int)
        =~= all.subrange((4 + key.len()) as int, all.len() as int));
}

proof fn lemma_keys_read(bytes: Seq<u8>, offset: nat, keys: Seq<Seq<u8>>)
    requires
        statable(keys),
        offset + joined(keys).len() <= bytes.len(),
        bytes.subrange(offset as int, (offset + joined(keys).len()) as int) == joined(keys),
    ensures
        keys_at(bytes, offset, keys.len()) == Some(keys),
    decreases keys.len(),
{
    if keys.len() > 0 {
        lemma_first_key(bytes, offset, keys);
        lemma_keys_read(bytes, offset + 4 + keys[0].len(), keys.skip(1));
        assert(keys =~= seq![keys[0]] + keys.skip(1));
    } else {
        assert(keys =~= Seq::empty());
    }
}

proof fn lemma_keys_cut(whole: Seq<u8>, offset: nat, keys: Seq<Seq<u8>>, cut: nat)
    requires
        statable(keys),
        offset + joined(keys).len() <= whole.len(),
        whole.subrange(offset as int, (offset + joined(keys).len()) as int) == joined(keys),
        offset <= cut < offset + joined(keys).len(),
    ensures
        keys_at(whole.take(cut as int), offset, keys.len()) is None,
    decreases keys.len(),
{
    let bytes = whole.take(cut as int);
    if keys.len() > 0 {
        lemma_first_key(whole, offset, keys);
        if offset + 4 <= cut {
            assert(bytes.subrange(offset as int, offset as int + 4) =~= whole.subrange(
                offset as int,
                offset as int + 4,
            ));
            let end = offset + 4 + keys[0].len();
            if end <= cut {
                lemma_keys_cut(whole, end, keys.skip(1), cut);
            }
        }
    }
}

/// A ring of at most `capacity` writes once `key` was recorded.
pub open spec fn pushed(ring: (u64, Seq<Seq<u8>>), capacity: nat, key: Seq<u8>) -> (
    u64,
    Seq<Seq<u8>>,
) {
    let keys = ring.1.push(key);
    if keys.len() > capacity {
        ((ring.0 + 1) as u64, keys.skip(1))
    } else {
        (ring.0, keys)
    }
}

/// Ring of the last N encoded writes; recording keeps `first_seq` equal to the
/// sequence number of the front element.
#[derive(Debug)]
pub struct Ring {
    /// The sequence number of the front element.
    pub first_seq: u64,
    /// The encoded writes, oldest first.
    pub keys: VecDeque<Vec<u8>>,
    /// How many writes are remembered.
    pub capacity: usize,
}

impl View for Ring {
    type V = (u64, Seq<Seq<u8>>);

    open spec fn view(&self) -> (u64, Seq<Seq<u8>>) {
        (self.first_seq, contents(self.keys@))
    }
}

impl Ring {
    /// Records a write, forgetting the oldest one if the ring is full.
    pub fn push(&mut self, key: Vec<u8>)
        requires
            old(self).keys@.len() >= old(self).capacity ==> old(self).first_seq < u64::MAX,
        ensures
            final(self)@ == pushed(old(self)@, old(self).capacity as nat, key@),
            final(self).capacity == old(self).capacity,
    {
        let ghost held = self.keys@;
        let ghost text = key@;
        self.keys.push_back(key);
        assert(contents(self.keys@) =~= contents(held).push(text));
        if self.keys.len() > self.capacity {
            let ghost grown = self.keys@;
            let _oldest = self.keys.pop_front();
            assert(contents(self.keys@) =~= contents(grown).skip(1));
            self.first_seq += 1;
        }
    }

    /// The ring as a frame.
    #[must_use]
    pub fn frame(&self) -> (frame: Frame)
        ensures
            frame@ == self@,
    {
        let mut keys: Vec<Vec<u8>> = Vec::with_capacity(self.keys.len());
        let ghost all = self@.1;
        let mut i: usize = 0;
        assert(contents(keys@) =~= all.take(0));
        while i < self.keys.len()
            invariant
                i <= self.keys@.len(),
                all == contents(self.keys@),
                contents(keys@) == all.take(i as int),
            decreases self.keys@.len() - i,
        {
            let ghost held = keys@;
            let key: Vec<u8> = slice_to_vec(self.keys[i].as_slice());
            let ghost text = key@;
            keys.push(key);
            assert(contents(keys@) =~= contents(held).push(text));
            assert(all.take(i + 1) =~= all.take(i as int).push(all[i as int]));
            i += 1;
        }
        assert(all.take(i as int) =~= all);
        Frame { first_seq: self.first_seq, keys }
    }
}

/// Publisher half: records this node's writes and frames them for the group.
///
/// Call [`WriteFeed::publish`] after every local durable write and advertise
/// what it returns. A dropped advertisement is carried again by the next
/// publish (the ring is state, not a log).
#[derive(Debug)]
pub struct WriteFeed<E> {
    ring: Ring,
    encode: E,
}

impl<E> View for WriteFeed<E> {
    type V = (u64, Seq<Seq<u8>>);

    closed spec fn view(&self) -> (u64, Seq<Seq<u8>>) {
        self.ring@
    }
}

impl<E> WriteFeed<E> {
    /// How many writes the feed remembers.
    pub closed spec fn capacity(&self) -> nat {
        self.ring.capacity as nat
    }

    /// The key codec.
    pub closed spec fn encoder(&self) -> E {
        self.encode
    }

    /// Creates a feed that remembers the last `capacity` writes.
    ///
    /// Size `capacity` for the write rate: peers that fall further behind than
    /// the ring holds receive a [`PeerWrite::Resync`] instead of the individual
    /// keys.
    pub fn new(capacity: usize, encode: E) -> (feed: Self)
        requires
            capacity > 0,
        ensures
            feed@ == (1u64, Seq::<Seq<u8>>::empty()),
            feed.capacity() == capacity,
            feed.encoder() == encode,
    {
        let ring = Ring { first_seq: 1, keys: VecDeque::new(), capacity };
        assert(ring@.1 =~= Seq::<Seq<u8>>::empty());
        WriteFeed { ring, encode }
    }

    /// Whether the next write has a sequence number, and the one after it.
    #[must_use]
    pub fn has_room(&self) -> (room: bool)
        ensures
            room == countable(self@),
    {
        self.ring.keys.len() as u64 <= u64::MAX - self.ring.first_seq
    }

    /// Records `key` as written. Returns the write's sequence number in this
    /// node's feed, the second half of a `(writer, seq)` read-your-writes
    /// token, and the frame to advertise.
    pub fn publish<K>(&mut self, key: &K) -> (published: (u64, Vec<u8>)) where
        E: Fn(&K) -> Vec<u8>,

        requires
            old(self).capacity() > 0,
            countable(old(self)@),
            call_requires(old(self).encoder(), (key,)),
        ensures
            final(self).capacity() == old(self).capacity(),
            final(self).encoder() == old(self).encoder(),
            published.0 == old(self)@.0 + old(self)@.1.len(),
            exists|encoded: Vec<u8>| #[trigger]
                call_ensures(old(self).encoder(), (key,), encoded) && final(self)@ == pushed(
                    old(self)@,
                    old(self).capacity(),
                    encoded@,
                ),
            published.1@ == wire(final(self)@.0, final(self)@.1),
    {
        let seq: u64 = self.ring.first_seq + self.ring.keys.len() as u64;
        let encoded: Vec<u8> = (self.encode)(key);
        self.ring.push(encoded);
        (seq, self.ring.frame().encode())
    }

    /// The frame to advertise again, without recording a new write: useful at
    /// quiescence points after an advertisement was dropped.
    #[must_use]
    pub fn republish(&self) -> (frame: Vec<u8>)
        ensures
            frame@ == wire(self@.0, self@.1),
    {
        self.ring.frame().encode()
    }
}

/// The attempts that are left for advertising one frame.
#[derive(Debug)]
pub struct Attempts {
    left: usize,
}

impl View for Attempts {
    type V = nat;

    closed spec fn view(&self) -> nat {
        self.left as nat
    }
}

impl Attempts {
    /// All attempts are left.
    #[must_use]
    pub fn new() -> (attempts: Self)
        ensures
            attempts@ == PUBLISH_RETRIES,
    {
        Attempts { left: PUBLISH_RETRIES }
    }

    /// Takes one attempt. Once none is left the frame is given up: the ring
    /// carries its write again on the next publish.
    pub fn take(&mut self) -> (granted: bool)
        ensures
            granted == (old(self)@ > 0),
            final(self)@ == if old(self)@ > 0 {
                old(self)@ - 1
            } else {
                0
            },
    {
        if self.left > 0 {
            self.left -= 1;
            true
        } else {
            false
        }
    }
}

/// One peer-write notification.
#[derive(Debug, Clone, PartialEq, Eq)]
pub enum PeerWrite<K> {
    /// `peer` wrote `key`; local copies are stale and should be dropped.
    Invalidate {
        /// The node that performed the write.
        peer: String,
        /// The write's sequence number in `peer`'s feed: advance the
        /// [`Frontier`] with it once the invalidation is applied.
        seq: u64,
        /// The written key.
        key: K,
    },
    /// `peer`'s feed advanced past this subscriber's cursor: some writes were
    /// provably missed. The application should flush or rebuild its local
    /// tiers, then advance the [`Frontier`] to `applied_through`.
    Resync {
        /// The node whose writes were missed.
        peer: String,
        /// After flushing, every write of `peer` up to and including this
        /// sequence number is covered.
        applied_through: u64,
    },
}

/// A [`PeerWrite`] as a mathematical value.
pub enum Note<K> {
    /// `peer` wrote `key`.
    Invalidate {
        /// The node that performed the write.
        peer: Seq<char>,
        /// The write's sequence number.
        seq: u64,
        /// The written key.
        key: K,
    },
    /// Writes of `peer` were missed.
    Resync {
        /// The node whose writes were missed.
        peer: Seq<char>,
        /// The last sequence number that a flush covers.
        applied_through: u64,
    },
}

impl<K> View for PeerWrite<K> {
    type V = Note<K>;

    open spec fn view(&self) -> Note<K> {
        match *self {
            PeerWrite::Invalidate { peer, seq, key } => Note::Invalidate { peer: peer@, seq, key },
            PeerWrite::Resync { peer, applied_through } => Note::Resync {
                peer: peer@,
                applied_through,
            },
        }
    }
}

/// Notifications as mathematical values.
pub open spec fn notes<K>(writes: Seq<PeerWrite<K>>) -> Seq<Note<K>> {
    writes.map_values(|write: PeerWrite<K>| write@)
}

/// What a subscriber knows.
#[verifier::ext_equal]
pub struct Follow<K> {
    /// The next unseen sequence number per peer feed.
    pub cursors: Map<Seq<char>, u64>,
    /// Notifications that were not handed out yet, oldest first.
    pub pending: Seq<Note<K>>,
}

/// The sequence number from which a peer's writes are new.
pub open spec fn cursor_of<K>(
    state: Follow<K>,
    peer: Seq<char>,
    frame: (u64, Seq<Seq<u8>>),
) -> u64 {
    if state.cursors.contains_key(peer) {
        state.cursors[peer]
    } else {
        frame.0
    }
}

/// The first sequence number at `cursor` or later that the frame holds.
pub open spec fn resumed(cursor: u64, frame: (u64, Seq<Seq<u8>>)) -> u64 {
    if cursor < frame.0 {
        frame.0
    } else {
        cursor
    }
}

/// The writes of a frame that are new at `cursor`.
pub open spec fn due(cursor: u64, frame: (u64, Seq<Seq<u8>>)) -> Seq<Seq<u8>> {
    let from = resumed(cursor, frame) - frame.0;
    if from <= frame.1.len() {
        frame.1.skip(from)
    } else {
        Seq::empty()
    }
}

/// Invalidations for the writes that decoded, numbered from `from`.
pub open spec fn invalidations<K>(peer: Seq<char>, from: u64, keys: Seq<Option<K>>) -> Seq<Note<K>>
    decreases keys.len(),
{
    if keys.len() == 0 {
        Seq::empty()
    } else {
        let front = invalidations(peer, from, keys.drop_last());
        match keys.last() {
            Some(key) => front.push(
                Note::Invalidate { peer, seq: (from + keys.len() - 1) as u64, key },
            ),
            None => front,
        }
    }
}

/// The notifications that a frame leads to at `cursor`, given what the keys of
/// the new writes decoded to.
pub open spec fn reconciled<K>(
    peer: Seq<char>,
    cursor: u64,
    frame: (u64, Seq<Seq<u8>>),
    keys: Seq<Option<K>>,
) -> Seq<Note<K>> {
    let missed = if cursor < frame.0 {
        seq![Note::Resync { peer, applied_through: (frame.0 - 1) as u64 }]
    } else {
        Seq::empty()
    };
    missed + invalidations(peer, resumed(cursor, frame), keys)
}

/// What the subscriber knows after it looked at a peer's entry.
pub open spec fn followed<K>(
    state: Follow<K>,
    peer: Seq<char>,
    entry: Option<Seq<u8>>,
    keys: Seq<Option<K>>,
) -> Follow<K> {
    match framed(entry) {
        Some(frame) => {
            let cursor = cursor_of(state, peer, frame);
            Follow {
                cursors: state.cursors.insert(
                    peer,
                    (resumed(cursor, frame) + due(cursor, frame).len()) as u64,
                ),
                pending: state.pending + reconciled(peer, cursor, frame, keys),
            }
        },
        None => state,
    }
}

/// The frame in an entry, if there is an entry and it holds one.
pub open spec fn framed(entry: Option<Seq<u8>>) -> Option<(u64, Seq<Seq<u8>>)> {
    match entry {
        Some(bytes) => parsed(bytes),
        None => None,
    }
}

/// `answer` is what `decode` may say of `bytes`.
pub open spec fn decodes<K, D: Fn(&[u8]) -> Option<K>>(
    decode: D,
    bytes: Seq<u8>,
    answer: Option<K>,
) -> bool {
    exists|slice: &[u8]| slice@ == bytes && #[trigger] call_ensures(decode, (slice,), answer)
}

/// `keys` is what `decode` may say of the new writes in a peer's entry.
pub open spec fn decoded<K, D: Fn(&[u8]) -> Option<K>>(
    decode: D,
    state: Follow<K>,
    peer: Seq<char>,
    entry: Option<Seq<u8>>,
    keys: Seq<Option<K>>,
) -> bool {
    match framed(entry) {
        Some(frame) => {
            let fresh = due(cursor_of(state, peer, frame), frame);
            &&& keys.len() == fresh.len()
            &&& forall|i: int|
                0 <= i < keys.len() ==> decodes(decode, fresh[i], #[trigger] keys[i])
        },
        None => keys.len() == 0,
    }
}

/// An entry whose frame, if it holds one, can be numbered.
pub open spec fn orderly(entry: Option<Seq<u8>>) -> bool {
    match framed(entry) {
        Some(frame) => countable(frame),
        None => true,
    }
}

/// A peer's entry as a mathematical value.
pub open spec fn entry_of(entry: Option<Vec<u8>>) -> Option<Seq<u8>> {
    match entry {
        Some(bytes) => Some(bytes@),
        None => None,
    }
}

/// Subscriber half: turns peers' feed changes into [`PeerWrite`] events.
///
/// Lag of the event stream is handled by reading the always-current entries
/// again, so no write is ever silently skipped.
pub struct PeerWrites<K, D> {
    me: String,
    cursors: Table<u64>,
    pending: VecDeque<PeerWrite<K>>,
    decode: D,
}

impl<K, D> View for PeerWrites<K, D> {
    type V = Follow<K>;

    closed spec fn view(&self) -> Follow<K> {
        Follow { cursors: self.cursors@, pending: notes(self.pending@) }
    }
}

impl<K, D> PeerWrites<K, D> where D: Fn(&[u8]) -> Option<K> {
    /// Every entry can be handed to the decoder.
    pub closed spec fn wf(&self) -> bool {
        &&& self.cursors.wf()
        &&& forall|bytes: &[u8]| #[trigger] call_requires(self.decode, (bytes,))
    }

    /// This node.
    pub closed spec fn node(&self) -> Seq<char> {
        self.me@
    }

    /// The key codec.
    pub closed spec fn decoder(&self) -> D {
        self.decode
    }

    /// The next notification that is waiting.
    pub fn next(&mut self) -> (write: Option<PeerWrite<K>>)
        requires
            old(self).wf(),
        ensures
            final(self).wf(),
            final(self).node() == old(self).node(),
            final(self).decoder() == old(self).decoder(),
            final(self)@.cursors == old(self)@.cursors,
            match write {
                Some(write) => {
                    &&& old(self)@.pending.len() > 0
                    &&& write@ == old(self)@.pending[0]
                    &&& final(self)@.pending == old(self)@.pending.skip(1)
                },
                None => old(self)@.pending.len() == 0 && final(self)@.pending.len() == 0,
            },
    {
        let ghost held = self.pending@;
        let write = self.pending.pop_front();
        proof {
            if write is Some {
                assert(notes(self.pending@) =~= notes(held).skip(1));
            }
        }
        write
    }

    /// Reconciles one peer's feed against our cursor, queueing events.
    pub fn scan(&mut self, peer: &String, entry: &Option<Vec<u8>>)
        requires
            old(self).wf(),
            orderly(entry_of(*entry)),
        ensures
            final(self).wf(),
            final(self).node() == old(self).node(),
            final(self).decoder() == old(self).decoder(),
            exists|keys: Seq<Option<K>>| #[trigger]
                decoded(old(self).decoder(), old(self)@, peer@, entry_of(*entry), keys)
                    && final(self)@ == followed(old(self)@, peer@, entry_of(*entry), keys),
    {
        let ghost start = *self;
        let ghost said: Seq<Option<K>> = Seq::empty();
        let Some(bytes) = entry else {
            assert(decoded(start.decoder(), start@, peer@, entry_of(*entry), said));
            return;
        };
        let Some(frame) = Frame::decode(bytes.as_slice()) else {
            assert(decoded(start.decoder(), start@, peer@, entry_of(*entry), said));
            return;
        };
        let mut cursor: u64 = match self.cursors.get(peer) {
            Some(cursor) => *cursor,
            None => frame.first_seq,
        };
        let ghost first = cursor;
        if cursor < frame.first_seq {
            // The ring advanced past us: writes were provably missed.
            let missed = PeerWrite::Resync {
                peer: peer.clone(),
                applied_through: frame.first_seq - 1,
            };
            let ghost note = missed@;
            let ghost held = self.pending@;
            self.pending.push_back(missed);
            assert(notes(self.pending@) =~= notes(held).push(note));
            cursor = frame.first_seq;
        }
        let end: u64 = frame.end();
        let ghost from = cursor;
        let ghost fresh = due(first, frame@);
        let ghost mut keys: Seq<Option<K>> = Seq::empty();
        proof {
            assert(notes(self.pending@) =~= start@.pending + reconciled(
                peer@,
                first,
                frame@,
                keys,
            ));
            assert(fresh.len() == if from <= end {
                (end - from) as nat
            } else {
                0
            });
        }
        while cursor < end
            invariant
                self.wf(),
                self.me == start.me,
                self.cursors == start.cursors,
                self.decode == start.decode,
                end == frame@.0 + frame@.1.len(),
                fresh == due(first, frame@),
                from == resumed(first, frame@),
                from <= end ==> cursor <= end && fresh.len() == end - from,
                from > end ==> cursor == from,
                from <= cursor,
                keys.len() == cursor - from,
                forall|i: int|
                    0 <= i < keys.len() ==> decodes(start.decode, fresh[i], #[trigger] keys[i]),
                notes(self.pending@) == start@.pending + reconciled(peer@, first, frame@, keys),
            decreases end - cursor,
        {
            let index: usize = (cursor - frame.first_seq) as usize;
            let ghost old_keys = keys;
            let key: Option<K> = (self.decode)(frame.keys[index].as_slice());
            let ghost answer = key;
            proof {
                assert(fresh[cursor - from] == frame@.1[index as int]);
                assert(frame@.1[index as int] == frame.keys@[index as int]@);
                assert(decodes(start.decode, fresh[cursor - from], answer));
                keys = keys.push(answer);
                assert(keys.drop_last() =~= old_keys);
            }
            let ghost held = self.pending@;
            if let Some(key) = key {
                let write = PeerWrite::Invalidate { peer: peer.clone(), seq: cursor, key };
                let ghost note = write@;
                self.pending.push_back(write);
                assert(notes(self.pending@) =~= notes(held).push(note));
            }
            assert(notes(self.pending@) =~= start@.pending + reconciled(
                peer@,
                first,
                frame@,
                keys,
            ));
            cursor += 1;
        }
        let _previous = self.cursors.insert(peer.clone(), cursor);
        proof {
            assert(decoded(start.decoder(), start@, peer@, entry_of(*entry), keys));
            assert(self@ =~= followed(start@, peer@, entry_of(*entry), keys));
        }
    }
}

/// A member of the group with its feed entry, as mathematical values.
pub open spec fn members_of(members: Seq<(String, Option<Vec<u8>>)>) -> Seq<
    (Seq<char>, Option<Seq<u8>>),
> {
    members.map_values(|member: (String, Option<Vec<u8>>)| (member.0@, entry_of(member.1)))
}

/// The cursors of a subscriber that starts with these members: the current end
/// of each peer's feed.
pub open spec fn started(me: Seq<char>, members: Seq<(Seq<char>, Option<Seq<u8>>)>) -> Map<
    Seq<char>,
    u64,
>
    decreases members.len(),
{
    if members.len() == 0 {
        Map::empty()
    } else {
        let front = started(me, members.drop_last());
        let (peer, entry) = members.last();
        match framed(entry) {
            Some(frame) => if peer == me {
                front
            } else {
                front.insert(peer, (frame.0 + frame.1.len()) as u64)
            },
            None => front,
        }
    }
}

/// What the subscriber knows after it looked at every peer's entry, given what
/// the keys of the new writes decoded to.
pub open spec fn swept<K>(
    me: Seq<char>,
    state: Follow<K>,
    members: Seq<(Seq<char>, Option<Seq<u8>>)>,
    keys: Seq<Seq<Option<K>>>,
) -> Follow<K>
    decreases members.len(),
{
    if members.len() == 0 {
        state
    } else {
        let front = swept(me, state, members.drop_last(), keys.drop_last());
        let (peer, entry) = members.last();
        if peer == me {
            front
        } else {
            followed(front, peer, entry, keys.last())
        }
    }
}

/// `keys` is what `decode` may say of the new writes of every peer.
pub open spec fn decoded_all<K, D: Fn(&[u8]) -> Option<K>>(
    decode: D,
    me: Seq<char>,
    state: Follow<K>,
    members: Seq<(Seq<char>, Option<Seq<u8>>)>,
    keys: Seq<Seq<Option<K>>>,
) -> bool
    decreases members.len(),
{
    &&& keys.len() == members.len()
    &&& members.len() > 0 ==> {
        let front = swept(me, state, members.drop_last(), keys.drop_last());
        let (peer, entry) = members.last();
        &&& decoded_all(decode, me, state, members.drop_last(), keys.drop_last())
        &&& peer != me ==> decoded(decode, front, peer, entry, keys.last())
    }
}

/// Something that happened in the group.
#[derive(Debug)]
pub enum FeedEvent {
    /// An entry of a node changed.
    NodeStateChanged {
        /// The node.
        node: String,
        /// The entry's key.
        key: String,
    },
    /// The members changed.
    MembershipChanged,
    /// Events were lost.
    Lagged,
    /// Anything else.
    Other,
    /// The group is gone.
    Closed,
}

/// What an event asks of a subscriber.
#[derive(Debug)]
pub enum Reaction {
    /// Scan this peer's entry.
    Scan(String),
    /// Scan the entries of all members.
    ScanAll,
    /// Nothing.
    Wait,
    /// Stop: there will be no more events.
    End,
}

impl<K, D> PeerWrites<K, D> where D: Fn(&[u8]) -> Option<K> {
    /// Subscribes to peer writes. `me` is this node (its own feed is ignored);
    /// `members` are the current feed entries. Existing peer feeds start at
    /// their current end: history is not replayed.
    pub fn new(me: String, members: &[(String, Option<Vec<u8>>)], decode: D) -> (peers: Self)
        requires
            forall|i: int|
                0 <= i < members@.len() ==> orderly((#[trigger] members_of(members@)[i]).1),
            forall|bytes: &[u8]| #[trigger] call_requires(decode, (bytes,)),
        ensures
            peers.wf(),
            peers.node() == me@,
            peers.decoder() == decode,
            peers@.cursors == started(me@, members_of(members@)),
            peers@.pending == Seq::<Note<K>>::empty(),
    {
        let ghost all = members_of(members@);
        let mut cursors: Table<u64> = Table::new();
        let mut i: usize = 0;
        while i < members.len()
            invariant
                all == members_of(members@),
                forall|i: int| 0 <= i < members@.len() ==> orderly((#[trigger] all[i]).1),
                i <= members@.len(),
                cursors.wf(),
                cursors@ == started(me@, all.take(i as int)),
            decreases members@.len() - i,
        {
            proof {
                let next = all.take(i + 1);
                assert(next.drop_last() =~= all.take(i as int));
                assert(next.last() == all[i as int]);
                assert(orderly(all[i as int].1));
            }
            if members[i].0 != me {
                if let Some(bytes) = &members[i].1 {
                    if let Some(frame) = Frame::decode(bytes.as_slice()) {
                        let _previous = cursors.insert(members[i].0.clone(), frame.end());
                    }
                }
            }
            i += 1;
        }
        assert(all.take(i as int) =~= all);
        let peers = PeerWrites { me, cursors, pending: VecDeque::new(), decode };
        assert(peers@.pending =~= Seq::<Note<K>>::empty());
        peers
    }

    /// Reconciles the feeds of all members but this node.
    pub fn scan_all(&mut self, members: &[(String, Option<Vec<u8>>)])
        requires
            old(self).wf(),
            forall|i: int|
                0 <= i < members@.len() ==> orderly((#[trigger] members_of(members@)[i]).1),
        ensures
            final(self).wf(),
            final(self).node() == old(self).node(),
            final(self).decoder() == old(self).decoder(),
            exists|keys: Seq<Seq<Option<K>>>| #[trigger]
                decoded_all(
                    old(self).decoder(),
                    old(self).node(),
                    old(self)@,
                    members_of(members@),
                    keys,
                ) && final(self)@ == swept(
                    old(self).node(),
                    old(self)@,
                    members_of(members@),
                    keys,
                ),
    {
        let ghost start = *self;
        let ghost all = members_of(members@);
        let ghost mut keys: Seq<Seq<Option<K>>> = Seq::empty();
        let mut i: usize = 0;
        while i < members.len()
            invariant
                all == members_of(members@),
                forall|i: int| 0 <= i < members@.len() ==> orderly((#[trigger] all[i]).1),
                i <= members@.len(),
                self.wf(),
                self.node() == start.node(),
                self.decoder() == start.decoder(),
                decoded_all(start.decoder(), start.node(), start@, all.take(i as int), keys),
                self@ == swept(start.node(), start@, all.take(i as int), keys),
            decreases members@.len() - i,
        {
            let ghost held = self@;
            let ghost prior = keys;
            proof {
                assert(orderly(all[i as int].1));
                assert(all.take(i + 1).drop_last() =~= all.take(i as int));
            }
            if members[i].0 != self.me {
                self.scan(&members[i].0, &members[i].1);
                proof {
                    let said = choose|said: Seq<Option<K>>| #[trigger]
                        decoded(start.decoder(), held, all[i as int].0, all[i as int].1, said)
                            && self@ == followed(held, all[i as int].0, all[i as int].1, said);
                    keys = keys.push(said);
                }
            } else {
                proof {
                    keys = keys.push(Seq::empty());
                }
            }
            assert(keys.drop_last() =~= prior);
            i += 1;
        }
        assert(all.take(i as int) =~= all);
    }

    /// What an event asks of this subscriber.
    ///
    /// Lag means missed edge triggers, never missed state: the entries are
    /// current, so a full scan recovers.
    pub fn react(&self, event: FeedEvent) -> (reaction: Reaction)
        ensures
            reaction == match event {
                FeedEvent::NodeStateChanged { node, key } => if key@ == ENTRY_KEY@ && node@
                    != self.node() {
                    Reaction::Scan(node)
                } else {
                    Reaction::Wait
                },
                FeedEvent::MembershipChanged => Reaction::ScanAll,
                FeedEvent::Lagged => Reaction::ScanAll,
                FeedEvent::Other => Reaction::Wait,
                FeedEvent::Closed => Reaction::End,
            },
    {
        match event {
            FeedEvent::NodeStateChanged { node, key } => {
                if key == ENTRY_KEY.to_owned() && node != self.me {
                    Reaction::Scan(node)
                } else {
                    Reaction::Wait
                }
            },
            FeedEvent::MembershipChanged => Reaction::ScanAll,
            FeedEvent::Lagged => Reaction::ScanAll,
            FeedEvent::Other => Reaction::Wait,
            FeedEvent::Closed => Reaction::End,
        }
    }
}

/// The watermarks once `peer` was applied through `seq`.
pub open spec fn applied(marks: Map<Seq<char>, u64>, peer: Seq<char>, seq: u64) -> Map<
    Seq<char>,
    u64,
> {
    let mark = if marks.contains_key(peer) {
        marks[peer]
    } else {
        0
    };
    marks.insert(
        peer,
        if mark < seq {
            seq
        } else {
            mark
        },
    )
}

/// Whether `peer`'s writes through `seq` have been applied.
pub open spec fn covers(marks: Map<Seq<char>, u64>, peer: Seq<char>, seq: u64) -> bool {
    marks.contains_key(peer) && marks[peer] >= seq
}

/// The writer half of the applied-write frontier.
///
/// The apply loop calls [`Frontier::advance`] after each peer write has
/// actually been applied (invalidation done, or resync flush finished).
/// Barriers on the matching [`FrontierView`] then mean *applied*, not merely
/// delivered.
pub struct Frontier {
    marks: Table<u64>,
}

/// The reader half, for wherever reads need a read-your-writes barrier.
pub struct FrontierView<'a> {
    marks: &'a Table<u64>,
}

impl View for Frontier {
    type V = Map<Seq<char>, u64>;

    closed spec fn view(&self) -> Map<Seq<char>, u64> {
        self.marks@
    }
}

impl<'a> View for FrontierView<'a> {
    type V = Map<Seq<char>, u64>;

    closed spec fn view(&self) -> Map<Seq<char>, u64> {
        self.marks@
    }
}

impl Frontier {
    /// Each peer has one watermark.
    #[verifier::type_invariant]
    closed spec fn wf(self) -> bool {
        self.marks.wf()
    }

    /// A fresh frontier: nothing was applied.
    #[must_use]
    pub fn new() -> (frontier: Self)
        ensures
            frontier@ == Map::<Seq<char>, u64>::empty(),
    {
        Frontier { marks: Table::new() }
    }

    /// The reader half.
    #[must_use]
    pub fn reader(&self) -> (view: FrontierView<'_>)
        ensures
            view@ == self@,
    {
        proof {
            use_type_invariant(self);
        }
        FrontierView { marks: &self.marks }
    }

    /// Marks `peer`'s writes as applied through `seq` (monotonic: lower values
    /// are ignored).
    pub fn advance(&mut self, peer: &String, seq: u64)
        ensures
            final(self)@ == applied(old(self)@, peer@, seq),
    {
        proof {
            use_type_invariant(&*self);
        }
        let mut marks: Table<u64> = Table::new();
        core::mem::swap(&mut marks, &mut self.marks);
        let mark: u64 = match marks.get(peer) {
            Some(mark) => *mark,
            None => 0,
        };
        let mark: u64 = if mark < seq {
            seq
        } else {
            mark
        };
        let _previous = marks.insert(peer.clone(), mark);
        self.marks = marks;
    }
}

impl<'a> FrontierView<'a> {
    /// Each peer has one watermark.
    #[verifier::type_invariant]
    closed spec fn wf(self) -> bool {
        self.marks.wf()
    }

    /// Whether `peer`'s writes through `seq` have been applied locally.
    #[must_use]
    pub fn reached(&self, peer: &String, seq: u64) -> (reached: bool)
        ensures
            reached == covers(self@, peer@, seq),
    {
        proof {
            use_type_invariant(self);
        }
        match self.marks.get(peer) {
            Some(mark) => *mark >= seq,
            None => false,
        }
    }
}

/// A feed's ring after it recorded the writes `all`, oldest first.
pub open spec fn published(capacity: nat, all: Seq<Seq<u8>>) -> (u64, Seq<Seq<u8>>)
    decreases all.len(),
{
    if all.len() == 0 {
        (1u64, Seq::empty())
    } else {
        pushed(published(capacity, all.drop_last()), capacity, all.last())
    }
}

/// Writes are numbered from one without a gap, and the ring holds the last
/// `capacity` of them, each under its own number.
pub proof fn law_ring_keeps_the_last_writes(capacity: nat, all: Seq<Seq<u8>>)
    requires
        all.len() < u64::MAX,
    ensures
        ({
            let ring = published(capacity, all);
            let kept = if all.len() < capacity {
                all.len()
            } else {
                capacity
            };
            &&& ring.1 == all.skip(all.len() - kept)
            &&& ring.0 == 1 + all.len() - kept
            &&& ring.0 + ring.1.len() == 1 + all.len()
        }),
    decreases all.len(),
{
    let ring = published(capacity, all);
    if all.len() == 0 {
        assert(ring.1 =~= all.skip(0));
    } else {
        let front = all.drop_last();
        law_ring_keeps_the_last_writes(capacity, front);
        let kept = if all.len() < capacity {
            all.len()
        } else {
            capacity
        };
        assert(ring.1 =~= all.skip(all.len() - kept));
    }
}

proof fn lemma_invalidations<K>(peer: Seq<char>, from: u64, keys: Seq<Option<K>>)
    requires
        from + keys.len() <= u64::MAX,
    ensures
        forall|i: int|
            0 <= i < keys.len() && (#[trigger] keys[i]) is Some ==> invalidations(
                peer,
                from,
                keys,
            ).contains(Note::Invalidate { peer, seq: (from + i) as u64, key: keys[i]->0 }),
        forall|j: int|
            0 <= j < invalidations(peer, from, keys).len() ==> {
                let note = #[trigger] invalidations(peer, from, keys)[j];
                &&& note is Invalidate
                &&& note->Invalidate_peer == peer
                &&& from <= note->seq < from + keys.len()
                &&& keys[note->seq - from] == Some(note->key)
            },
        forall|i: int, j: int|
            0 <= i < j < invalidations(peer, from, keys).len() ==> (#[trigger] invalidations(
                peer,
                from,
                keys,
            )[i])->seq < (#[trigger] invalidations(peer, from, keys)[j])->seq,
    decreases keys.len(),
{
    if keys.len() > 0 {
        let front = keys.drop_last();
        lemma_invalidations(peer, from, front);
        let before = invalidations(peer, from, front);
        let all = invalidations(peer, from, keys);
        assert forall|i: int| 0 <= i < keys.len() && (#[trigger] keys[i]) is Some implies all.contains(
            Note::Invalidate { peer, seq: (from + i) as u64, key: keys[i]->0 },
        ) by {
            let note = Note::Invalidate { peer, seq: (from + i) as u64, key: keys[i]->0 };
            if i < front.len() {
                assert(front[i] == keys[i]);
                let j = choose|j: int| 0 <= j < before.len() && before[j] == note;
                assert(all[j] == note);
            } else {
                assert(all[all.len() - 1] == note);
            }
        }
        assert forall|j: int| 0 <= j < all.len() implies {
            let note = #[trigger] all[j];
            &&& note is Invalidate
            &&& note->Invalidate_peer == peer
            &&& from <= note->seq < from + keys.len()
            &&& keys[note->seq - from] == Some(note->key)
        } by {
            if j < before.len() {
                assert(all[j] == before[j]);
                assert(front[before[j]->seq - from] == Some(before[j]->key));
            }
        }
        assert forall|i: int, j: int| 0 <= i < j < all.len() implies (#[trigger] all[i])->seq < (
        #[trigger] all[j])->seq by {
            assert(all[i] == before[i]);
            if j < before.len() {
                assert(all[j] == before[j]);
            }
        }
    }
}

/// No write is silently skipped. When a subscriber looks at a peer's entry,
/// every write since its cursor is accounted for among the notifications that
/// are queued: it is covered by a resync, or it is invalidated under its own
/// number, unless its key does not decode. The cursor then stands behind the
/// last write.
pub proof fn law_no_write_is_silently_skipped<K>(
    state: Follow<K>,
    peer: Seq<char>,
    entry: Option<Seq<u8>>,
    keys: Seq<Option<K>>,
    seq: u64,
)
    requires
        orderly(entry),
        framed(entry) is Some,
        keys.len() == due(cursor_of(state, peer, framed(entry)->0), framed(entry)->0).len(),
        cursor_of(state, peer, framed(entry)->0) <= seq < (framed(entry)->0).0 + (framed(
            entry,
        )->0).1.len(),
    ensures
        ({
            let frame = framed(entry)->0;
            let cursor = cursor_of(state, peer, frame);
            let queued = reconciled(peer, cursor, frame, keys);
            let after = followed(state, peer, entry, keys);
            &&& after.pending == state.pending + queued
            &&& after.cursors == state.cursors.insert(peer, (frame.0 + frame.1.len()) as u64)
            &&& if seq < frame.0 {
                exists|through: u64|
                    through >= seq && #[trigger] queued.contains(
                        Note::Resync { peer, applied_through: through },
                    )
            } else {
                match keys[seq - resumed(cursor, frame)] {
                    Some(key) => queued.contains(Note::Invalidate { peer, seq, key }),
                    None => true,
                }
            }
        }),
{
    let frame = framed(entry)->0;
    let cursor = cursor_of(state, peer, frame);
    let from = resumed(cursor, frame);
    let queued = reconciled(peer, cursor, frame, keys);
    let told = invalidations(peer, from, keys);
    lemma_invalidations(peer, from, keys);
    if seq < frame.0 {
        let through = (frame.0 - 1) as u64;
        assert(queued[0] == Note::<K>::Resync { peer, applied_through: through });
        assert(queued.contains(Note::Resync { peer, applied_through: through }));
    } else {
        let i = seq - from;
        if let Some(key) = keys[i] {
            let note = Note::Invalidate { peer, seq, key };
            let j = choose|j: int| 0 <= j < told.len() && told[j] == note;
            let missed = queued.len() - told.len();
            assert(queued[missed + j] == note);
        }
    }
}

/// Nothing is made up, and everything comes in order: what one look at a peer's
/// entry queues are a resync at most, then invalidations of the writes that are
/// new, each with the key it decoded to, in ascending order of their numbers.
pub proof fn law_notifications_are_new_writes_in_order<K>(
    peer: Seq<char>,
    cursor: u64,
    frame: (u64, Seq<Seq<u8>>),
    keys: Seq<Option<K>>,
)
    requires
        countable(frame),
        keys.len() == due(cursor, frame).len(),
        cursor + due(cursor, frame).len() <= u64::MAX,
    ensures
        ({
            let queued = reconciled(peer, cursor, frame, keys);
            let missed = if cursor < frame.0 {
                1int
            } else {
                0
            };
            &&& missed == 1 ==> queued[0] == Note::<K>::Resync {
                peer,
                applied_through: (frame.0 - 1) as u64,
            }
            &&& forall|j: int|
                missed <= j < queued.len() ==> {
                    let note = #[trigger] queued[j];
                    &&& note is Invalidate
                    &&& note->Invalidate_peer == peer
                    &&& cursor <= note->seq
                    &&& frame.0 <= note->seq < frame.0 + frame.1.len()
                    &&& keys[note->seq - resumed(cursor, frame)] == Some(note->key)
                }
            &&& forall|i: int, j: int|
                missed <= i < j < queued.len() ==> (#[trigger] queued[i])->seq < (
                #[trigger] queued[j])->seq
        }),
{
    let from = resumed(cursor, frame);
    let queued = reconciled(peer, cursor, frame, keys);
    let told = invalidations(peer, from, keys);
    lemma_invalidations(peer, from, keys);
    let missed = queued.len() - told.len();
    assert(forall|j: int| missed <= j < queued.len() ==> #[trigger] queued[j] == told[j - missed]);
}

/// Looking at an entry again changes nothing: duplicated events are harmless.
pub proof fn law_second_looks_are_idle<K>(
    state: Follow<K>,
    peer: Seq<char>,
    entry: Option<Seq<u8>>,
    keys: Seq<Option<K>>,
    again: Seq<Option<K>>,
)
    requires
        orderly(entry),
        framed(entry) is Some ==> keys.len() == due(
            cursor_of(state, peer, framed(entry)->0),
            framed(entry)->0,
        ).len(),
        framed(entry) is Some ==> again.len() == due(
            cursor_of(followed(state, peer, entry, keys), peer, framed(entry)->0),
            framed(entry)->0,
        ).len(),
    ensures
        followed(followed(state, peer, entry, keys), peer, entry, again) == followed(
            state,
            peer,
            entry,
            keys,
        ),
{
    let once = followed(state, peer, entry, keys);
    if let Some(frame) = framed(entry) {
        let cursor = cursor_of(state, peer, frame);
        assert(due(once.cursors[peer], frame).len() == 0);
        assert(reconciled(peer, once.cursors[peer], frame, again) =~= Seq::empty());
        assert(followed(once, peer, entry, again) =~= once);
    }
}

/// History is not replayed: a subscriber that just started finds nothing new in
/// a feed that was there when it started.
pub proof fn law_history_is_not_replayed<K>(
    me: Seq<char>,
    members: Seq<(Seq<char>, Option<Seq<u8>>)>,
    i: int,
    keys: Seq<Option<K>>,
)
    requires
        0 <= i < members.len(),
        members[i].0 != me,
        orderly(members[i].1),
        forall|j: int|
            0 <= j < members.len() && j != i ==> (#[trigger] members[j]).0 != members[i].0,
        framed(members[i].1) is Some ==> keys.len() == due(
            started(me, members)[members[i].0],
            framed(members[i].1)->0,
        ).len(),
    ensures
        followed(
            Follow { cursors: started(me, members), pending: Seq::<Note<K>>::empty() },
            members[i].0,
            members[i].1,
            keys,
        ).pending == Seq::<Note<K>>::empty(),
{
    if let Some(frame) = framed(members[i].1) {
        lemma_started(me, members, i);
        let peer = members[i].0;
        assert(reconciled(peer, started(me, members)[peer], frame, keys) =~= Seq::empty());
        assert(Seq::<Note<K>>::empty() + Seq::<Note<K>>::empty() =~= Seq::<Note<K>>::empty());
    }
}

proof fn lemma_started(me: Seq<char>, members: Seq<(Seq<char>, Option<Seq<u8>>)>, i: int)
    requires
        0 <= i < members.len(),
        members[i].0 != me,
        framed(members[i].1) is Some,
        forall|j: int|
            0 <= j < members.len() && j != i ==> (#[trigger] members[j]).0 != members[i].0,
    ensures
        started(me, members).contains_key(members[i].0),
        started(me, members)[members[i].0] == ((framed(members[i].1)->0).0 + (framed(
            members[i].1,
        )->0).1.len()) as u64,
    decreases members.len(),
{
    let front = members.drop_last();
    if i < front.len() {
        assert(front[i] == members[i]);
        assert forall|j: int| 0 <= j < front.len() && j != i implies (#[trigger] front[j]).0
            != front[i].0 by {
            assert(front[j] == members[j]);
        }
        lemma_started(me, front, i);
        assert(members[members.len() - 1].0 != members[i].0);
    }
}

/// A write that a feed published reaches every subscriber that looks: be `all`
/// what the feed published so far and `write` the number of one of its writes.
/// A subscriber whose cursor is not past that write, and which looks at the
/// entry that the feed advertised, learns of it: through a resync that covers
/// it, or through its key, unless that does not decode.
pub proof fn law_subscribers_learn_of_every_write<K>(
    capacity: nat,
    all: Seq<Seq<u8>>,
    state: Follow<K>,
    peer: Seq<char>,
    keys: Seq<Option<K>>,
    write: u64,
)
    requires
        all.len() < u64::MAX,
        statable(published(capacity, all).1),
        state.cursors.contains_key(peer),
        1 <= write <= all.len(),
        state.cursors[peer] <= write,
        keys.len() == due(state.cursors[peer], published(capacity, all)).len(),
    ensures
        ({
            let ring = published(capacity, all);
            let entry = Some(wire(ring.0, ring.1));
            let queued = reconciled(peer, state.cursors[peer], ring, keys);
            let from = resumed(state.cursors[peer], ring);
            &&& followed(state, peer, entry, keys).pending == state.pending + queued
            &&& if write < ring.0 {
                exists|through: u64|
                    through >= write && #[trigger] queued.contains(
                        Note::Resync { peer, applied_through: through },
                    )
            } else {
                &&& due(state.cursors[peer], ring)[write - from] == all[write - 1]
                &&& match keys[write - from] {
                    Some(key) => queued.contains(Note::Invalidate { peer, seq: write, key }),
                    None => true,
                }
            }
        }),
{
    let ring = published(capacity, all);
    law_ring_keeps_the_last_writes(capacity, all);
    law_frames_round_trip(ring.0, ring.1, Seq::empty());
    let bytes = wire(ring.0, ring.1);
    assert(bytes + Seq::<u8>::empty() =~= bytes);
    law_no_write_is_silently_skipped(state, peer, Some(bytes), keys, write);
}

/// The frontier only advances: what was reached stays reached, and what was
/// applied is reached.
pub proof fn law_frontier_only_advances(
    marks: Map<Seq<char>, u64>,
    peer: Seq<char>,
    seq: u64,
    other: Seq<char>,
    mark: u64,
)
    ensures
        covers(marks, other, mark) ==> covers(applied(marks, peer, seq), other, mark),
        covers(applied(marks, peer, seq), peer, seq),
        covers(applied(marks, peer, seq), other, mark) ==> covers(marks, other, mark) || other
            == peer && (mark <= seq),
{
}

/// The larger of two numbers.
pub open spec fn later(a: int, b: int) -> int {
    if a < b {
        b
    } else {
        a
    }
}

/// Where a subscriber stands in the feed of `peer`: at its cursor, or, if it has
/// none, before the first write that the feed shows.
pub open spec fn stands_at<K>(state: Follow<K>, peer: Seq<char>, first: u64) -> int {
    if state.cursors.contains_key(peer) {
        state.cursors[peer] as int
    } else {
        first as int
    }
}

/// Whether `decode` may say `answer` of exactly these bytes.
pub open spec fn reads_as<K, D: Fn(&[u8]) -> Option<K>>(
    decode: D,
    bytes: Seq<u8>,
    answer: Option<K>,
) -> bool {
    exists|slice: &[u8]| slice@ == bytes && #[trigger] call_ensures(decode, (slice,), answer)
}

/// Whether write `number` of `peer`, whose key is encoded as `bytes`, stands
/// among `told`: invalidated under its own number with a key that the bytes
/// decode to, unless they do not decode.
pub open spec fn told_of<K, D: Fn(&[u8]) -> Option<K>>(
    decode: D,
    told: Seq<Note<K>>,
    peer: Seq<char>,
    number: u64,
    bytes: Seq<u8>,
) -> bool {
    exists|answer: Option<K>| #[trigger]
        reads_as(decode, bytes, answer) && match answer {
            Some(key) => told.contains(Note::Invalidate { peer, seq: number, key }),
            None => true,
        }
}

/// Whether the writes of `peer` before number `first` are told as missed.
pub open spec fn told_missed<K>(told: Seq<Note<K>>, peer: Seq<char>, first: u64) -> bool {
    told.contains(Note::Resync { peer, applied_through: (first - 1) as u64 })
}

/// What one look at the entry of a peer comes to. The cursor moves behind the
/// last write that the entry shows, and never back; no other cursor moves.
/// Nothing that was waiting is lost. Every write that is shown and new is told
/// under its own number, and only those are; that some are shown no more is told
/// first, and only where it is so.
pub proof fn law_looks_tell_exactly_the_new_writes<K, D: Fn(&[u8]) -> Option<K>>(
    decode: D,
    state: Follow<K>,
    peer: Seq<char>,
    bytes: Seq<u8>,
    keys: Seq<Option<K>>,
    first: u64,
    writes: Seq<Seq<u8>>,
)
    requires
        parsed(bytes) == Some((first, writes)),
        first + writes.len() <= u64::MAX,
        decoded(decode, state, peer, Some(bytes), keys),
    ensures
        ({
            let start = stands_at(state, peer, first);
            let end = first + writes.len();
            let after = followed(state, peer, Some(bytes), keys);
            let queued = after.pending.skip(state.pending.len() as int);
            &&& after.cursors == state.cursors.insert(peer, later(start, end) as u64)
            &&& state.pending.is_prefix_of(after.pending)
            &&& forall|number: u64|
                later(start, first as int) <= number < end ==> #[trigger] told_of(
                    decode,
                    queued,
                    peer,
                    number,
                    writes[number - first],
                )
            &&& start < first ==> queued.len() > 0 && queued[0] == (Note::<K>::Resync {
                peer,
                applied_through: (first - 1) as u64,
            })
            &&& forall|j: int|
                0 <= j < queued.len() ==> match #[trigger] queued[j] {
                    Note::Resync { .. } => j == 0 && start < first,
                    Note::Invalidate { peer: p, seq, key } => p == peer && start <= seq && first
                        <= seq < end && reads_as(decode, writes[seq - first], Some(key)),
                }
            &&& forall|i: int, j: int|
                0 <= i < j < queued.len() && queued[i] is Invalidate ==> (#[trigger] queued[i])->seq
                    < (#[trigger] queued[j])->seq
        }),
{
    let frame = (first, writes);
    let entry = Some(bytes);
    let start = stands_at(state, peer, first);
    let end = first + writes.len();
    let cursor = cursor_of(state, peer, frame);
    let from = resumed(cursor, frame);
    let fresh = due(cursor, frame);
    let after = followed(state, peer, entry, keys);
    let queued = after.pending.skip(state.pending.len() as int);
    let told = invalidations(peer, from, keys);
    assert(framed(entry) == Some(frame));
    assert(queued =~= reconciled(peer, cursor, frame, keys));
    if fresh.len() > 0 {
        lemma_invalidations(peer, from, keys);
    }
    let missed = queued.len() - told.len();
    assert(missed == if start < first {
        1int
    } else {
        0
    });
    assert forall|j: int| missed <= j < queued.len() implies #[trigger] queued[j] == told[j
        - missed] by {}
    assert forall|number: u64|
        later(start, first as int) <= number < end implies #[trigger] told_of(
        decode,
        queued,
        peer,
        number,
        writes[number - first],
    ) by {
        let i = number - from;
        assert(fresh[i] == writes[number - first]);
        assert(decodes(decode, fresh[i], keys[i]));
        assert(reads_as(decode, fresh[i], keys[i]));
        if let Some(key) = keys[i] {
            let note = Note::Invalidate { peer, seq: number, key };
            assert(told.contains(note));
            let j = told.index_of(note);
            assert(queued[missed + j] == note);
        }
    }
    assert forall|j: int| 0 <= j < queued.len() implies match #[trigger] queued[j] {
        Note::Resync { .. } => j == 0 && start < first,
        Note::Invalidate { peer: p, seq, key } => p == peer && start <= seq && first <= seq < end
            && reads_as(decode, writes[seq - first], Some(key)),
    } by {
        if j >= missed {
            let note = told[j - missed];
            assert(queued[j] == note);
            let i = note->seq - from;
            assert(keys[i] == Some(note->key));
            assert(decodes(decode, fresh[i], keys[i]));
            assert(reads_as(decode, fresh[i], keys[i]));
            assert(fresh[i] == writes[note->seq - first]);
        }
    }
    assert forall|i: int, j: int|
        0 <= i < j < queued.len() && queued[i] is Invalidate implies (#[trigger] queued[i])->seq < (
    #[trigger] queued[j])->seq by {
        assert(queued[i] == told[i - missed]);
        assert(queued[j] == told[j - missed]);
    }
}

/// An entry that is missing, or holds no frame, tells nothing.
pub proof fn law_entries_without_a_frame_tell_nothing<K>(
    state: Follow<K>,
    peer: Seq<char>,
    entry: Option<Seq<u8>>,
    keys: Seq<Option<K>>,
)
    requires
        entry matches Some(bytes) ==> parsed(bytes) is None,
    ensures
        followed(state, peer, entry, keys) == state,
{
}

/// Whether every member but this node is listed once.
pub open spec fn listed_once(
    me: Seq<char>,
    members: Seq<(Seq<char>, Option<Seq<u8>>)>,
) -> bool {
    forall|i: int, j: int|
        0 <= i < j < members.len() && members[i].0 != me ==> (#[trigger] members[i]).0 != (
        #[trigger] members[j]).0
}

/// Whether a peer's entry shows the writes from number `first` on.
pub open spec fn shows(
    member: (Seq<char>, Option<Seq<u8>>),
    first: u64,
    writes: Seq<Seq<u8>>,
) -> bool {
    &&& member.1 matches Some(bytes)
    &&& parsed(bytes) == Some((first, writes))
    &&& first + writes.len() <= u64::MAX
}

/// Whether all that `peer` did from where `state` stands is in `after`: the
/// cursor stands behind the last write that is shown, each of those is told, and
/// so is that earlier ones were missed.
pub open spec fn caught_up<K, D: Fn(&[u8]) -> Option<K>>(
    decode: D,
    state: Follow<K>,
    after: Follow<K>,
    peer: Seq<char>,
    first: u64,
    writes: Seq<Seq<u8>>,
) -> bool {
    let start = stands_at(state, peer, first);
    let end = first + writes.len();
    &&& after.cursors.contains_key(peer)
    &&& after.cursors[peer] == later(start, end)
    &&& start < first ==> told_missed(after.pending, peer, first)
    &&& forall|number: u64|
        later(start, first as int) <= number < end ==> #[trigger] told_of(
            decode,
            after.pending,
            peer,
            number,
            writes[number - first],
        )
}

/// Whether no cursor and no notification of `peer` changed.
pub open spec fn untouched<K>(state: Follow<K>, after: Follow<K>, peer: Seq<char>) -> bool {
    &&& after.cursors.contains_key(peer) == state.cursors.contains_key(peer)
    &&& state.cursors.contains_key(peer) ==> after.cursors[peer] == state.cursors[peer]
    &&& forall|j: int|
        state.pending.len() <= j < after.pending.len() ==> (match #[trigger] after.pending[j] {
            Note::Invalidate { peer: p, .. } => p != peer,
            Note::Resync { peer: p, .. } => p != peer,
        })
}

proof fn lemma_more_told<K, D: Fn(&[u8]) -> Option<K>>(
    decode: D,
    state: Follow<K>,
    a: Follow<K>,
    b: Follow<K>,
    peer: Seq<char>,
    first: u64,
    writes: Seq<Seq<u8>>,
)
    requires
        caught_up(decode, state, a, peer, first, writes),
        a.pending.is_prefix_of(b.pending),
        b.cursors.contains_key(peer),
        b.cursors[peer] == a.cursors[peer],
    ensures
        caught_up(decode, state, b, peer, first, writes),
{
    let start = stands_at(state, peer, first);
    let end = first + writes.len();
    assert forall|note: Note<K>| a.pending.contains(note) implies b.pending.contains(note) by {
        assert(b.pending[a.pending.index_of(note)] == note);
    }
    assert forall|number: u64|
        later(start, first as int) <= number < end implies #[trigger] told_of(
        decode,
        b.pending,
        peer,
        number,
        writes[number - first],
    ) by {
        assert(told_of(decode, a.pending, peer, number, writes[number - first]));
        let answer = choose|answer: Option<K>| #[trigger]
            reads_as(decode, writes[number - first], answer) && match answer {
                Some(key) => a.pending.contains(Note::Invalidate { peer, seq: number, key }),
                None => true,
            };
        assert(reads_as(decode, writes[number - first], answer));
    }
}

/// A full scan misses nobody. Be every member listed once. Then the subscriber
/// has caught up with each member that shows a feed, this node aside; and of
/// everyone else nothing changed, nor is anything told.
pub proof fn law_full_scans_miss_nobody<K, D: Fn(&[u8]) -> Option<K>>(
    decode: D,
    me: Seq<char>,
    state: Follow<K>,
    members: Seq<(Seq<char>, Option<Seq<u8>>)>,
    keys: Seq<Seq<Option<K>>>,
)
    requires
        listed_once(me, members),
        decoded_all(decode, me, state, members, keys),
        forall|i: int| 0 <= i < members.len() ==> orderly((#[trigger] members[i]).1),
    ensures
        ({
            let after = swept(me, state, members, keys);
            &&& state.pending.is_prefix_of(after.pending)
            &&& forall|i: int, first: u64, writes: Seq<Seq<u8>>|
                0 <= i < members.len() && members[i].0 != me && #[trigger] shows(
                    members[i],
                    first,
                    writes,
                ) ==> caught_up(decode, state, after, members[i].0, first, writes)
            &&& forall|peer: Seq<char>|
                (peer == me || forall|i: int|
                    0 <= i < members.len() ==> (#[trigger] members[i]).0 != peer || (
                    members[i].1 matches Some(bytes) ==> parsed(bytes) is None)) ==> #[trigger]
                untouched(state, after, peer)
        }),
    decreases members.len(),
{
    let after = swept(me, state, members, keys);
    if members.len() > 0 {
        let front = members.drop_last();
        let front_keys = keys.drop_last();
        let before = swept(me, state, front, front_keys);
        let last = members.len() - 1;
        let (peer, entry) = members[last];
        assert forall|i: int| 0 <= i < front.len() implies #[trigger] front[i] == members[i] by {}
        law_full_scans_miss_nobody(decode, me, state, front, front_keys);
        assert(orderly(members[last].1));
        let frame = framed(entry);
        if peer != me && frame is Some {
            let bytes = entry->0;
            let (first, writes) = frame->0;
            law_looks_tell_exactly_the_new_writes(
                decode,
                before,
                peer,
                bytes,
                keys.last(),
                first,
                writes,
            );
            let queued = after.pending.skip(before.pending.len() as int);
            assert forall|j: int|
                before.pending.len() <= j < after.pending.len() implies #[trigger] after.pending[j]
                == queued[j - before.pending.len()] by {}
            assert(state.pending.is_prefix_of(after.pending));
            assert(untouched(state, before, peer)) by {
                assert forall|i: int| 0 <= i < front.len() implies (#[trigger] front[i]).0 != peer by {
                    if front[i].0 == peer {
                        assert(members[i].0 != members[last].0);
                    }
                }
            }
            assert(stands_at(state, peer, first) == stands_at(before, peer, first));
            assert(caught_up(decode, state, after, peer, first, writes)) by {
                let start = stands_at(state, peer, first);
                let end = first + writes.len();
                assert forall|note: Note<K>| queued.contains(note) implies after.pending.contains(
                    note,
                ) by {
                    let j = queued.index_of(note);
                    assert(after.pending[before.pending.len() + j] == note);
                }
                if start < first {
                    assert(queued.contains(queued[0]));
                }
                assert forall|number: u64|
                    later(start, first as int) <= number < end implies #[trigger] told_of(
                    decode,
                    after.pending,
                    peer,
                    number,
                    writes[number - first],
                ) by {
                    assert(told_of(decode, queued, peer, number, writes[number - first]));
                    let answer = choose|answer: Option<K>| #[trigger]
                        reads_as(decode, writes[number - first], answer) && match answer {
                            Some(key) => queued.contains(
                                Note::Invalidate { peer, seq: number, key },
                            ),
                            None => true,
                        };
                    assert(reads_as(decode, writes[number - first], answer));
                }
            }
            assert forall|i: int, f: u64, w: Seq<Seq<u8>>|
                0 <= i < members.len() && members[i].0 != me && #[trigger] shows(
                    members[i],
                    f,
                    w,
                ) implies caught_up(decode, state, after, members[i].0, f, w) by {
                if i < last {
                    assert(front[i] == members[i]);
                    assert(shows(front[i], f, w));
                    assert(members[i].0 != members[last].0);
                    lemma_more_told(decode, state, before, after, members[i].0, f, w);
                }
            }
            assert forall|other: Seq<char>|
                (other == me || forall|i: int|
                    0 <= i < members.len() ==> (#[trigger] members[i]).0 != other || (
                    members[i].1 matches Some(bytes) ==> parsed(bytes) is None)) implies #[trigger]
            untouched(state, after, other) by {
                assert(other != peer) by {
                    if other == peer {
                        assert(members[last].0 == other);
                    }
                }
                assert(untouched(state, before, other)) by {
                    assert forall|i: int| 0 <= i < front.len() && other != me implies (
                    #[trigger] front[i]).0 != other || (front[i].1 matches Some(bytes) ==> parsed(
                        bytes,
                    ) is None) by {
                        assert(members[i] == front[i]);
                    }
                }
                assert forall|j: int|
                    state.pending.len() <= j < after.pending.len() implies (match #[trigger] after.pending[j] {
                    Note::Invalidate { peer: p, .. } => p != other,
                    Note::Resync { peer: p, .. } => p != other,
                }) by {
                    if j < before.pending.len() {
                        assert(after.pending[j] == before.pending[j]);
                    } else {
                        let at = j - before.pending.len();
                        assert(after.pending[j] == queued[at]);
                        if queued[at] is Resync {
                            assert(at == 0);
                        }
                    }
                }
            }
        } else {
            assert(after == before);
            assert forall|i: int, f: u64, w: Seq<Seq<u8>>|
                0 <= i < members.len() && members[i].0 != me && #[trigger] shows(
                    members[i],
                    f,
                    w,
                ) implies caught_up(decode, state, after, members[i].0, f, w) by {
                if i < last {
                    assert(shows(front[i], f, w));
                }
            }
            assert forall|other: Seq<char>|
                (other == me || forall|i: int|
                    0 <= i < members.len() ==> (#[trigger] members[i]).0 != other || (
                    members[i].1 matches Some(bytes) ==> parsed(bytes) is None)) implies #[trigger]
            untouched(state, after, other) by {
                assert forall|i: int| 0 <= i < front.len() && other != me implies (
                #[trigger] front[i]).0 != other || (front[i].1 matches Some(bytes) ==> parsed(bytes)
                    is None) by {
                    assert(members[i] == front[i]);
                }
            }
        }
    }
}

/// A subscriber starts behind the last write of every member that shows a feed,
/// this node aside, and knows of no one else. Be every member listed once.
pub proof fn law_subscribers_start_behind_the_last_write(
    me: Seq<char>,
    members: Seq<(Seq<char>, Option<Seq<u8>>)>,
)
    requires
        listed_once(me, members),
    ensures
        forall|i: int, first: u64, writes: Seq<Seq<u8>>|
            0 <= i < members.len() && members[i].0 != me && #[trigger] shows(
                members[i],
                first,
                writes,
            ) ==> {
                &&& started(me, members).contains_key(members[i].0)
                &&& started(me, members)[members[i].0] == first + writes.len()
            },
        forall|peer: Seq<char>| #[trigger]
            started(me, members).contains_key(peer) ==> peer != me && exists|i: int|
                0 <= i < members.len() && (#[trigger] members[i]).0 == peer && (
                members[i].1 matches Some(bytes) && parsed(bytes) is Some),
    decreases members.len(),
{
    if members.len() > 0 {
        let front = members.drop_last();
        let last = members.len() - 1;
        assert forall|i: int| 0 <= i < front.len() implies #[trigger] front[i] == members[i] by {}
        law_subscribers_start_behind_the_last_write(me, front);
        assert forall|i: int, first: u64, writes: Seq<Seq<u8>>|
            0 <= i < members.len() && members[i].0 != me && #[trigger] shows(
                members[i],
                first,
                writes,
            ) implies {
            &&& started(me, members).contains_key(members[i].0)
            &&& started(me, members)[members[i].0] == first + writes.len()
        } by {
            if i < last {
                assert(shows(front[i], first, writes));
                assert(members[i].0 != members[last].0);
            }
        }
        assert forall|peer: Seq<char>| #[trigger]
            started(me, members).contains_key(peer) implies peer != me && exists|i: int|
                0 <= i < members.len() && (#[trigger] members[i]).0 == peer && (
                members[i].1 matches Some(bytes) && parsed(bytes) is Some) by {
            if started(me, front).contains_key(peer) {
                let i = choose|i: int|
                    0 <= i < front.len() && (#[trigger] front[i]).0 == peer && (
                    front[i].1 matches Some(bytes) && parsed(bytes) is Some);
                assert(members[i] == front[i]);
            } else {
                assert(members[last].0 == peer);
            }
        }
    }
}

/// The watermarks after `advances`, oldest first, from none at all.
pub open spec fn advanced(advances: Seq<(Seq<char>, u64)>) -> Map<Seq<char>, u64>
    decreases advances.len(),
{
    if advances.len() == 0 {
        Map::empty()
    } else {
        applied(advanced(advances.drop_last()), advances.last().0, advances.last().1)
    }
}

/// Reached means applied: a write of a peer is reached exactly if the frontier
/// was once advanced to it, or past it, for this peer.
pub proof fn law_reached_means_applied(
    advances: Seq<(Seq<char>, u64)>,
    peer: Seq<char>,
    seq: u64,
)
    ensures
        covers(advanced(advances), peer, seq) <==> exists|i: int|
            0 <= i < advances.len() && (#[trigger] advances[i]).0 == peer && advances[i].1 >= seq,
    decreases advances.len(),
{
    if advances.len() > 0 {
        let front = advances.drop_last();
        let last = advances.len() - 1;
        law_reached_means_applied(front, peer, seq);
        assert forall|i: int| 0 <= i < front.len() implies #[trigger] front[i] == advances[i] by {}
        if covers(advanced(front), peer, seq) {
            let i = choose|i: int|
                0 <= i < front.len() && (#[trigger] front[i]).0 == peer && front[i].1 >= seq;
            assert(advances[i].0 == peer);
        }
        if exists|i: int|
            0 <= i < advances.len() && (#[trigger] advances[i]).0 == peer && advances[i].1 >= seq {
            let i = choose|i: int|
                0 <= i < advances.len() && (#[trigger] advances[i]).0 == peer && advances[i].1
                    >= seq;
            if i < last {
                assert(front[i].0 == peer);
            }
        }
        if covers(advanced(advances), peer, seq) && !covers(advanced(front), peer, seq) {
            assert(advances[last].0 == peer);
        }
    }
}

/// The number that four bytes from `at` on state, the lowest first.
pub open spec fn four_at(bytes: Seq<u8>, at: int) -> int {
    bytes[at] + 256 * bytes[at + 1] + 65536 * bytes[at + 2] + 16777216 * bytes[at + 3]
}

proof fn lemma_four(len: u32)
    ensures
        bytes_of(len as nat, 4).len() == 4,
        four_at(bytes_of(len as nat, 4), 0) == len,
{
    reveal_with_fuel(bytes_of, 5);
    let n = len as nat;
    let bytes = bytes_of(n, 4);
    assert(bytes[0] == (n % 256) as u8);
    assert(bytes[1] == ((n / 256) % 256) as u8);
    assert(bytes[2] == ((n / 256 / 256) % 256) as u8);
    assert(bytes[3] == ((n / 256 / 256 / 256) % 256) as u8);
}

proof fn lemma_eight(number: u64)
    ensures
        bytes_of(number as nat, 8).len() == 8,
        four_at(bytes_of(number as nat, 8), 0) + 4294967296 * four_at(
            bytes_of(number as nat, 8),
            4,
        ) == number,
{
    let n = number as nat;
    let bytes = bytes_of(n, 8);
    reveal_with_fuel(bytes_of, 9);
    let (n1, n2, n3) = (n / 256, n / 256 / 256, n / 256 / 256 / 256);
    let n4 = n3 / 256;
    let (n5, n6, n7) = (n4 / 256, n4 / 256 / 256, n4 / 256 / 256 / 256);
    assert(bytes[0] == (n % 256) as u8);
    assert(bytes[1] == (n1 % 256) as u8);
    assert(bytes[2] == (n2 % 256) as u8);
    assert(bytes[3] == (n3 % 256) as u8);
    assert(bytes[4] == (n4 % 256) as u8);
    assert(bytes[5] == (n5 % 256) as u8);
    assert(bytes[6] == (n6 % 256) as u8);
    assert(bytes[7] == (n7 % 256) as u8);
}

/// The layout of a frame. It starts with the number of its first write in eight
/// bytes and the number of its keys in four, the lowest first; and one more key
/// adds its length in four bytes and its own bytes at the end, and changes
/// nothing else but the number of keys.
pub proof fn law_frames_have_one_layout(first_seq: u64, keys: Seq<Seq<u8>>, key: Seq<u8>)
    requires
        keys.len() < u32::MAX,
        key.len() <= u32::MAX,
    ensures
        ({
            let bytes = wire(first_seq, keys);
            let more = wire(first_seq, keys.push(key));
            &&& wire(first_seq, Seq::empty()).len() == 12
            &&& bytes.len() >= 12
            &&& four_at(bytes, 0) + 4294967296 * four_at(bytes, 4) == first_seq
            &&& four_at(bytes, 8) == keys.len()
            &&& more.len() == bytes.len() + 4 + key.len()
            &&& more.subrange(12, bytes.len() as int) == bytes.skip(12)
            &&& four_at(more, bytes.len() as int) == key.len()
            &&& more.skip(bytes.len() as int + 4) == key
        }),
{
    let bytes = wire(first_seq, keys);
    let grown = keys.push(key);
    let more = wire(first_seq, grown);
    let first = bytes_of(first_seq as nat, 8);
    let count = bytes_of(stated(keys.len()) as nat, 4);
    let len = bytes_of(stated(key.len()) as nat, 4);
    lemma_eight(first_seq);
    lemma_four(stated(keys.len()));
    lemma_four(stated(grown.len()));
    lemma_four(stated(0));
    lemma_four(stated(key.len()));
    assert(grown.drop_last() =~= keys);
    assert forall|i: int| 0 <= i < 8 implies #[trigger] bytes[i] == first[i] by {}
    assert(forall|i: int| 0 <= i < 4 ==> bytes[8 + i] == #[trigger] count[i]);
    assert(bytes[8] == count[0] && bytes[9] == count[1] && bytes[10] == count[2] && bytes[11]
        == count[3]);
    let at = bytes.len() as int;
    assert(more[at] == len[0] && more[at + 1] == len[1] && more[at + 2] == len[2] && more[at + 3]
        == len[3]);
    assert(more.subrange(12, at) =~= bytes.skip(12));
    assert(more.skip(at + 4) =~= key);
}

/// A feed can go on as long as the numbers last: a frame is in order exactly if
/// its writes, and the one that follows, have numbers. An entry without a frame is
/// always in order.
pub proof fn law_feeds_go_on_while_numbers_last(bytes: Seq<u8>, first: u64, keys: Seq<Seq<u8>>)
    ensures
        countable((first, keys)) <==> first + keys.len() <= 18446744073709551615,
        parsed(bytes) == Some((first, keys)) ==> (orderly(Some(bytes)) <==> first + keys.len()
            <= 18446744073709551615),
        parsed(bytes) is None ==> orderly(Some(bytes)),
        orderly(None),
{
}

/// Lengths are stated as they are, up to the largest that four bytes can state.
pub proof fn law_lengths_are_stated_as_they_are(len: nat)
    ensures
        len <= 4294967295 ==> stated(len) == len,
        len > 4294967295 ==> stated(len) == 4294967295,
{
}

} // verus!
