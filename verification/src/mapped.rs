//! The books of a file-per-key tier that serves memory-mapped values.
//!
//! [`MmapDiskTier`] knows which files are mapped, what each key weighs on disk,
//! and in which order keys came. Under a budget, puts that overflow it evict
//! the oldest keys first. Writing, mapping and unlinking files is left to the
//! driver; the values it hands in and gets back are [`Bytes`], whose clones
//! and slices share the mapping.

use bytes::Bytes;
use std::collections::VecDeque;
use std::ops::Range;
use std::path::PathBuf;
use vstd::prelude::*;

use crate::disk::RangeError;
use crate::names;
use crate::table::Table;
use crate::tier::{Displaced, Page};

verus! {

/// [`bytes::Bytes`], a cheaply cloneable run of bytes.
#[verifier::external_type_specification]
#[verifier::external_body]
pub struct ExBytes(bytes::Bytes);

/// The bytes that a [`bytes::Bytes`] holds. They never change: the type gives
/// only shared access, and a mapping that backs one is of a file that is never
/// rewritten in place.
pub uninterp spec fn bytes_in(bytes: bytes::Bytes) -> Seq<u8>;

/// [`bytes::Bytes::len`] is taken to return the number of bytes held.
#[verifier::external_body]
pub(crate) fn bytes_len(bytes: &Bytes) -> (len: usize)
    ensures
        len == bytes_in(*bytes).len(),
{
    bytes.len()
}

/// [`bytes::Bytes::slice`] is taken to return exactly the bytes of the range,
/// which must lie within those held.
#[verifier::external_body]
pub(crate) fn bytes_slice(bytes: &Bytes, start: usize, end: usize) -> (part: Bytes)
    requires
        start <= end <= bytes_in(*bytes).len(),
    ensures
        bytes_in(part) == bytes_in(*bytes).subrange(start as int, end as int),
{
    bytes.slice(start..end)
}

/// Cloning a [`bytes::Bytes`] is taken to give another handle to the same
/// bytes.
#[verifier::external_body]
pub(crate) fn bytes_clone(bytes: &Bytes) -> (clone: Bytes)
    ensures
        bytes_in(clone) == bytes_in(*bytes),
{
    bytes.clone()
}

/// The state of a [`MmapDiskTier`].
#[verifier::ext_equal]
pub struct Books {
    /// Live mappings by key.
    pub maps: Map<Seq<char>, Bytes>,
    /// Accounted on-disk size per key.
    pub sizes: Map<Seq<char>, u64>,
    /// Keys in eviction order, oldest first.
    pub order: Seq<Seq<char>>,
    /// Sum of accounted sizes.
    pub total: u64,
}

/// The sum, or the largest number if it does not fit.
pub open spec fn plus(a: u64, b: u64) -> u64 {
    if a + b > u64::MAX {
        u64::MAX
    } else {
        (a + b) as u64
    }
}

/// The difference, or zero if it would be negative.
pub open spec fn minus(a: u64, b: u64) -> u64 {
    if a < b {
        0
    } else {
        (a - b) as u64
    }
}

/// An entry that is evicted: its key, and its mapping if it is mapped.
pub type Evicted = (Seq<char>, Option<Bytes>);

impl Books {
    /// The books of an empty tier.
    pub open spec fn blank() -> Books {
        Books { maps: Map::empty(), sizes: Map::empty(), order: Seq::empty(), total: 0 }
    }

    /// The books once `key` was written with `len` bytes, and mapped as `mapped`
    /// if that worked. An overwrite keeps its place in the order.
    pub open spec fn recorded(self, key: Seq<char>, len: u64, mapped: Option<Bytes>) -> Books {
        Books {
            maps: match mapped {
                Some(bytes) => self.maps.insert(key, bytes),
                None => self.maps,
            },
            sizes: self.sizes.insert(key, len),
            order: if self.sizes.contains_key(key) {
                self.order
            } else {
                self.order.push(key)
            },
            total: plus(
                if self.sizes.contains_key(key) {
                    minus(self.total, self.sizes[key])
                } else {
                    self.total
                },
                len,
            ),
        }
    }

    /// The books without the oldest key.
    pub open spec fn without_oldest(self) -> Books {
        let key = self.order[0];
        Books {
            maps: self.maps.remove(key),
            sizes: self.sizes.remove(key),
            order: self.order.skip(1),
            total: if self.sizes.contains_key(key) {
                minus(self.total, self.sizes[key])
            } else {
                self.total
            },
        }
    }

    /// The oldest key and its mapping.
    pub open spec fn oldest(self) -> Evicted {
        self.leaving(self.order[0])
    }

    /// The books once the oldest keys are evicted until the total is within
    /// `budget`, and the evicted entries appended to `gone`.
    pub open spec fn trimmed(self, budget: u64, gone: Seq<Evicted>) -> (Books, Seq<Evicted>)
        decreases self.order.len(),
    {
        if self.total <= budget || self.order.len() == 0 {
            (self, gone)
        } else {
            self.without_oldest().trimmed(budget, gone.push(self.oldest()))
        }
    }

    /// The books once `key` was deleted.
    pub open spec fn forgotten(self, key: Seq<char>) -> Books {
        Books {
            maps: self.maps.remove(key),
            sizes: self.sizes.remove(key),
            order: if self.sizes.contains_key(key) {
                others(self.order, key)
            } else {
                self.order
            },
            total: if self.sizes.contains_key(key) {
                minus(self.total, self.sizes[key])
            } else {
                self.total
            },
        }
    }

    /// Whether the total still fits its counter once `key` has `len` bytes.
    pub open spec fn fits(self, key: Seq<char>, len: u64) -> bool {
        self.total + len - (if self.sizes.contains_key(key) {
            self.sizes[key] as int
        } else {
            0
        }) <= u64::MAX
    }

    /// What is known of `key` when it goes: its bytes, if they are mapped.
    pub open spec fn leaving(self, key: Seq<char>) -> Evicted {
        (
            key,
            if self.maps.contains_key(key) {
                Some(self.maps[key])
            } else {
                None
            },
        )
    }

    /// Whether `after` is what is left once the oldest entries `gone` went, and
    /// they are just enough to keep `budget`: the total of the others does not
    /// exceed it, and would with one more of them.
    pub open spec fn trims_to(self, budget: u64, after: Books, gone: Seq<Evicted>) -> bool {
        let count = gone.len() as int;
        &&& count <= self.order.len()
        &&& forall|i: int| 0 <= i < count ==> #[trigger] gone[i] == self.leaving(self.order[i])
        &&& after.order == self.order.skip(count)
        &&& forall|key: Seq<char>| #[trigger]
            after.sizes.contains_key(key) <==> after.order.contains(key)
        &&& forall|key: Seq<char>| #[trigger]
            after.sizes.contains_key(key) ==> {
                &&& after.sizes[key] == self.sizes[key]
                &&& after.leaving(key) == self.leaving(key)
            }
        &&& after.total == weight(after.order, self.sizes)
        &&& after.total <= budget
        &&& forall|m: int|
            0 <= m < count ==> weight(#[trigger] self.order.skip(m), self.sizes) > budget
    }

    /// Order, sizes and total speak of the same keys.
    pub open spec fn consistent(self) -> bool {
        &&& self.order.no_duplicates()
        &&& forall|key: Seq<char>| #[trigger]
            self.sizes.contains_key(key) <==> self.order.contains(key)
        &&& self.total == weight(self.order, self.sizes)
    }
}

/// `order` without `key`.
pub open spec fn others(order: Seq<Seq<char>>, key: Seq<char>) -> Seq<Seq<char>>
    decreases order.len(),
{
    if order.len() == 0 {
        Seq::empty()
    } else if order.last() == key {
        others(order.drop_last(), key)
    } else {
        others(order.drop_last(), key).push(order.last())
    }
}

/// The sum of the sizes of the keys in `order`.
pub open spec fn weight(order: Seq<Seq<char>>, sizes: Map<Seq<char>, u64>) -> nat
    decreases order.len(),
{
    if order.len() == 0 {
        0
    } else {
        sizes[order[0]] as nat + weight(order.skip(1), sizes)
    }
}

/// A file found in the tier's directory.
pub struct Found {
    /// The key that its name stands for.
    pub key: String,
    /// Its length.
    pub len: u64,
    /// When it was last modified, in nanoseconds since the epoch.
    pub modified: i128,
}

/// What a [`Found`] says.
pub struct File {
    /// The key.
    pub key: Seq<char>,
    /// The length.
    pub len: u64,
    /// The modification time.
    pub modified: i128,
}

impl View for Found {
    type V = File;

    open spec fn view(&self) -> File {
        File { key: self.key@, len: self.len, modified: self.modified }
    }
}

/// The files in `found`.
pub open spec fn files_in(found: Seq<Found>) -> Seq<File> {
    found.map_values(|file: Found| file@)
}

/// `file` put behind everything in `files` that is not younger.
pub open spec fn placed(files: Seq<File>, file: File) -> Seq<File>
    decreases files.len(),
{
    if files.len() == 0 || files.last().modified <= file.modified {
        files.push(file)
    } else {
        placed(files.drop_last(), file).push(files.last())
    }
}

/// `files` by age, oldest first; files of the same age stay in order.
pub open spec fn by_age(files: Seq<File>) -> Seq<File>
    decreases files.len(),
{
    if files.len() == 0 {
        files
    } else {
        placed(by_age(files.drop_last()), files.last())
    }
}

/// The books of a tier that holds `files`, in this order.
pub open spec fn booked(files: Seq<File>) -> Books
    decreases files.len(),
{
    if files.len() == 0 {
        Books::blank()
    } else {
        let before = booked(files.drop_last());
        let file = files.last();
        Books {
            maps: before.maps,
            sizes: before.sizes.insert(file.key, file.len),
            order: before.order.push(file.key),
            total: plus(before.total, file.len),
        }
    }
}

/// File-per-key tier serving memory-mapped values.
pub struct MmapDiskTier {
    root: PathBuf,
    budget: Option<u64>,
    maps: Table<Bytes>,
    sizes: Table<u64>,
    order: VecDeque<String>,
    total: u64,
}

impl View for MmapDiskTier {
    type V = Books;

    closed spec fn view(&self) -> Books {
        Books {
            maps: self.maps@,
            sizes: self.sizes@,
            order: names::texts(self.order@),
            total: self.total,
        }
    }
}

/// Evicted entries as mathematical values.
pub open spec fn evicted_in(gone: Seq<(String, Option<Bytes>)>) -> Seq<Evicted> {
    gone.map_values(|entry: (String, Option<Bytes>)| (entry.0@, entry.1))
}

impl MmapDiskTier {
    /// The tier's internal invariant.
    pub closed spec fn wf(&self) -> bool {
        self.maps.wf() && self.sizes.wf()
    }

    /// The tier's root directory.
    pub closed spec fn directory(&self) -> PathBuf {
        self.root
    }

    /// The most bytes that the tier may hold.
    pub closed spec fn limit(&self) -> Option<u64> {
        self.budget
    }

    /// A tier over the directory `root`, whose files are `found`: sizes from
    /// file lengths, eviction order approximated by modification time.
    #[must_use]
    pub fn new(root: PathBuf, budget: Option<u64>, found: Vec<Found>) -> (tier: Self)
        ensures
            tier.wf(),
            tier.directory() == root,
            tier.limit() == budget,
            tier@ == booked(by_age(files_in(found@))),
            each_once(files_in(found@)) && bulk(files_in(found@)) <= u64::MAX
                ==> tier@.consistent() && tier@.total == bulk(files_in(found@)),
    {
        proof {
            if each_once(files_in(found@)) && bulk(files_in(found@)) <= u64::MAX {
                lemma_by_age(files_in(found@));
                law_reopened_books_are_consistent(by_age(files_in(found@)));
            }
        }
        let mut tier = MmapDiskTier {
            root,
            budget,
            maps: Table::new(),
            sizes: Table::new(),
            order: VecDeque::new(),
            total: 0,
        };
        let files = sort_by_age(found);
        let ghost all = files@;
        assert(files_in(all.take(0)) =~= Seq::empty());
        assert(tier@ =~= Books::blank());
        for file in source: files.into_iter()
            invariant
                source.seq() == all,
                tier.wf(),
                tier.directory() == root,
                tier.limit() == budget,
                tier@ == booked(files_in(all.take(source.index() as int))),
        {
            let ghost index = source.index() as int;
            let ghost before = tier@;
            let ghost seen = files_in(all.take(index + 1));
            let ghost text = file.key@;
            let Found { key, len, .. } = file;
            tier.total = tier.total.saturating_add(len);
            let _replaced = tier.sizes.insert(key.clone(), len);
            let ghost held = tier.order@;
            tier.order.push_back(key);
            proof {
                assert(seen.drop_last() =~= files_in(all.take(index)));
                assert(seen.last() == file@);
                assert(names::texts(tier.order@) =~= names::texts(held).push(text));
                assert(tier@ =~= booked(seen));
            }
        }
        assert(all.take(all.len() as int) =~= all);
        tier
    }

    /// The tier's root directory.
    #[must_use]
    pub fn root(&self) -> (root: &PathBuf)
        ensures
            *root == self.directory(),
    {
        &self.root
    }

    /// Total accounted bytes currently on disk.
    #[must_use]
    pub fn disk_usage(&self) -> (total: u64)
        ensures
            total == self@.total,
    {
        self.total
    }

    /// The value of `key`, if it is mapped.
    #[must_use]
    pub fn cached(&self, key: &String) -> (bytes: Option<Bytes>)
        requires
            self.wf(),
        ensures
            bytes is Some <==> self@.maps.contains_key(key@),
            bytes matches Some(bytes) ==> bytes_in(bytes) == bytes_in(self@.maps[key@]),
    {
        match self.maps.get(key) {
            Some(bytes) => Some(bytes_clone(bytes)),
            None => None,
        }
    }

    /// Whether `key` is mapped.
    #[must_use]
    pub fn is_cached(&self, key: &String) -> (cached: bool)
        requires
            self.wf(),
        ensures
            cached == self@.maps.contains_key(key@),
    {
        self.maps.contains(key)
    }

    /// Keeps the mapping of `key` for later reads.
    pub fn remember(&mut self, key: String, bytes: Bytes)
        requires
            old(self).wf(),
        ensures
            final(self).wf(),
            final(self).directory() == old(self).directory(),
            final(self).limit() == old(self).limit(),
            final(self)@ == (Books { maps: old(self)@.maps.insert(key@, bytes), ..old(self)@ }),
            old(self)@.consistent() ==> final(self)@.consistent(),
    {
        let _replaced = self.maps.insert(key, bytes);
    }

    /// Records that `key` was written with `len` bytes, and mapped as `mapped`
    /// if that worked. Returns what has to be evicted to stay within the
    /// budget, oldest first: the keys, and their mappings where there are any.
    pub fn put(&mut self, key: String, len: u64, mapped: Option<Bytes>) -> (gone: Vec<
        (String, Option<Bytes>),
    >)
        requires
            old(self).wf(),
        ensures
            final(self).wf(),
            final(self).directory() == old(self).directory(),
            final(self).limit() == old(self).limit(),
            (final(self)@, evicted_in(gone@)) == match old(self).limit() {
                Some(budget) => old(self)@.recorded(key@, len, mapped).trimmed(
                    budget,
                    Seq::empty(),
                ),
                None => (old(self)@.recorded(key@, len, mapped), Seq::empty()),
            },
            old(self)@.consistent() && old(self)@.fits(key@, len) ==> {
                &&& final(self)@.consistent()
                &&& old(self).limit() matches Some(budget) ==> old(self)@.recorded(
                    key@,
                    len,
                    mapped,
                ).trims_to(budget, final(self)@, evicted_in(gone@))
            },
    {
        let ghost start = *self;
        let ghost text = key@;
        if let Some(bytes) = mapped {
            let _replaced = self.maps.insert(key.clone(), bytes);
        }
        match self.sizes.insert(key.clone(), len) {
            Some(replaced) => {
                self.total = self.total.saturating_sub(replaced);
            },
            None => {
                let ghost held = self.order@;
                self.order.push_back(key);
                assert(names::texts(self.order@) =~= names::texts(held).push(text));
            },
        }
        self.total = self.total.saturating_add(len);
        let ghost recorded = start@.recorded(text, len, mapped);
        assert(self@ =~= recorded);
        proof {
            if start@.consistent() && start@.fits(text, len) {
                lemma_recorded_consistent(start@, text, len, mapped);
                if let Some(budget) = start.limit() {
                    law_eviction_is_just_enough(recorded, budget);
                }
            }
        }
        let mut gone: Vec<(String, Option<Bytes>)> = Vec::new();
        assert(evicted_in(gone@) =~= Seq::empty());
        if let Some(budget) = self.budget {
            while self.total > budget
                invariant
                    self.wf(),
                    self.directory() == start.directory(),
                    self.limit() == start.limit(),
                    recorded.trimmed(budget, Seq::empty()) == self@.trimmed(
                        budget,
                        evicted_in(gone@),
                    ),
                ensures
                    (self@, evicted_in(gone@)) == recorded.trimmed(budget, Seq::empty()),
                decreases self@.order.len(),
            {
                let ghost before = self@;
                let ghost listed = evicted_in(gone@);
                match self.order.pop_front() {
                    Some(oldest) => {
                        let bytes = self.maps.remove(&oldest);
                        if let Some(size) = self.sizes.remove(&oldest) {
                            self.total = self.total.saturating_sub(size);
                        }
                        assert(before.order[0] == oldest@);
                        assert(self@ =~= before.without_oldest());
                        gone.push((oldest, bytes));
                        assert(evicted_in(gone@) =~= listed.push(before.oldest()));
                    },
                    None => {
                        assert(before.order.len() == 0);
                        assert(self@ =~= before);
                        break;
                    },
                }
            }
        }
        gone
    }

    /// Strikes `key`, which is being deleted.
    pub fn forget(&mut self, key: &String)
        requires
            old(self).wf(),
        ensures
            final(self).wf(),
            final(self).directory() == old(self).directory(),
            final(self).limit() == old(self).limit(),
            final(self)@ == old(self)@.forgotten(key@),
            old(self)@.consistent() ==> final(self)@.consistent(),
    {
        let ghost start = *self;
        proof {
            if start@.consistent() {
                law_forgetting_keeps_books_consistent(start@, key@);
            }
        }
        let _unmapped = self.maps.remove(key);
        if let Some(size) = self.sizes.remove(key) {
            self.total = self.total.saturating_sub(size);
            let mut kept: VecDeque<String> = VecDeque::new();
            let ghost all = self.order@;
            let mut i: usize = 0;
            assert(names::texts(all.take(0)) =~= Seq::empty());
            assert(names::texts(kept@) =~= Seq::empty());
            while i < self.order.len()
                invariant
                    all == self.order@,
                    i <= all.len(),
                    names::texts(kept@) == others(names::texts(all.take(i as int)), key@),
                decreases all.len() - i,
            {
                let ghost before = kept@;
                let ghost seen = names::texts(all.take(i + 1));
                assert(seen.drop_last() =~= names::texts(all.take(i as int)));
                if self.order[i] != *key {
                    kept.push_back(self.order[i].clone());
                    assert(names::texts(kept@) =~= names::texts(before).push(all[i as int]@));
                }
                i += 1;
            }
            assert(all.take(i as int) =~= all);
            self.order = kept;
        }
        assert(self@ =~= start@.forgotten(key@));
    }

    /// One page of the keys under the root, of which `names` are the file
    /// names.
    #[must_use]
    pub fn list(&self, names: Vec<String>, cursor: Option<usize>, limit: usize) -> (page: Page<
        String,
        usize,
    >)
        ensures
            page.keys@.len() <= limit,
            names::page_of(names::listing(names@), names::offset_of(cursor), limit, page),
    {
        names::list_page(names, cursor, limit)
    }

    /// Exactly `range` of what is mapped for `key`; `bytes` are the mapped bytes
    /// of its file, or `None` if there is none.
    pub fn read_range(&self, bytes: Option<&Bytes>, range: Range<u64>) -> (part: Result<
        Option<Bytes>,
        RangeError,
    >)
        ensures
            match bytes {
                Some(bytes) => match sliced(bytes_in(*bytes), range) {
                    Ok(wanted) => part matches Ok(Some(part)) && bytes_in(part) == wanted,
                    Err(error) => part == Err::<Option<Bytes>, _>(error),
                },
                None => part == Ok::<Option<Bytes>, RangeError>(None),
            },
    {
        match bytes {
            Some(bytes) => match slice_of(bytes, range) {
                Ok(part) => Ok(Some(part)),
                Err(error) => Err(error),
            },
            None => Ok(None),
        }
    }
}

/// Sorts by age, keeping files of the same age in order.
fn sort_by_age(found: Vec<Found>) -> (sorted: Vec<Found>)
    ensures
        files_in(sorted@) == by_age(files_in(found@)),
{
    let ghost all = found@;
    let mut sorted: Vec<Found> = Vec::with_capacity(found.len());
    assert(files_in(all.take(0)) =~= Seq::empty());
    assert(files_in(sorted@) =~= Seq::empty());
    for file in source: found.into_iter()
        invariant
            source.seq() == all,
            files_in(sorted@) == by_age(files_in(all.take(source.index() as int))),
    {
        let ghost index = source.index() as int;
        let ghost seen = files_in(all.take(index + 1));
        let ghost before = files_in(sorted@);
        assert(seen.drop_last() =~= files_in(all.take(index)));
        assert(seen.last() == file@);
        let mut at: usize = sorted.len();
        assert(before.take(at as int) =~= before);
        assert(before.skip(at as int) =~= Seq::empty());
        assert(placed(before, file@) =~= placed(before.take(at as int), file@) + before.skip(
            at as int,
        ));
        while at > 0 && sorted[at - 1].modified > file.modified
            invariant
                at <= sorted@.len(),
                before == files_in(sorted@),
                placed(before, file@) == placed(before.take(at as int), file@) + before.skip(
                    at as int,
                ),
            decreases at,
        {
            at -= 1;
            proof {
                let front = before.take(at + 1);
                assert(front.drop_last() =~= before.take(at as int));
                assert(front.last() == before[at as int]);
                assert(placed(before.take(at as int), file@).push(before[at as int]) + before.skip(
                    at + 1,
                ) =~= placed(before.take(at as int), file@) + before.skip(at as int));
            }
        }
        proof {
            let front = before.take(at as int);
            if at > 0 {
                assert(front.last() == before[at - 1]);
            }
            assert(placed(front, file@) == front.push(file@));
        }
        let ghost item = file@;
        sorted.insert(at, file);
        assert(files_in(sorted@) =~= before.take(at as int).push(item) + before.skip(at as int));
    }
    assert(all.take(all.len() as int) =~= all);
    sorted
}

/// The evicted entries whose values could still be mapped.
pub open spec fn rescued(gone: Seq<(String, Option<Bytes>)>) -> Seq<(String, Bytes)>
    decreases gone.len(),
{
    if gone.len() == 0 {
        Seq::empty()
    } else {
        match gone.last().1 {
            Some(bytes) => rescued(gone.drop_last()).push((gone.last().0, bytes)),
            None => rescued(gone.drop_last()),
        }
    }
}

/// What an eviction displaces. An entry whose file could not be mapped drops
/// its value: eviction proceeds rather than corrupting accounting.
#[must_use]
pub fn displaced(gone: Vec<(String, Option<Bytes>)>) -> (entries: Displaced<String, Bytes>)
    ensures
        entries@ == rescued(gone@),
{
    let ghost all = gone@;
    let mut entries: Displaced<String, Bytes> = Vec::new();
    for entry in source: gone.into_iter()
        invariant
            source.seq() == all,
            entries@ == rescued(all.take(source.index() as int)),
    {
        let ghost index = source.index() as int;
        assert(all.take(index + 1).drop_last() =~= all.take(index));
        let (key, bytes) = entry;
        if let Some(bytes) = bytes {
            entries.push((key, bytes));
        }
    }
    assert(all.take(all.len() as int) =~= all);
    entries
}

/// Exactly `range` of `bytes`, or why there is no such part.
pub open spec fn sliced(bytes: Seq<u8>, range: Range<u64>) -> Result<Seq<u8>, RangeError> {
    if range.start > usize::MAX || range.end > usize::MAX {
        Err(RangeError::TooLarge)
    } else if range.start > range.end || range.end > bytes.len() {
        Err(RangeError::OutOfBounds)
    } else {
        Ok(bytes.subrange(range.start as int, range.end as int))
    }
}

/// Exactly `range` of `bytes`, sharing their mapping.
pub fn slice_of(bytes: &Bytes, range: Range<u64>) -> (part: Result<Bytes, RangeError>)
    ensures
        match sliced(bytes_in(*bytes), range) {
            Ok(wanted) => part matches Ok(part) && bytes_in(part) == wanted,
            Err(error) => part == Err::<Bytes, _>(error),
        },
{
    if range.start > usize::MAX as u64 || range.end > usize::MAX as u64 {
        return Err(RangeError::TooLarge);
    }
    let start: usize = range.start as usize;
    let end: usize = range.end as usize;
    if start > end || end > bytes_len(bytes) {
        return Err(RangeError::OutOfBounds);
    }
    Ok(bytes_slice(bytes, start, end))
}

proof fn lemma_weight_frame(
    order: Seq<Seq<char>>,
    a: Map<Seq<char>, u64>,
    b: Map<Seq<char>, u64>,
)
    requires
        forall|i: int| 0 <= i < order.len() ==> a[#[trigger] order[i]] == b[order[i]],
    ensures
        weight(order, a) == weight(order, b),
    decreases order.len(),
{
    if order.len() > 0 {
        assert(a[order[0]] == b[order[0]]);
        assert forall|i: int| 0 <= i < order.skip(1).len() implies a[#[trigger] order.skip(1)[i]]
            == b[order.skip(1)[i]] by {
            assert(order.skip(1)[i] == order[i + 1]);
        }
        lemma_weight_frame(order.skip(1), a, b);
    }
}

proof fn lemma_weight_push(order: Seq<Seq<char>>, key: Seq<char>, sizes: Map<Seq<char>, u64>)
    ensures
        weight(order.push(key), sizes) == weight(order, sizes) + sizes[key],
    decreases order.len(),
{
    if order.len() > 0 {
        lemma_weight_push(order.skip(1), key, sizes);
        assert(order.push(key).skip(1) =~= order.skip(1).push(key));
    } else {
        reveal_with_fuel(weight, 2);
        assert(order.push(key).skip(1) =~= Seq::empty());
    }
}

proof fn lemma_weight_update(
    order: Seq<Seq<char>>,
    key: Seq<char>,
    sizes: Map<Seq<char>, u64>,
    len: u64,
)
    requires
        order.no_duplicates(),
        order.contains(key),
    ensures
        weight(order, sizes.insert(key, len)) + sizes[key] == weight(order, sizes) + len,
    decreases order.len(),
{
    let rest = order.skip(1);
    if order[0] == key {
        assert forall|i: int| 0 <= i < rest.len() implies sizes.insert(
            key,
            len,
        )[#[trigger] rest[i]] == sizes[rest[i]] by {
            assert(rest[i] == order[i + 1]);
        }
        lemma_weight_frame(rest, sizes.insert(key, len), sizes);
    } else {
        let i = choose|i: int| 0 <= i < order.len() && order[i] == key;
        assert(rest[i - 1] == key);
        assert(rest.no_duplicates());
        lemma_weight_update(rest, key, sizes, len);
    }
}

proof fn lemma_recorded_consistent(
    books: Books,
    key: Seq<char>,
    len: u64,
    mapped: Option<Bytes>,
)
    requires
        books.consistent(),
        books.fits(key, len),
    ensures
        books.recorded(key, len, mapped).consistent(),
{
    let after = books.recorded(key, len, mapped);
    if books.sizes.contains_key(key) {
        lemma_weight_update(books.order, key, books.sizes, len);
        lemma_weight_part(books.order, key, books.sizes);
    } else {
        let order = books.order.push(key);
        assert(!books.order.contains(key));
        assert(after.order.no_duplicates());
        assert forall|k: Seq<char>| #[trigger] after.sizes.contains_key(k)
            <==> after.order.contains(k) by {
            if after.order.contains(k) {
                let i = choose|i: int| 0 <= i < order.len() && order[i] == k;
                if i < books.order.len() {
                    assert(books.order.contains(k));
                }
            }
            if k == key {
                assert(order[books.order.len() as int] == k);
            } else if books.order.contains(k) {
                let i = choose|i: int| 0 <= i < books.order.len() && books.order[i] == k;
                assert(order[i] == k);
            }
        }
        lemma_weight_push(books.order, key, after.sizes);
        assert forall|i: int| 0 <= i < books.order.len() implies after.sizes[#[trigger] books.order[i]]
            == books.sizes[books.order[i]] by {
            assert(books.order.contains(books.order[i]));
        }
        lemma_weight_frame(books.order, after.sizes, books.sizes);
    }
}

/// A listed key weighs no more than all together.
proof fn lemma_weight_part(order: Seq<Seq<char>>, key: Seq<char>, sizes: Map<Seq<char>, u64>)
    requires
        order.contains(key),
    ensures
        sizes[key] <= weight(order, sizes),
    decreases order.len(),
{
    let i = choose|i: int| 0 <= i < order.len() && order[i] == key;
    if i > 0 {
        assert(order.skip(1)[i - 1] == key);
        lemma_weight_part(order.skip(1), key, sizes);
    }
}

proof fn lemma_without_oldest_consistent(books: Books)
    requires
        books.consistent(),
        books.order.len() > 0,
    ensures
        books.without_oldest().consistent(),
{
    let key = books.order[0];
    let after = books.without_oldest();
    let rest = books.order.skip(1);
    assert(books.order.contains(key));
    assert forall|k: Seq<char>| #[trigger] after.sizes.contains_key(k) <==> rest.contains(k) by {
        if rest.contains(k) {
            let i = choose|i: int| 0 <= i < rest.len() && rest[i] == k;
            assert(books.order[i + 1] == k);
            assert(books.order.contains(k));
        }
        if k != key && books.order.contains(k) {
            let i = choose|i: int| 0 <= i < books.order.len() && books.order[i] == k;
            assert(rest[i - 1] == k);
        }
    }
    assert forall|i: int| 0 <= i < rest.len() implies after.sizes[#[trigger] rest[i]]
        == books.sizes[rest[i]] by {
        assert(rest[i] == books.order[i + 1]);
    }
    lemma_weight_frame(rest, after.sizes, books.sizes);
}

proof fn lemma_trimmed(books: Books, budget: u64, gone: Seq<Evicted>)
    requires
        books.consistent(),
    ensures
        books.trimmed(budget, gone).0.consistent(),
        books.trimmed(budget, gone).0.total <= budget,
    decreases books.order.len(),
{
    if books.total > budget && books.order.len() > 0 {
        lemma_without_oldest_consistent(books);
        lemma_trimmed(books.without_oldest(), budget, gone.push(books.oldest()));
    }
}

/// The budget is kept: after a put the books are as consistent as before, and
/// under a budget the accounted total does not exceed it. The law asks that
/// the total still fits its counter.
pub proof fn law_budget_is_kept(
    books: Books,
    key: Seq<char>,
    len: u64,
    mapped: Option<Bytes>,
    budget: u64,
)
    requires
        books.consistent(),
        books.fits(key, len),
    ensures
        books.recorded(key, len, mapped).consistent(),
        books.recorded(key, len, mapped).trimmed(budget, Seq::empty()).0.consistent(),
        books.recorded(key, len, mapped).trimmed(budget, Seq::empty()).0.total <= budget,
{
    lemma_recorded_consistent(books, key, len, mapped);
    lemma_trimmed(books.recorded(key, len, mapped), budget, Seq::empty());
}

proof fn lemma_just_enough(books: Books, budget: u64, gone: Seq<Evicted>)
    requires
        books.consistent(),
    ensures
        ({
            let (kept, out) = books.trimmed(budget, gone);
            let count = out.len() - gone.len();
            &&& count >= 0
            &&& out.take(gone.len() as int) == gone
            &&& books.trims_to(budget, kept, out.skip(gone.len() as int))
        }),
    decreases books.order.len(),
{
    let (kept, out) = books.trimmed(budget, gone);
    if books.total > budget && books.order.len() > 0 {
        let next = books.without_oldest();
        let first = books.order[0];
        let listed = gone.push(books.oldest());
        lemma_without_oldest_consistent(books);
        lemma_just_enough(next, budget, listed);
        let list = out.skip(gone.len() as int);
        let count = list.len() as int;
        let tail = out.skip(listed.len() as int);
        assert(out.take(gone.len() as int) =~= gone) by {
            assert(listed =~= out.take(listed.len() as int));
        }
        assert(list[0] == books.oldest()) by {
            assert(out.take(listed.len() as int)[gone.len() as int] == listed[gone.len() as int]);
        }
        assert(next.order.skip(count - 1) =~= books.order.skip(count));
        assert forall|i: int| 0 <= i < count implies #[trigger] list[i] == books.leaving(
            books.order[i],
        ) by {
            if i > 0 {
                assert(tail[i - 1] == list[i]);
                assert(next.order[i - 1] == books.order[i]);
                assert(books.order[i] != first);
            }
        }
        assert forall|key: Seq<char>| #[trigger] kept.sizes.contains_key(key) implies {
            &&& kept.sizes[key] == books.sizes[key]
            &&& kept.leaving(key) == books.leaving(key)
        } by {
            assert(kept.order.contains(key));
            let i = choose|i: int| 0 <= i < kept.order.len() && kept.order[i] == key;
            assert(books.order[count + i] == key);
            assert(key != first);
        }
        assert forall|i: int| 0 <= i < kept.order.len() implies next.sizes[
            #[trigger] kept.order[i]] == books.sizes[kept.order[i]] by {
            assert(books.order[count + i] != first);
        }
        lemma_weight_frame(kept.order, next.sizes, books.sizes);
        assert forall|m: int| 0 <= m < count implies weight(
            #[trigger] books.order.skip(m),
            books.sizes,
        ) > budget by {
            let part = books.order.skip(m);
            if m == 0 {
                assert(part =~= books.order);
            } else {
                assert(next.order.skip(m - 1) =~= part);
                assert forall|i: int| 0 <= i < part.len() implies next.sizes[#[trigger] part[i]]
                    == books.sizes[part[i]] by {
                    assert(books.order[m + i] != first);
                }
                lemma_weight_frame(part, next.sizes, books.sizes);
            }
        }
    } else {
        assert(out.take(gone.len() as int) =~= gone);
        assert(out.skip(gone.len() as int) =~= Seq::empty());
        assert(books.order.skip(0) =~= books.order);
    }
}

/// Eviction is just enough: what goes is the shortest front part of the order
/// without which the rest fits the budget, and the rest stays as it is.
pub proof fn law_eviction_is_just_enough(books: Books, budget: u64)
    requires
        books.consistent(),
    ensures
        ({
            let (kept, gone) = books.trimmed(budget, Seq::empty());
            &&& kept.consistent()
            &&& books.trims_to(budget, kept, gone)
        }),
{
    lemma_trimmed(books, budget, Seq::empty());
    lemma_just_enough(books, budget, Seq::empty());
    let gone = books.trimmed(budget, Seq::empty()).1;
    assert(gone.skip(0) =~= gone);
}

/// Eviction is first in, first out: what goes is a front part of the order,
/// and what stays is the rest of it.
pub proof fn law_oldest_go_first(books: Books, budget: u64, gone: Seq<Evicted>)
    ensures
        ({
            let (kept, out) = books.trimmed(budget, gone);
            let count = out.len() - gone.len();
            &&& 0 <= count <= books.order.len()
            &&& kept.order == books.order.skip(count)
            &&& forall|i: int| 0 <= i < gone.len() ==> #[trigger] out[i] == gone[i]
            &&& forall|i: int| 0 <= i < count ==> (#[trigger] out[gone.len() + i]).0 == books.order[i]
        }),
    decreases books.order.len(),
{
    if books.total > budget && books.order.len() > 0 {
        let next = books.without_oldest();
        let listed = gone.push(books.oldest());
        law_oldest_go_first(next, budget, listed);
        let (kept, out) = books.trimmed(budget, gone);
        let count = out.len() - gone.len();
        assert(next.order.skip(count - 1) =~= books.order.skip(count));
        assert forall|i: int| 0 <= i < count implies (#[trigger] out[gone.len() + i]).0
            == books.order[i] by {
            if i == 0 {
                assert(out[gone.len() as int] == listed[gone.len() as int]);
            } else {
                assert(out[listed.len() + (i - 1)].0 == next.order[i - 1]);
            }
        }
        assert forall|i: int| 0 <= i < gone.len() implies #[trigger] out[i] == gone[i] by {
            assert(out[i] == listed[i]);
        }
    } else {
        assert(books.order.skip(0) =~= books.order);
    }
}

/// Deleting keeps the books consistent.
pub proof fn law_forgetting_keeps_books_consistent(books: Books, key: Seq<char>)
    requires
        books.consistent(),
    ensures
        books.forgotten(key).consistent(),
{
    let after = books.forgotten(key);
    if books.sizes.contains_key(key) {
        lemma_others(books.order, key, books.sizes);
        assert forall|k: Seq<char>| #[trigger] after.sizes.contains_key(k)
            <==> after.order.contains(k) by {}
        assert forall|i: int| 0 <= i < after.order.len() implies after.sizes[#[trigger] after.order[i]]
            == books.sizes[after.order[i]] by {
            assert(after.order.contains(after.order[i]));
        }
        lemma_weight_frame(after.order, after.sizes, books.sizes);
        lemma_weight_part(books.order, key, books.sizes);
    } else {
        assert(after.sizes =~= books.sizes);
    }
}

pub proof fn lemma_others(order: Seq<Seq<char>>, key: Seq<char>, sizes: Map<Seq<char>, u64>)
    requires
        order.no_duplicates(),
    ensures
        others(order, key).no_duplicates(),
        forall|k: Seq<char>| #[trigger]
            others(order, key).contains(k) <==> order.contains(k) && k != key,
        weight(others(order, key), sizes) + (if order.contains(key) {
            sizes[key] as nat
        } else {
            0
        }) == weight(order, sizes),
    decreases order.len(),
{
    if order.len() > 0 {
        let front = order.drop_last();
        let last = order.last();
        lemma_others(front, key, sizes);
        assert(order =~= front.push(last));
        lemma_weight_push(front, last, sizes);
        assert(!front.contains(last)) by {
            if front.contains(last) {
                let i = choose|i: int| 0 <= i < front.len() && front[i] == last;
                assert(order[i] == order[order.len() - 1]);
            }
        }
        let kept = others(order, key);
        if last != key {
            let before = others(front, key);
            lemma_weight_push(before, last, sizes);
            assert(!before.contains(last));
        }
        assert forall|k: Seq<char>| #[trigger] kept.contains(k) <==> order.contains(k) && k
            != key by {
            assert(order.contains(k) <==> front.contains(k) || k == last) by {
                if front.contains(k) {
                    let i = choose|i: int| 0 <= i < front.len() && front[i] == k;
                    assert(order[i] == k);
                }
                if k == last {
                    assert(order[order.len() - 1] == k);
                }
                if order.contains(k) && k != last {
                    let i = choose|i: int| 0 <= i < order.len() && order[i] == k;
                    assert(front[i] == k);
                }
            }
            if last != key {
                let before = others(front, key);
                assert(kept == before.push(last));
                if before.contains(k) {
                    let i = choose|i: int| 0 <= i < before.len() && before[i] == k;
                    assert(kept[i] == k);
                }
                if k == last {
                    assert(kept[before.len() as int] == k);
                }
                if kept.contains(k) && k != last {
                    let i = choose|i: int| 0 <= i < kept.len() && kept[i] == k;
                    assert(before[i] == k);
                }
            }
        }
        assert(order.contains(key) <==> front.contains(key) || last == key) by {
            if front.contains(key) {
                let i = choose|i: int| 0 <= i < front.len() && front[i] == key;
                assert(order[i] == key);
            }
            if last == key {
                assert(order[order.len() - 1] == key);
            }
            if order.contains(key) && key != last {
                let i = choose|i: int| 0 <= i < order.len() && order[i] == key;
                assert(front[i] == key);
            }
        }
    }
}

proof fn lemma_placed(files: Seq<File>, file: File)
    requires
        forall|i: int, j: int|
            0 <= i <= j < files.len() ==> (#[trigger] files[i]).modified <= (
            #[trigger] files[j]).modified,
    ensures
        placed(files, file).len() == files.len() + 1,
        placed(files, file).to_multiset() == files.to_multiset().insert(file),
        forall|i: int|
            0 <= i < placed(files, file).len() ==> (#[trigger] placed(files, file)[i]).modified
                <= file.modified || (files.len() > 0 && placed(files, file)[i].modified
                <= files.last().modified),
        forall|i: int, j: int|
            0 <= i <= j < files.len() + 1 ==> (#[trigger] placed(files, file)[i]).modified <= (
            #[trigger] placed(files, file)[j]).modified,
    decreases files.len(),
{
    files.to_multiset_ensures();
    if files.len() > 0 && files.last().modified > file.modified {
        let front = files.drop_last();
        lemma_placed(front, file);
        placed(front, file).to_multiset_ensures();
        front.to_multiset_ensures();
        assert(files =~= front.push(files.last()));
        assert(placed(files, file).to_multiset() =~= files.to_multiset().insert(file));
        let after = placed(files, file);
        assert forall|i: int, j: int| 0 <= i <= j < after.len() implies (
        #[trigger] after[i]).modified <= (#[trigger] after[j]).modified by {
            if j == after.len() - 1 && i < j {
                assert(after[i] == placed(front, file)[i]);
                if front.len() > 0 {
                    assert(files[front.len() - 1].modified <= files[files.len() - 1].modified);
                }
            } else if i < j {
                assert(after[i] == placed(front, file)[i]);
                assert(after[j] == placed(front, file)[j]);
            }
        }
    } else {
        let after = files.push(file);
        assert forall|i: int, j: int| 0 <= i <= j < after.len() implies (
        #[trigger] after[i]).modified <= (#[trigger] after[j]).modified by {
            if i < files.len() {
                assert(files[i].modified <= files[files.len() - 1].modified);
            }
        }
    }
}

/// After a reopen the eviction order is by age, and holds every file once.
pub proof fn law_reopened_order_is_by_age(files: Seq<File>)
    ensures
        by_age(files).to_multiset() == files.to_multiset(),
        forall|i: int, j: int|
            0 <= i <= j < by_age(files).len() ==> (#[trigger] by_age(files)[i]).modified <= (
            #[trigger] by_age(files)[j]).modified,
    decreases files.len(),
{
    if files.len() > 0 {
        let front = files.drop_last();
        law_reopened_order_is_by_age(front);
        lemma_placed(by_age(front), files.last());
        front.to_multiset_ensures();
        assert(files =~= front.push(files.last()));
    }
}

/// Whether no two of `files` belong to the same key.
pub open spec fn each_once(files: Seq<File>) -> bool {
    forall|i: int, j: int|
        0 <= i < j < files.len() ==> (#[trigger] files[i]).key != (#[trigger] files[j]).key
}

proof fn lemma_placed_once(files: Seq<File>, file: File)
    requires
        each_once(files),
        forall|i: int| 0 <= i < files.len() ==> (#[trigger] files[i]).key != file.key,
    ensures
        placed(files, file).len() == files.len() + 1,
        each_once(placed(files, file)),
        bulk(placed(files, file)) == bulk(files) + file.len,
        forall|i: int|
            0 <= i < placed(files, file).len() ==> {
                ||| (#[trigger] placed(files, file)[i]).key == file.key
                ||| exists|j: int|
                    0 <= j < files.len() && (#[trigger] files[j]).key == placed(files, file)[i].key
            },
    decreases files.len(),
{
    let after = placed(files, file);
    if files.len() > 0 && files.last().modified > file.modified {
        let front = files.drop_last();
        let last = files.last();
        assert forall|i: int, j: int| 0 <= i < j < front.len() implies (#[trigger] front[i]).key
            != (#[trigger] front[j]).key by {
            assert(files[i].key != files[j].key);
        }
        assert forall|i: int| 0 <= i < front.len() implies (#[trigger] front[i]).key
            != file.key by {
            assert(front[i] == files[i]);
        }
        lemma_placed_once(front, file);
        let inner = placed(front, file);
        assert(after.drop_last() =~= inner);
        assert forall|i: int| 0 <= i < inner.len() implies (#[trigger] inner[i]).key
            != last.key by {
            if inner[i].key != file.key {
                let j = choose|j: int|
                    0 <= j < front.len() && (#[trigger] front[j]).key == inner[i].key;
                assert(files[j].key != files[files.len() - 1].key);
            } else {
                assert(files[files.len() - 1].key != file.key);
            }
        }
        assert forall|i: int, j: int| 0 <= i < j < after.len() implies (#[trigger] after[i]).key
            != (#[trigger] after[j]).key by {
            assert(after[i] == inner[i]);
            if j < inner.len() {
                assert(after[j] == inner[j]);
            }
        }
        assert forall|i: int| 0 <= i < after.len() implies {
            ||| (#[trigger] after[i]).key == file.key
            ||| exists|j: int| 0 <= j < files.len() && (#[trigger] files[j]).key == after[i].key
        } by {
            if i < inner.len() {
                assert(after[i] == inner[i]);
                if inner[i].key != file.key {
                    let j = choose|j: int|
                        0 <= j < front.len() && (#[trigger] front[j]).key == inner[i].key;
                    assert(files[j].key == after[i].key);
                }
            } else {
                assert(files[files.len() - 1].key == after[i].key);
            }
        }
    } else {
        assert(after.drop_last() =~= files);
        assert forall|i: int| 0 <= i < after.len() implies {
            ||| (#[trigger] after[i]).key == file.key
            ||| exists|j: int| 0 <= j < files.len() && (#[trigger] files[j]).key == after[i].key
        } by {
            if i < files.len() {
                assert(files[i].key == after[i].key);
            }
        }
    }
}

/// Sorting by age keeps the files apart, and their bulk.
proof fn lemma_by_age(files: Seq<File>)
    requires
        each_once(files),
    ensures
        by_age(files).len() == files.len(),
        each_once(by_age(files)),
        bulk(by_age(files)) == bulk(files),
        forall|i: int|
            0 <= i < by_age(files).len() ==> exists|j: int|
                0 <= j < files.len() && (#[trigger] files[j]).key == (
                #[trigger] by_age(files)[i]).key,
    decreases files.len(),
{
    if files.len() > 0 {
        let front = files.drop_last();
        let last = files.last();
        assert forall|i: int, j: int| 0 <= i < j < front.len() implies (#[trigger] front[i]).key
            != (#[trigger] front[j]).key by {
            assert(files[i].key != files[j].key);
        }
        lemma_by_age(front);
        let sorted = by_age(front);
        assert forall|i: int| 0 <= i < sorted.len() implies (#[trigger] sorted[i]).key
            != last.key by {
            let j = choose|j: int| 0 <= j < front.len() && (#[trigger] front[j]).key == sorted[i].key;
            assert(files[j].key != files[files.len() - 1].key);
        }
        lemma_placed_once(sorted, last);
        let after = by_age(files);
        assert forall|i: int| 0 <= i < after.len() implies exists|j: int|
            0 <= j < files.len() && (#[trigger] files[j]).key == (#[trigger] after[i]).key by {
            if after[i].key == last.key {
                assert(files[files.len() - 1].key == after[i].key);
            } else {
                let k = choose|k: int|
                    0 <= k < sorted.len() && (#[trigger] sorted[k]).key == after[i].key;
                let j = choose|j: int|
                    0 <= j < front.len() && (#[trigger] front[j]).key == sorted[k].key;
                assert(files[j].key == after[i].key);
            }
        }
    }
}

/// Accounting survives a reopen: the books of a directory in which no key
/// stands twice are consistent. The law asks that the total fits its counter.
pub proof fn law_reopened_books_are_consistent(files: Seq<File>)
    requires
        each_once(files),
        bulk(files) <= u64::MAX,
    ensures
        booked(files).consistent(),
        booked(files).total == bulk(files),
        booked(files).order == files.map_values(|file: File| file.key),
    decreases files.len(),
{
    if files.len() > 0 {
        let front = files.drop_last();
        let file = files.last();
        assert forall|i: int, j: int| 0 <= i < j < front.len() implies (#[trigger] front[i]).key
            != (#[trigger] front[j]).key by {
            assert(files[i].key != files[j].key);
        }
        law_reopened_books_are_consistent(front);
        let before = booked(front);
        assert(!before.sizes.contains_key(file.key)) by {
            if before.order.contains(file.key) {
                let i = choose|i: int| 0 <= i < before.order.len() && before.order[i] == file.key;
                assert(front[i].key == file.key);
                assert(files[i].key != files[files.len() - 1].key);
            }
        }
        lemma_recorded_consistent(before, file.key, file.len, None);
        assert(booked(files) =~= before.recorded(file.key, file.len, None));
        assert(booked(files).order =~= files.map_values(|file: File| file.key));
    } else {
        assert(booked(files).order =~= files.map_values(|file: File| file.key));
    }
}

/// The sum of the lengths of `files`.
pub open spec fn bulk(files: Seq<File>) -> nat
    decreases files.len(),
{
    if files.len() == 0 {
        0
    } else {
        bulk(files.drop_last()) + files.last().len as nat
    }
}

/// Taking a key out of an order leaves the others in their order.
pub proof fn law_others_are_kept_in_order(order: Seq<Seq<char>>, key: Seq<char>)
    ensures
        others(order, key) == order.filter(|other: Seq<char>| other != key),
    decreases order.len(),
{
    reveal(Seq::filter);
    if order.len() > 0 {
        law_others_are_kept_in_order(order.drop_last(), key);
    }
}

/// Forgetting a key leaves every other key accounted as it was: its size and its
/// mapping stay, and so does its place among the others in the order. The key
/// itself is gone, and the total shrinks by its size, or not at all if it was not
/// accounted; in consistent books by exactly that.
pub proof fn law_forgetting_touches_one_key(books: Books, key: Seq<char>)
    ensures
        ({
            let after = books.forgotten(key);
            let size = if books.sizes.contains_key(key) {
                books.sizes[key] as int
            } else {
                0
            };
            &&& !after.sizes.contains_key(key)
            &&& !after.maps.contains_key(key)
            &&& forall|other: Seq<char>|
                other != key ==> (#[trigger] after.sizes.contains_key(other)
                    <==> books.sizes.contains_key(other))
            &&& forall|other: Seq<char>|
                other != key && books.sizes.contains_key(other) ==> #[trigger] after.sizes[other]
                    == books.sizes[other]
            &&& forall|other: Seq<char>|
                other != key ==> (#[trigger] after.maps.contains_key(other)
                    <==> books.maps.contains_key(other))
            &&& forall|other: Seq<char>|
                other != key && books.maps.contains_key(other) ==> #[trigger] after.maps[other]
                    == books.maps[other]
            &&& books.sizes.contains_key(key) || books.consistent() ==> after.order
                == books.order.filter(|other: Seq<char>| other != key)
            &&& !books.sizes.contains_key(key) ==> after.order == books.order
            &&& size <= books.total ==> after.total == books.total - size
            &&& size > books.total ==> after.total == 0
            &&& books.consistent() ==> size <= books.total
        }),
{
    law_others_are_kept_in_order(books.order, key);
    if books.consistent() {
        if books.sizes.contains_key(key) {
            lemma_weight_part(books.order, key, books.sizes);
        } else {
            lemma_absent(books.order, key);
        }
    }
}

proof fn lemma_absent(order: Seq<Seq<char>>, key: Seq<char>)
    requires
        !order.contains(key),
    ensures
        others(order, key) == order,
    decreases order.len(),
{
    if order.len() > 0 {
        let front = order.drop_last();
        assert(order[order.len() - 1] != key);
        if front.contains(key) {
            assert(order[front.index_of(key)] == key);
        }
        lemma_absent(front, key);
        assert(front.push(order.last()) =~= order);
    } else {
        assert(others(order, key) =~= order);
    }
}

/// A put, before anything is evicted, accounts one entry: the key has the new
/// length, and the new mapping if there is one; every other key stays as it was.
/// A key that was accounted keeps its place in the order, a new one comes last.
/// The total shrinks by the old length and grows by the new one, as far as it can
/// be counted.
pub proof fn law_puts_account_one_entry(
    books: Books,
    key: Seq<char>,
    len: u64,
    mapped: Option<Bytes>,
)
    ensures
        ({
            let after = books.recorded(key, len, mapped);
            let replaced = if books.sizes.contains_key(key) {
                books.sizes[key] as int
            } else {
                0
            };
            let rest = if replaced <= books.total {
                books.total - replaced
            } else {
                0
            };
            &&& after.sizes.contains_key(key)
            &&& after.sizes[key] == len
            &&& mapped is Some ==> after.maps.contains_key(key) && Some(after.maps[key]) == mapped
            &&& mapped is None ==> after.maps == books.maps
            &&& forall|other: Seq<char>|
                other != key ==> (#[trigger] after.sizes.contains_key(other)
                    <==> books.sizes.contains_key(other))
            &&& forall|other: Seq<char>|
                other != key && books.sizes.contains_key(other) ==> #[trigger] after.sizes[other]
                    == books.sizes[other]
            &&& forall|other: Seq<char>|
                other != key ==> (#[trigger] after.maps.contains_key(other)
                    <==> books.maps.contains_key(other))
            &&& forall|other: Seq<char>|
                other != key && books.maps.contains_key(other) ==> #[trigger] after.maps[other]
                    == books.maps[other]
            &&& after.order == if books.sizes.contains_key(key) {
                books.order
            } else {
                books.order.push(key)
            }
            &&& rest + len <= u64::MAX ==> after.total == rest + len
            &&& rest + len > u64::MAX ==> after.total == u64::MAX
            &&& books.consistent() ==> replaced <= books.total
        }),
{
    if books.consistent() && books.sizes.contains_key(key) {
        lemma_weight_part(books.order, key, books.sizes);
    }
}

/// What eviction takes and what it leaves. The oldest entries go, each with the
/// mapping that it has, and no more of them than must: what stays is within the
/// budget, and with the last one that went it would not be. The others keep
/// their sizes, their mappings and their order.
pub proof fn law_evictions_take_the_oldest_and_no_more(books: Books, budget: u64)
    requires
        books.consistent(),
    ensures
        ({
            let (kept, gone) = books.trimmed(budget, Seq::empty());
            let count = gone.len() as int;
            &&& count <= books.order.len()
            &&& forall|i: int|
                0 <= i < count ==> (#[trigger] gone[i]).0 == books.order[i] && match gone[i].1 {
                    Some(bytes) => books.maps.contains_key(books.order[i])
                        && books.maps[books.order[i]] == bytes,
                    None => !books.maps.contains_key(books.order[i]),
                }
            &&& kept.order == books.order.skip(count)
            &&& kept.total <= budget
            &&& count > 0 ==> kept.total + books.sizes[books.order[count - 1]] > budget
            &&& forall|key: Seq<char>| #[trigger]
                kept.sizes.contains_key(key) <==> kept.order.contains(key)
            &&& forall|key: Seq<char>| #[trigger]
                kept.sizes.contains_key(key) ==> {
                    &&& kept.sizes[key] == books.sizes[key]
                    &&& kept.maps.contains_key(key) <==> books.maps.contains_key(key)
                    &&& kept.maps.contains_key(key) ==> kept.maps[key] == books.maps[key]
                }
        }),
{
    law_eviction_is_just_enough(books, budget);
    let (kept, gone) = books.trimmed(budget, Seq::empty());
    let count = gone.len() as int;
    assert forall|i: int| 0 <= i < count implies (#[trigger] gone[i]).0 == books.order[i]
        && match gone[i].1 {
        Some(bytes) => books.maps.contains_key(books.order[i]) && books.maps[books.order[i]]
            == bytes,
        None => !books.maps.contains_key(books.order[i]),
    } by {
        assert(gone[i] == books.leaving(books.order[i]));
    }
    if count > 0 {
        let part = books.order.skip(count - 1);
        assert(weight(part, books.sizes) > budget);
        assert(part[0] == books.order[count - 1]);
        assert(part.skip(1) =~= books.order.skip(count));
    }
    assert forall|key: Seq<char>| #[trigger] kept.sizes.contains_key(key) implies {
        &&& kept.sizes[key] == books.sizes[key]
        &&& kept.maps.contains_key(key) <==> books.maps.contains_key(key)
        &&& kept.maps.contains_key(key) ==> kept.maps[key] == books.maps[key]
    } by {
        assert(kept.leaving(key) == books.leaving(key));
    }
}

/// A tier that is opened accounts every file that it finds with its length, and
/// nothing else; it has mapped none of them yet. The older of two files stands
/// first in the order. The law asks that no key stands twice.
pub proof fn law_reopened_tiers_account_every_file(files: Seq<File>)
    requires
        each_once(files),
    ensures
        ({
            let books = booked(by_age(files));
            &&& books.maps == Map::<Seq<char>, Bytes>::empty()
            &&& books.order.len() == files.len()
            &&& forall|i: int|
                0 <= i < files.len() ==> books.sizes.contains_key((#[trigger] files[i]).key)
                    && books.sizes[files[i].key] == files[i].len
            &&& forall|key: Seq<char>| #[trigger]
                books.sizes.contains_key(key) ==> exists|i: int|
                    0 <= i < files.len() && (#[trigger] files[i]).key == key
            &&& forall|p: int, q: int|
                0 <= p < q < books.order.len() ==> exists|i: int, j: int|
                    0 <= i < files.len() && 0 <= j < files.len() && (#[trigger] files[i]).key
                        == #[trigger] books.order[p] && (#[trigger] files[j]).key
                        == #[trigger] books.order[q] && files[i].modified <= files[j].modified
        }),
{
    let sorted = by_age(files);
    let books = booked(sorted);
    lemma_by_age(files);
    law_reopened_order_is_by_age(files);
    lemma_booked(sorted);
    files.to_multiset_ensures();
    sorted.to_multiset_ensures();
    assert forall|i: int| 0 <= i < files.len() implies sorted.contains(#[trigger] files[i]) by {
        assert(files.contains(files[i]));
        assert(files.to_multiset().contains(files[i]));
        assert(sorted.to_multiset().contains(files[i]));
    }
    assert forall|p: int| 0 <= p < sorted.len() implies files.contains(#[trigger] sorted[p]) by {
        assert(sorted.contains(sorted[p]));
        assert(sorted.to_multiset().contains(sorted[p]));
        assert(files.to_multiset().contains(sorted[p]));
    }
    assert forall|i: int| 0 <= i < files.len() implies books.sizes.contains_key(
        (#[trigger] files[i]).key,
    ) && books.sizes[files[i].key] == files[i].len by {
        let p = sorted.index_of(files[i]);
        assert(sorted.contains(files[i]));
        assert(sorted[p] == files[i]);
    }
    assert forall|key: Seq<char>| #[trigger] books.sizes.contains_key(key) implies exists|i: int|
        0 <= i < files.len() && (#[trigger] files[i]).key == key by {
        let p = choose|p: int| 0 <= p < sorted.len() && (#[trigger] sorted[p]).key == key;
        assert(files.contains(sorted[p]));
        assert(files[files.index_of(sorted[p])].key == key);
    }
    assert forall|p: int, q: int| 0 <= p < q < books.order.len() implies exists|i: int, j: int|
        0 <= i < files.len() && 0 <= j < files.len() && (#[trigger] files[i]).key
            == #[trigger] books.order[p] && (#[trigger] files[j]).key == #[trigger] books.order[q]
            && files[i].modified <= files[j].modified by {
        assert(books.order[p] == sorted[p].key);
        assert(books.order[q] == sorted[q].key);
        assert(files.contains(sorted[p]) && files.contains(sorted[q]));
        let i = files.index_of(sorted[p]);
        let j = files.index_of(sorted[q]);
        assert(files[i] == sorted[p] && files[j] == sorted[q]);
        assert(files[i].key == books.order[p] && files[j].key == books.order[q]);
    }
}

proof fn lemma_booked(files: Seq<File>)
    requires
        each_once(files),
    ensures
        booked(files).maps == Map::<Seq<char>, Bytes>::empty(),
        booked(files).order.len() == files.len(),
        forall|i: int|
            0 <= i < files.len() ==> {
                &&& booked(files).sizes.contains_key((#[trigger] files[i]).key)
                &&& booked(files).sizes[files[i].key] == files[i].len
                &&& booked(files).order[i] == files[i].key
            },
        forall|key: Seq<char>| #[trigger]
            booked(files).sizes.contains_key(key) ==> exists|i: int|
                0 <= i < files.len() && (#[trigger] files[i]).key == key,
    decreases files.len(),
{
    if files.len() > 0 {
        let front = files.drop_last();
        let last = files.len() - 1;
        assert forall|i: int, j: int| 0 <= i < j < front.len() implies (#[trigger] front[i]).key
            != (#[trigger] front[j]).key by {
            assert(files[i].key != files[j].key);
        }
        lemma_booked(front);
        assert forall|i: int| 0 <= i < files.len() implies {
            &&& booked(files).sizes.contains_key((#[trigger] files[i]).key)
            &&& booked(files).sizes[files[i].key] == files[i].len
            &&& booked(files).order[i] == files[i].key
        } by {
            if i < last {
                assert(front[i] == files[i]);
                assert(files[i].key != files[last].key);
            }
        }
        assert forall|key: Seq<char>| #[trigger]
            booked(files).sizes.contains_key(key) implies exists|i: int|
            0 <= i < files.len() && (#[trigger] files[i]).key == key by {
            if key == files[last].key {
                assert(files[last].key == key);
            } else {
                let i = choose|i: int| 0 <= i < front.len() && (#[trigger] front[i]).key == key;
                assert(files[i].key == key);
            }
        }
    }
}

/// One more file adds its length to the total.
pub proof fn law_each_file_adds_its_length(files: Seq<File>, file: File)
    requires
        booked(files).total + file.len <= u64::MAX,
    ensures
        booked(Seq::empty()).total == 0,
        booked(files.push(file)).total == booked(files).total + file.len,
{
    assert(files.push(file).drop_last() =~= files);
}

/// What an eviction displaces are the evicted entries that are mapped, in order;
/// the others have no value to hand on.
pub proof fn law_mapped_evictions_are_displaced(gone: Seq<(String, Option<Bytes>)>)
    ensures
        rescued(gone) == gone.filter(
            |entry: (String, Option<Bytes>)| entry.1 is Some,
        ).map_values(|entry: (String, Option<Bytes>)| (entry.0, entry.1->0)),
    decreases gone.len(),
{
    reveal(Seq::filter);
    let mapped = |entry: (String, Option<Bytes>)| entry.1 is Some;
    let value = |entry: (String, Option<Bytes>)| (entry.0, entry.1->0);
    if gone.len() > 0 {
        law_mapped_evictions_are_displaced(gone.drop_last());
        assert(rescued(gone) =~= gone.filter(mapped).map_values(value));
    } else {
        assert(rescued(gone) =~= gone.filter(mapped).map_values(value));
    }
}

/// A ranged read gives exactly the bytes of the range, where all of them are
/// there; and says whether it is the range that is too large to be stated, or
/// out of bounds.
pub proof fn law_ranges_are_exact(bytes: Seq<u8>, range: Range<u64>)
    ensures
        match sliced(bytes, range) {
            Ok(part) => {
                &&& range.start <= range.end <= bytes.len()
                &&& part.len() == range.end - range.start
                &&& forall|i: int|
                    0 <= i < part.len() ==> #[trigger] part[i] == bytes[range.start + i]
            },
            Err(RangeError::TooLarge) => range.start > usize::MAX || range.end > usize::MAX,
            Err(RangeError::OutOfBounds) => range.start <= usize::MAX && range.end <= usize::MAX && (
            range.start > range.end || range.end > bytes.len()),
            Err(_) => false,
        },
{
}

} // verus!
