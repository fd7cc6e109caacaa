//! On-disk tier: the "warm" layer.
//!
//! One file per key under a root directory. This module decides where a key
//! lives, which names in the directory are keys, and whether a ranged read
//! makes sense; reading and writing files is left to the driver.

use std::ops::Range;
use std::path::PathBuf;
use vstd::prelude::*;

use crate::names;
use crate::tier::Page;

verus! {

/// [`std::path::PathBuf`], carried through unseen.
#[verifier::external_type_specification]
#[verifier::external_body]
pub struct ExPathBuf(std::path::PathBuf);

/// File-per-key tier under a root directory.
///
/// Keys are hex-encoded into file names (see
/// [`file_name`](crate::names::file_name)); values are raw bytes. The tier is
/// unbounded: it never displaces.
pub struct DiskTier {
    root: PathBuf,
}

/// Why a ranged read was refused.
#[derive(Debug, Clone, Copy, PartialEq, Eq, Structural)]
pub enum RangeError {
    /// The range ends before it starts.
    Inverted,
    /// The range cannot be addressed on this machine.
    TooLarge,
    /// The range does not lie within the value.
    OutOfBounds,
}

impl RangeError {
    /// The error in words.
    pub open spec fn words(self) -> Seq<char> {
        match self {
            RangeError::Inverted => "inverted range"@,
            RangeError::TooLarge => "range too large"@,
            RangeError::OutOfBounds => "range out of bounds"@,
        }
    }

    /// The error in words.
    #[must_use]
    pub fn message(self) -> (message: &'static str)
        ensures
            message@ == self.words(),
    {
        match self {
            RangeError::Inverted => "inverted range",
            RangeError::TooLarge => "range too large",
            RangeError::OutOfBounds => "range out of bounds",
        }
    }
}

impl DiskTier {
    /// The tier's root directory.
    pub closed spec fn directory(&self) -> PathBuf {
        self.root
    }

    /// A tier over the existing directory `root`.
    #[must_use]
    pub fn new(root: PathBuf) -> (tier: Self)
        ensures
            tier.directory() == root,
    {
        DiskTier { root }
    }

    /// The tier's root directory.
    #[must_use]
    pub fn root(&self) -> (root: &PathBuf)
        ensures
            *root == self.directory(),
    {
        &self.root
    }

    /// Which bytes a read of exactly `range` takes from a value: where they
    /// start, and how many they are. `value_len` is the value's length, or
    /// `None` if the key is missing, which then has no bytes to read.
    pub fn read_range(&self, range: Range<u64>, value_len: Option<u64>) -> (bytes: Result<
        Option<(u64, usize)>,
        RangeError,
    >)
        ensures
            bytes == match value_len {
                Some(value_len) => match within(range, value_len) {
                    Ok(len) => Ok(Some((range.start, len))),
                    Err(error) => Err(error),
                },
                None => if range.start > range.end {
                    Err(RangeError::Inverted)
                } else {
                    Ok(None)
                },
            },
    {
        let start: u64 = range.start;
        match value_len {
            Some(value_len) => match range_within(range, value_len) {
                Ok(len) => Ok(Some((start, len))),
                Err(error) => Err(error),
            },
            None => if range.start > range.end {
                Err(RangeError::Inverted)
            } else {
                Ok(None)
            },
        }
    }

    /// One page of the keys under the root, of which `names` are the file
    /// names.
    #[must_use]
    pub fn list(&self, names: Vec<String>, cursor: Option<usize>, limit: usize) -> (page: Page<
        String,
        usize,
    >)
        ensures
            page.keys@.len() <= limit,
            names::page_of(names::listing(names@), names::offset_of(cursor), limit, page),
    {
        names::list_page(names, cursor, limit)
    }
}

/// How many bytes of a value of `value_len` bytes a read of exactly `range`
/// returns.
pub open spec fn within(range: Range<u64>, value_len: u64) -> Result<usize, RangeError> {
    if range.start > range.end {
        Err(RangeError::Inverted)
    } else if range.end > value_len {
        Err(RangeError::OutOfBounds)
    } else if range.end - range.start > usize::MAX {
        Err(RangeError::TooLarge)
    } else {
        Ok((range.end - range.start) as usize)
    }
}

/// How many bytes of a value of `value_len` bytes a read of exactly `range`
/// returns. A range that does not lie fully within the value is an error, not a
/// truncation.
pub fn range_within(range: Range<u64>, value_len: u64) -> (len: Result<usize, RangeError>)
    ensures
        len == within(range, value_len),
        len is Ok <==> range.start <= range.end <= value_len && range.end - range.start
            <= usize::MAX,
{
    if range.start <= range.end && range.end > value_len {
        return Err(RangeError::OutOfBounds);
    }
    range_len(range)
}

/// How many bytes a read of exactly `range` returns.
pub fn range_len(range: Range<u64>) -> (len: Result<usize, RangeError>)
    ensures
        len == if range.start > range.end {
            Err(RangeError::Inverted)
        } else if range.end - range.start > usize::MAX {
            Err(RangeError::TooLarge)
        } else {
            Ok((range.end - range.start) as usize)
        },
{
    if range.start > range.end {
        return Err(RangeError::Inverted);
    }
    let len: u64 = range.end - range.start;
    if len > usize::MAX as u64 {
        return Err(RangeError::TooLarge);
    }
    Ok(len as usize)
}

/// A ranged read is exact: it takes all bytes of the range or none. It is refused
/// as inverted if the range ends before it starts, as out of bounds if it ends
/// behind the value, and as too large if there are more bytes than can be
/// addressed.
pub proof fn law_ranged_reads_take_all_or_nothing(range: Range<u64>, value_len: u64)
    ensures
        match within(range, value_len) {
            Ok(len) => range.start <= range.end <= value_len && len == range.end - range.start,
            Err(RangeError::Inverted) => range.start > range.end,
            Err(RangeError::OutOfBounds) => range.start <= range.end && range.end > value_len,
            Err(RangeError::TooLarge) => range.start <= range.end <= value_len && range.end
                - range.start > usize::MAX,
        },
{
}

} // verus!
