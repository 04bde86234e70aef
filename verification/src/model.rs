//! The data that the scanners read and return.

use vstd::prelude::*;

verus! {

/// Nanoseconds in one second.
pub const NANOS_PER_SECOND: u32 = 1_000_000_000;

/// A point in time: `secs` whole seconds after the Unix epoch (negative before
/// it) and `nanos` further nanoseconds, which a clock keeps below one second.
#[derive(Copy, Debug, PartialEq, Eq, Structural)]
pub struct Timestamp {
    pub secs: i64,
    pub nanos: u32,
}

impl Clone for Timestamp {
    fn clone(&self) -> (copy: Self)
        ensures
            copy == *self,
    {
        Timestamp { secs: self.secs, nanos: self.nanos }
    }
}

impl Timestamp {
    /// Nanoseconds between the Unix epoch and this point in time.
    pub open spec fn nanos_since_epoch(self) -> int {
        self.secs * NANOS_PER_SECOND + self.nanos
    }

    /// The point in time `secs` seconds and `nanos` nanoseconds after the Unix
    /// epoch, where `nanos` is less than a second and the time stamp can hold
    /// the seconds.
    pub fn after_epoch(secs: u64, nanos: u32) -> (stamp: Option<Timestamp>)
        ensures
            stamp is Some == (secs <= i64::MAX && nanos < NANOS_PER_SECOND),
            stamp is Some ==> stamp->0.nanos_since_epoch() == secs * NANOS_PER_SECOND + nanos,
            stamp is Some ==> stamp->0.nanos < NANOS_PER_SECOND,
    {
        if secs > i64::MAX as u64 || nanos >= NANOS_PER_SECOND {
            return None;
        }
        Some(Timestamp { secs: secs as i64, nanos })
    }

    /// The point in time `secs` seconds and `nanos` nanoseconds before the Unix
    /// epoch, where `nanos` is less than a second and the time stamp can hold
    /// the seconds.
    pub fn before_epoch(secs: u64, nanos: u32) -> (stamp: Option<Timestamp>)
        ensures
            stamp is Some == (nanos < NANOS_PER_SECOND && secs + (if nanos > 0 {
                1int
            } else {
                0int
            }) <= -(i64::MIN as int)),
            stamp is Some ==> stamp->0.nanos_since_epoch() == -(secs * NANOS_PER_SECOND + nanos),
            stamp is Some ==> stamp->0.nanos < NANOS_PER_SECOND,
    {
        if nanos >= NANOS_PER_SECOND {
            return None;
        }
        if nanos == 0 {
            if secs > 0x8000_0000_0000_0000 {
                return None;
            }
            let whole: i128 = -(secs as i128);
            Some(Timestamp { secs: whole as i64, nanos: 0 })
        } else {
            if secs >= 0x8000_0000_0000_0000 {
                return None;
            }
            let whole: i128 = -(secs as i128) - 1;
            Some(Timestamp { secs: whole as i64, nanos: NANOS_PER_SECOND - nanos })
        }
    }

    /// Nanoseconds between the Unix epoch and this point in time.
    pub fn to_nanos(&self) -> (total: i128)
        ensures
            total == self.nanos_since_epoch(),
    {
        self.secs as i128 * (NANOS_PER_SECOND as i128) + self.nanos as i128
    }
}

/// What kind of thing a walker found at a path. A symbolic link is `Other`,
/// whatever it points to: links are never followed.
#[derive(Copy, Debug, PartialEq, Eq, Structural)]
pub enum EntryKind {
    File,
    Directory,
    Other,
}

impl Clone for EntryKind {
    fn clone(&self) -> (copy: Self)
        ensures
            copy == *self,
    {
        *self
    }
}

/// One entry of a listing.
///
/// `depth` counts the path components below the root of the walk (the root
/// itself has depth 0). `size`, `accessed` and `modified` are `None` where the
/// file system would not tell. `digest` is the lower-case hexadecimal SHA-256
/// digest of a file's content once somebody has read the file, and `None`
/// before that or when the file could not be read.
#[derive(Debug, PartialEq, Eq)]
pub struct WalkEntry {
    pub path: String,
    pub depth: usize,
    pub kind: EntryKind,
    pub size: Option<u64>,
    pub accessed: Option<Timestamp>,
    pub modified: Option<Timestamp>,
    pub digest: Option<String>,
}

impl Clone for WalkEntry {
    fn clone(&self) -> (copy: Self)
        ensures
            copy == *self,
    {
        WalkEntry {
            path: self.path.clone(),
            depth: self.depth,
            kind: self.kind,
            size: self.size,
            accessed: self.accessed,
            modified: self.modified,
            digest: match &self.digest {
                Some(digest) => Some(digest.clone()),
                None => None,
            },
        }
    }
}

/// A regular file that a scan reports.
#[derive(Debug, PartialEq, Eq)]
pub struct FileInfo {
    pub path: String,
    pub size: u64,
    pub last_accessed: Timestamp,
    pub last_modified: Timestamp,
}

/// What a `FileInfo` stands for in contracts.
pub struct FileRecord {
    pub path: Seq<char>,
    pub size: u64,
    pub last_accessed: Timestamp,
    pub last_modified: Timestamp,
}

impl View for FileInfo {
    type V = FileRecord;

    open spec fn view(&self) -> FileRecord {
        FileRecord {
            path: self.path@,
            size: self.size,
            last_accessed: self.last_accessed,
            last_modified: self.last_modified,
        }
    }
}

impl DeepView for FileInfo {
    type V = FileRecord;

    open spec fn deep_view(&self) -> FileRecord {
        self@
    }
}

impl Clone for FileInfo {
    fn clone(&self) -> (copy: Self)
        ensures
            copy == *self,
    {
        FileInfo {
            path: self.path.clone(),
            size: self.size,
            last_accessed: self.last_accessed,
            last_modified: self.last_modified,
        }
    }
}

/// A directory that a well-known tool fills with data it can make again.
#[derive(Debug, PartialEq, Eq)]
pub struct CacheInfo {
    pub path: String,
    pub cache_type: String,
    pub size: u64,
}

/// What a `CacheInfo` stands for in contracts.
pub struct CacheRecord {
    pub path: Seq<char>,
    pub cache_type: Seq<char>,
    pub size: u64,
}

impl View for CacheInfo {
    type V = CacheRecord;

    open spec fn view(&self) -> CacheRecord {
        CacheRecord { path: self.path@, cache_type: self.cache_type@, size: self.size }
    }
}

impl DeepView for CacheInfo {
    type V = CacheRecord;

    open spec fn deep_view(&self) -> CacheRecord {
        self@
    }
}

impl Clone for CacheInfo {
    fn clone(&self) -> (copy: Self)
        ensures
            copy == *self,
    {
        CacheInfo { path: self.path.clone(), cache_type: self.cache_type.clone(), size: self.size }
    }
}

/// A byte count as the library reports it: exact while it fits, the largest
/// number that fits beyond that.
pub open spec fn capped(total: nat) -> u64 {
    if total <= u64::MAX {
        total as u64
    } else {
        u64::MAX
    }
}

/// The UTF-8 bytes of a text. The rules on paths and on answers compare bytes.
pub open spec fn utf8_bytes(text: Seq<char>) -> Seq<u8> {
    vstd::utf8::encode_utf8(text)
}

impl WalkEntry {
    /// The entry is a regular file whose size and both time stamps are known.
    pub open spec fn is_complete_file(self) -> bool {
        &&& self.kind == EntryKind::File
        &&& self.size is Some
        &&& self.accessed is Some
        &&& self.modified is Some
    }

    /// The record that a scan reports for a complete file.
    pub open spec fn record(self) -> FileRecord
        recommends
            self.is_complete_file(),
    {
        FileRecord {
            path: self.path@,
            size: self.size->0,
            last_accessed: self.accessed->0,
            last_modified: self.modified->0,
        }
    }

    /// Whether the entry is a regular file whose size and both time stamps are
    /// known.
    pub fn complete_file(&self) -> (complete: bool)
        ensures
            complete == self.is_complete_file(),
    {
        self.kind == EntryKind::File && self.size.is_some() && self.accessed.is_some()
            && self.modified.is_some()
    }

    /// The record of a complete file, with a copy of its path; `None` for any
    /// other entry.
    pub fn to_file_info(&self) -> (info: Option<FileInfo>)
        ensures
            info is Some == self.is_complete_file(),
            info is Some ==> info->0@ == self.record(),
    {
        if !self.complete_file() {
            return None;
        }
        Some(
            FileInfo {
                path: self.path.clone(),
                size: self.size.unwrap(),
                last_accessed: self.accessed.unwrap(),
                last_modified: self.modified.unwrap(),
            },
        )
    }
}

} // verus!
