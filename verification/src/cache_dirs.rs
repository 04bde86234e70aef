//! The cache-directory scan.
//!
//! A directory is a cache directory when its path ends with one of a fixed list
//! of patterns; the first pattern that fits gives the label. What it would free
//! is the size of all regular files beneath it. Directories deeper than a fixed
//! number of levels are not looked at.

use vstd::prelude::*;
use crate::model::{capped, utf8_bytes, CacheInfo, CacheRecord, EntryKind, WalkEntry};
use crate::path_filter::{beneath, lies_beneath};
use crate::positions::{lemma_positions_complete, lemma_positions_sound, positions_where};
use crate::ranking::{
    arranged, descending_order, lemma_arranged_keeps_items, lemma_ranking_is_ranked, precedes, ranking,
};
use crate::walker::{is_walked, walked};

verus! {

/// Directories deeper below the root than this are not looked at.
pub const CACHE_DEPTH_LIMIT: usize = 6;

/// The patterns with their labels, in the order in which they are tried.
pub open spec fn cache_patterns() -> Seq<(Seq<char>, Seq<char>)> {
    seq![
        ("node_modules"@, "npm/yarn"@),
        ("target"@, "Rust/Cargo"@),
        (".cache"@, "System cache"@),
        ("__pycache__"@, "Python"@),
        (".npm"@, "npm cache"@),
        (".cargo/registry"@, "Cargo registry"@),
        (".pip"@, "pip cache"@),
        ("dist"@, "Build output"@),
        ("build"@, "Build output"@),
        (".gradle"@, "Gradle cache"@),
        (".m2/repository"@, "Maven cache"@),
    ]
}

/// `path` ends with `pattern`.
pub open spec fn ends_with(path: Seq<u8>, pattern: Seq<u8>) -> bool {
    &&& pattern.len() <= path.len()
    &&& path.subrange(path.len() - pattern.len(), path.len() as int) == pattern
}

/// `path` ends with the pattern number `k`.
pub open spec fn fits_pattern(path: Seq<u8>, k: int) -> bool {
    &&& 0 <= k < cache_patterns().len()
    &&& ends_with(path, utf8_bytes(cache_patterns()[k].0))
}

/// The number of the first pattern from number `from` on that `path` ends
/// with.
pub open spec fn first_fit(path: Seq<u8>, from: int) -> Option<int>
    decreases cache_patterns().len() - from,
{
    if from < 0 || from >= cache_patterns().len() {
        None
    } else if fits_pattern(path, from) {
        Some(from)
    } else {
        first_fit(path, from + 1)
    }
}

/// The label of the first pattern that `path` ends with.
pub open spec fn cache_label(path: Seq<u8>) -> Option<Seq<char>> {
    match first_fit(path, 0) {
        Some(k) => Some(cache_patterns()[k].1),
        None => None,
    }
}

/// What the entry at `at` adds to the size of the directory `dir`: its size if
/// it is a regular file of known size beneath `dir`, else nothing.
pub open spec fn payload(entries: Seq<WalkEntry>, at: int, dir: Seq<u8>) -> nat {
    let entry = entries[at];
    if entry.kind == EntryKind::File && entry.size is Some && lies_beneath(
        utf8_bytes(entry.path@),
        dir,
    ) {
        entry.size->0 as nat
    } else {
        0
    }
}

/// The size of the regular files beneath `dir` among the first `limit` entries.
pub open spec fn tree_size_upto(entries: Seq<WalkEntry>, dir: Seq<u8>, limit: nat) -> nat
    decreases limit,
{
    if limit == 0 {
        0
    } else {
        tree_size_upto(entries, dir, (limit - 1) as nat) + payload(entries, limit - 1, dir)
    }
}

/// The size of all regular files of the listing beneath `dir`.
pub open spec fn tree_size(entries: Seq<WalkEntry>, dir: Seq<u8>) -> nat {
    tree_size_upto(entries, dir, entries.len())
}

/// A walk bounded at the depth limit comes by the entry at `at`, and it is a
/// cache directory that holds at least one byte.
pub open spec fn is_cache_dir(entries: Seq<WalkEntry>, at: int) -> bool {
    &&& 0 <= at < entries.len()
    &&& is_walked(entries[at], Some(CACHE_DEPTH_LIMIT))
    &&& entries[at].kind == EntryKind::Directory
    &&& cache_label(utf8_bytes(entries[at].path@)) is Some
    &&& tree_size(entries, utf8_bytes(entries[at].path@)) > 0
}

/// The entries at `a` and `b` are cache directories with one and the same
/// path.
pub open spec fn same_cache_dir(entries: Seq<WalkEntry>, a: int, b: int) -> bool {
    &&& is_cache_dir(entries, a)
    &&& is_cache_dir(entries, b)
    &&& entries[a].path@ == entries[b].path@
}

/// The entry at `at` is a cache directory, and the first entry with its path
/// that is one.
pub open spec fn is_recorded(entries: Seq<WalkEntry>, at: int) -> bool {
    &&& is_cache_dir(entries, at)
    &&& forall|earlier: int| 0 <= earlier < at ==> !#[trigger] same_cache_dir(entries, earlier, at)
}

/// The record of the cache directory at `at`.
pub open spec fn cache_record(entries: Seq<WalkEntry>, at: int) -> CacheRecord {
    CacheRecord {
        path: entries[at].path@,
        cache_type: cache_label(utf8_bytes(entries[at].path@))->0,
        size: capped(tree_size(entries, utf8_bytes(entries[at].path@))),
    }
}

/// The positions of the recorded cache directories among the first `limit`
/// entries.
pub open spec fn recorded_upto(entries: Seq<WalkEntry>, limit: nat) -> Seq<usize> {
    positions_where(limit, |at: int| is_recorded(entries, at))
}

/// The records of the cache directories at the positions `hits`.
pub open spec fn cache_records_at(entries: Seq<WalkEntry>, hits: Seq<usize>) -> Seq<CacheRecord> {
    Seq::new(hits.len(), |k: int| cache_record(entries, hits[k] as int))
}

/// The cache directories of a listing, each path once, in the order of the
/// listing.
pub open spec fn cache_records(entries: Seq<WalkEntry>) -> Seq<CacheRecord> {
    cache_records_at(entries, recorded_upto(entries, entries.len()))
}

/// `records` with the largest first; records of equal size keep their order.
pub open spec fn largest_cache_first(records: Seq<CacheRecord>) -> Seq<CacheRecord> {
    arranged(records, ranking(records.map_values(|record: CacheRecord| record.size)))
}

/// No record is larger than one before it.
pub open spec fn cache_sizes_descend(records: Seq<CacheRecord>) -> bool {
    forall|a: int, b: int| 0 <= a <= b < records.len() ==> records[a].size >= records[b].size
}

/// No two records have the same path.
pub open spec fn paths_differ(records: Seq<CacheRecord>) -> bool {
    forall|a: int, b: int| 0 <= a < b < records.len() ==> records[a].path != records[b].path
}

/// Whether `path` ends with `pattern`.
pub fn has_suffix(path: &[u8], pattern: &[u8]) -> (yes: bool)
    ensures
        yes == ends_with(path@, pattern@),
{
    let n: usize = pattern.len();
    if n > path.len() {
        return false;
    }
    let start: usize = path.len() - n;
    let mut j: usize = 0;
    while j < n
        invariant
            j <= n,
            n == pattern@.len(),
            start + n == path.len(),
            forall|k: int| 0 <= k < j ==> path@[start + k] == pattern@[k],
        decreases n - j,
    {
        if path[start + j] != pattern[j] {
            assert(path@.subrange(start as int, path@.len() as int)[j as int] != pattern@[j as int]);
            return false;
        }
        j += 1;
    }
    assert(path@.subrange(start as int, path@.len() as int) =~= pattern@);
    true
}

/// The label under which a directory at `path` counts as a cache directory:
/// that of the first pattern that the path ends with, if there is one.
pub fn cache_type_of(path: &str) -> (label: Option<&'static str>)
    ensures
        label is Some == cache_label(utf8_bytes(path@)) is Some,
        label is Some ==> label->0@ == cache_label(utf8_bytes(path@))->0,
{
    let bytes = path.as_bytes();
    let table = [
        ("node_modules", "npm/yarn"),
        ("target", "Rust/Cargo"),
        (".cache", "System cache"),
        ("__pycache__", "Python"),
        (".npm", "npm cache"),
        (".cargo/registry", "Cargo registry"),
        (".pip", "pip cache"),
        ("dist", "Build output"),
        ("build", "Build output"),
        (".gradle", "Gradle cache"),
        (".m2/repository", "Maven cache"),
    ];
    assert(cache_patterns().len() == 11);
    assert(forall|j: int|
        0 <= j < 11 ==> table@[j].0@ == cache_patterns()[j].0 && table@[j].1@
            == cache_patterns()[j].1);
    let mut k: usize = 0;
    while k < 11
        invariant
            k <= 11,
            bytes@ == utf8_bytes(path@),
            table@.len() == 11,
            cache_patterns().len() == 11,
            forall|j: int|
                0 <= j < 11 ==> table@[j].0@ == cache_patterns()[j].0 && table@[j].1@
                    == cache_patterns()[j].1,
            first_fit(bytes@, 0) == first_fit(bytes@, k as int),
        decreases 11 - k,
    {
        if has_suffix(bytes, table[k].0.as_bytes()) {
            return Some(table[k].1);
        }
        k += 1;
    }
    None
}

/// The size of all regular files of the listing beneath the directory `dir`,
/// capped at the largest number that fits.
pub fn calculate_dir_size(entries: &[WalkEntry], dir: &str) -> (size: u64)
    ensures
        size == capped(tree_size(entries@, utf8_bytes(dir@))),
{
    let root = dir.as_bytes();
    let mut size: u64 = 0;
    let mut i: usize = 0;
    while i < entries.len()
        invariant
            i <= entries@.len(),
            root@ == utf8_bytes(dir@),
            size == capped(tree_size_upto(entries@, root@, i as nat)),
        decreases entries@.len() - i,
    {
        let entry = &entries[i];
        if entry.kind == EntryKind::File {
            match entry.size {
                Some(bytes) => {
                    if beneath(entry.path.as_str().as_bytes(), root) {
                        if bytes > u64::MAX - size {
                            size = u64::MAX;
                        } else {
                            size = size + bytes;
                        }
                    }
                },
                None => {},
            }
        }
        i += 1;
    }
    size
}

/// Every cache directory has the path of a recorded one that stands at or
/// before it.
proof fn lemma_first_recorded(entries: Seq<WalkEntry>, at: int) -> (first: int)
    requires
        is_cache_dir(entries, at),
    ensures
        0 <= first <= at,
        is_recorded(entries, first),
        entries[first].path@ == entries[at].path@,
    decreases at,
{
    if is_recorded(entries, at) {
        at
    } else {
        let earlier = choose|earlier: int|
            0 <= earlier < at && #[trigger] same_cache_dir(entries, earlier, at);
        lemma_first_recorded(entries, earlier)
    }
}

/// What the cache-directory scan reports: every record holds at least one byte,
/// no two records have the same path, no record is larger than one before it,
/// and the records are those of the recorded cache directories.
pub proof fn lemma_cache_records_law(entries: Seq<WalkEntry>)
    requires
        entries.len() <= usize::MAX,
    ensures
        largest_cache_first(cache_records(entries)).to_multiset() == cache_records(
            entries,
        ).to_multiset(),
        cache_sizes_descend(largest_cache_first(cache_records(entries))),
        paths_differ(largest_cache_first(cache_records(entries))),
        forall|k: int|
            0 <= k < largest_cache_first(cache_records(entries)).len()
                ==> (#[trigger] largest_cache_first(cache_records(entries))[k]).size > 0,
{
    let n = entries.len();
    let hits = recorded_upto(entries, n);
    let listed = cache_records(entries);
    let keys = listed.map_values(|record: CacheRecord| record.size);
    let out = largest_cache_first(listed);
    lemma_positions_sound(n, |at: int| is_recorded(entries, at));
    lemma_ranking_is_ranked(keys);
    lemma_arranged_keeps_items(listed, ranking(keys));
    assert forall|a: int, b: int| 0 <= a <= b < out.len() implies out[a].size >= out[b].size by {
        assert(precedes(keys, ranking(keys)[a] as int, ranking(keys)[b] as int));
    }
    assert forall|a: int, b: int| 0 <= a < b < out.len() implies out[a].path != out[b].path by {
        let x = ranking(keys)[a] as int;
        let y = ranking(keys)[b] as int;
        assert(x != y);
        let low = if x < y { x } else { y };
        let high = if x < y { y } else { x };
        assert(is_recorded(entries, hits[high] as int));
        assert(is_recorded(entries, hits[low] as int));
        assert(!same_cache_dir(entries, hits[low] as int, hits[high] as int));
    }
    assert forall|k: int| 0 <= k < out.len() implies (#[trigger] out[k]).size > 0 by {
        let x = ranking(keys)[k] as int;
        assert(is_recorded(entries, hits[x] as int));
    }
}

/// Whether one of the entries at the positions `hits` has the path `path`.
fn path_recorded(entries: &[WalkEntry], hits: &Vec<usize>, path: &String) -> (yes: bool)
    requires
        forall|h: int| 0 <= h < hits@.len() ==> (#[trigger] hits@[h]) < entries@.len(),
    ensures
        yes == exists|h: int|
            0 <= h < hits@.len() && entries@[(#[trigger] hits@[h]) as int].path@ == path@,
{
    let mut h: usize = 0;
    while h < hits.len()
        invariant
            h <= hits@.len(),
            forall|k: int| 0 <= k < hits@.len() ==> (#[trigger] hits@[k]) < entries@.len(),
            forall|k: int| 0 <= k < h ==> entries@[(#[trigger] hits@[k]) as int].path@ != path@,
        decreases hits@.len() - h,
    {
        if entries[hits[h]].path == *path {
            return true;
        }
        h += 1;
    }
    false
}

/// Copies `records` in the order that `order` gives to their positions.
fn arrange(records: &Vec<CacheInfo>, order: &Vec<usize>) -> (out: Vec<CacheInfo>)
    requires
        forall|k: int| 0 <= k < order@.len() ==> (#[trigger] order@[k]) < records@.len(),
    ensures
        out.deep_view() == arranged(records.deep_view(), order@),
{
    let mut out: Vec<CacheInfo> = Vec::new();
    let mut k: usize = 0;
    while k < order.len()
        invariant
            k <= order@.len(),
            out@.len() == k,
            forall|j: int| 0 <= j < order@.len() ==> (#[trigger] order@[j]) < records@.len(),
            forall|j: int| 0 <= j < k ==> (#[trigger] out@[j]) == records@[order@[j] as int],
        decreases order@.len() - k,
    {
        out.push(records[order[k]].clone());
        k += 1;
    }
    assert(out.deep_view() =~= arranged(records.deep_view(), order@));
    out
}

/// Finds the cache directories of a listing, largest first.
///
/// The result holds one record for every path that is a cache directory
/// holding at least one byte. Records of equal size come in the order of the
/// listing.
pub fn find_cache_directories(entries: &[WalkEntry]) -> (found: Vec<CacheInfo>)
    ensures
        found.deep_view() == largest_cache_first(cache_records(entries@)),
        found.deep_view().to_multiset() == cache_records(entries@).to_multiset(),
        cache_sizes_descend(found.deep_view()),
        paths_differ(found.deep_view()),
        forall|k: int| 0 <= k < found@.len() ==> (#[trigger] found@[k]).size > 0,
{
    let ghost recorded = |at: int| is_recorded(entries@, at);
    let mut hits: Vec<usize> = Vec::new();
    let mut records: Vec<CacheInfo> = Vec::new();
    let mut keys: Vec<u64> = Vec::new();
    let mut i: usize = 0;
    assert(records.deep_view() =~= cache_records_at(entries@, hits@));
    while i < entries.len()
        invariant
            i <= entries@.len(),
            recorded == (|at: int| is_recorded(entries@, at)),
            hits@ == positions_where(i as nat, recorded),
            records.deep_view() == cache_records_at(entries@, hits@),
            keys@.len() == hits@.len(),
            records@.len() == hits@.len(),
            forall|k: int| 0 <= k < keys@.len() ==> (#[trigger] keys@[k]) == records@[k].size,
        decreases entries@.len() - i,
    {
        proof {
            lemma_positions_sound(i as nat, recorded);
        }
        let entry = &entries[i];
        let mut record: Option<CacheInfo> = None;
        if entry.kind == EntryKind::Directory && walked(entry, Some(CACHE_DEPTH_LIMIT)) {
            match cache_type_of(entry.path.as_str()) {
                Some(label) => {
                    if !path_recorded(entries, &hits, &entry.path) {
                        let size: u64 = calculate_dir_size(entries, entry.path.as_str());
                        if size > 0 {
                            record = Some(
                                CacheInfo {
                                    path: entry.path.clone(),
                                    cache_type: label.to_owned(),
                                    size,
                                },
                            );
                            proof {
                                assert(is_cache_dir(entries@, i as int));
                                assert forall|earlier: int| 0 <= earlier < i implies !#[trigger] same_cache_dir(
                                    entries@,
                                    earlier,
                                    i as int,
                                ) by {
                                    if same_cache_dir(entries@, earlier, i as int) {
                                        let first = lemma_first_recorded(entries@, earlier);
                                        lemma_positions_complete(i as nat, recorded, first);
                                        let h = choose|h: int|
                                            0 <= h < hits@.len() && hits@[h] == first as usize;
                                        assert(entries@[hits@[h] as int].path@ == entry.path@);
                                    }
                                }
                            }
                        }
                    } else {
                        proof {
                            let h = choose|h: int|
                                0 <= h < hits@.len() && entries@[(#[trigger] hits@[h]) as int].path@
                                    == entry.path@;
                            assert(is_recorded(entries@, hits@[h] as int));
                            if is_cache_dir(entries@, i as int) {
                                assert(same_cache_dir(entries@, hits@[h] as int, i as int));
                            }
                        }
                    }
                },
                None => {},
            }
        }
        assert(record is Some == is_recorded(entries@, i as int));
        match record {
            Some(info) => {
                let ghost before = records.deep_view();
                assert(info@ == cache_record(entries@, i as int));
                keys.push(info.size);
                hits.push(i);
                records.push(info);
                assert(records.deep_view() =~= before.push(cache_record(entries@, i as int)));
            },
            None => {},
        }
        i += 1;
    }
    let order = descending_order(&keys);
    proof {
        lemma_positions_sound(i as nat, recorded);
        lemma_ranking_is_ranked(keys@);
        assert(keys@ =~= records.deep_view().map_values(|record: CacheRecord| record.size)) by {
            assert forall|k: int| 0 <= k < keys@.len() implies keys@[k] == records.deep_view()[k].size by {
                assert(records.deep_view()[k] == records@[k]@);
            }
        }
    }
    let found = arrange(&records, &order);
    proof {
        lemma_cache_records_law(entries@);
        assert forall|k: int| 0 <= k < found@.len() implies (#[trigger] found@[k]).size > 0 by {
            assert(found.deep_view()[k] == found@[k]@);
        }
    }
    found
}

} // verus!
