//! The aggregate analysis: the four scans of one listing and the space that
//! could be freed.
//!
//! The estimate adds up three shares and does not look for files that are in
//! more than one of them: a stale duplicate inside a cache directory counts
//! three times. It is an upper estimate on purpose.

use vstd::prelude::*;
use crate::cache_dirs::{
    cache_records, cache_sizes_descend, find_cache_directories, largest_cache_first,
    lemma_cache_records_law, paths_differ,
};
use crate::duplicates::{duplicate_groups, find_duplicates, lemma_group_is_uniform, NOISE_FLOOR};
use crate::large_files::{
    find_large_files, large_files, largest_first, lemma_large_files_law, sizes_descend,
    BYTES_PER_MEGABYTE,
};
use crate::model::{capped, CacheInfo, CacheRecord, FileInfo, FileRecord, Timestamp, WalkEntry};
use crate::stale_files::{aged, find_old_files, lemma_old_files_are_aged, old_files};

verus! {

/// What an analysis looks for.
///
/// `max_large_files` says how many large files a report should show; the scan
/// itself returns all of them.
#[derive(Clone, Copy, Debug, PartialEq, Eq)]
pub struct AnalysisConfig {
    pub min_file_size_mb: u64,
    pub old_file_days: u64,
    pub max_large_files: usize,
}

impl Default for AnalysisConfig {
    fn default() -> (config: Self)
        ensures
            config.min_file_size_mb == 100,
            config.old_file_days == 180,
            config.max_large_files == 10,
    {
        AnalysisConfig { min_file_size_mb: 100, old_file_days: 180, max_large_files: 10 }
    }
}

/// The result of an analysis.
#[derive(Debug, PartialEq, Eq)]
pub struct DiskAnalysis {
    pub large_files: Vec<FileInfo>,
    pub duplicate_groups: Vec<Vec<FileInfo>>,
    pub old_files: Vec<FileInfo>,
    pub cache_dirs: Vec<CacheInfo>,
    pub total_reclaimable: u64,
}

/// The sum of `amounts`.
pub open spec fn sum_of(amounts: Seq<nat>) -> nat
    decreases amounts.len(),
{
    if amounts.len() == 0 {
        0
    } else {
        sum_of(amounts.drop_last()) + amounts.last()
    }
}

/// What deleting all but one member of `group` frees: the size of the first
/// member for every further member.
pub open spec fn group_gain(group: Seq<FileRecord>) -> nat {
    if group.len() > 1 {
        (group[0].size * (group.len() - 1)) as nat
    } else {
        0
    }
}

/// What keeping one copy of every duplicate group frees.
pub open spec fn duplicate_gain(groups: Seq<Seq<FileRecord>>) -> nat {
    sum_of(groups.map_values(|group: Seq<FileRecord>| group_gain(group)))
}

/// What deleting all of `files` frees.
pub open spec fn files_gain(files: Seq<FileRecord>) -> nat {
    sum_of(files.map_values(|file: FileRecord| file.size as nat))
}

/// What deleting all of `caches` frees.
pub open spec fn caches_gain(caches: Seq<CacheRecord>) -> nat {
    sum_of(caches.map_values(|cache: CacheRecord| cache.size as nat))
}

/// The space that could be freed: the duplicate share, the cache share and the
/// stale share, added up.
pub open spec fn reclaimable(
    groups: Seq<Seq<FileRecord>>,
    caches: Seq<CacheRecord>,
    stale: Seq<FileRecord>,
) -> nat {
    duplicate_gain(groups) + caches_gain(caches) + files_gain(stale)
}

/// The sum of the first `k + 1` amounts is the sum of the first `k` and the
/// next one.
proof fn lemma_sum_step(amounts: Seq<nat>, k: int)
    requires
        0 <= k < amounts.len(),
    ensures
        sum_of(amounts.take(k + 1)) == sum_of(amounts.take(k)) + amounts[k],
{
    assert(amounts.take(k + 1).drop_last() =~= amounts.take(k));
}

/// Adds two byte counts, capping the sum at the largest number that fits.
fn add_capped(a: u64, b: u64) -> (sum: u64)
    ensures
        sum == capped((a + b) as nat),
{
    if b > u64::MAX - a {
        u64::MAX
    } else {
        a + b
    }
}

/// What keeping one copy of every duplicate group frees, capped at the largest
/// number that fits.
pub fn duplicate_reclaimable(groups: &Vec<Vec<FileInfo>>) -> (gain: u64)
    ensures
        gain == capped(duplicate_gain(groups.deep_view())),
{
    let ghost amounts = groups.deep_view().map_values(|group: Seq<FileRecord>| group_gain(group));
    let mut gain: u64 = 0;
    let mut g: usize = 0;
    assert(amounts.take(0) =~= Seq::empty());
    while g < groups.len()
        invariant
            g <= groups@.len(),
            amounts == groups.deep_view().map_values(|group: Seq<FileRecord>| group_gain(group)),
            gain == capped(sum_of(amounts.take(g as int))),
        decreases groups@.len() - g,
    {
        proof {
            lemma_sum_step(amounts, g as int);
            assert(groups.deep_view()[g as int] == groups@[g as int].deep_view());
        }
        let group = &groups[g];
        if group.len() > 1 {
            assert(group.deep_view()[0] == group@[0]@);
            let copies: u128 = (group.len() - 1) as u128;
            let each: u128 = group[0].size as u128;
            assert(each * copies <= 0xffff_ffff_ffff_ffff * 0xffff_ffff_ffff_ffff) by (nonlinear_arith)
                requires
                    0 <= each <= 0xffff_ffff_ffff_ffff,
                    0 <= copies <= 0xffff_ffff_ffff_ffff,
            ;
            let freed: u128 = each * copies;
            let share: u64 = if freed > u64::MAX as u128 {
                u64::MAX
            } else {
                freed as u64
            };
            assert(share == capped(amounts[g as int]));
            gain = add_capped(gain, share);
        }
        g += 1;
    }
    assert(amounts.take(g as int) =~= amounts);
    gain
}

/// What deleting all of `files` frees, capped at the largest number that fits.
pub fn files_reclaimable(files: &Vec<FileInfo>) -> (gain: u64)
    ensures
        gain == capped(files_gain(files.deep_view())),
{
    let ghost amounts = files.deep_view().map_values(|file: FileRecord| file.size as nat);
    let mut gain: u64 = 0;
    let mut k: usize = 0;
    assert(amounts.take(0) =~= Seq::empty());
    while k < files.len()
        invariant
            k <= files@.len(),
            amounts == files.deep_view().map_values(|file: FileRecord| file.size as nat),
            gain == capped(sum_of(amounts.take(k as int))),
        decreases files@.len() - k,
    {
        proof {
            lemma_sum_step(amounts, k as int);
            assert(files.deep_view()[k as int] == files@[k as int]@);
        }
        gain = add_capped(gain, files[k].size);
        k += 1;
    }
    assert(amounts.take(k as int) =~= amounts);
    gain
}

/// What deleting all of `caches` frees, capped at the largest number that fits.
pub fn caches_reclaimable(caches: &Vec<CacheInfo>) -> (gain: u64)
    ensures
        gain == capped(caches_gain(caches.deep_view())),
{
    let ghost amounts = caches.deep_view().map_values(|cache: CacheRecord| cache.size as nat);
    let mut gain: u64 = 0;
    let mut k: usize = 0;
    assert(amounts.take(0) =~= Seq::empty());
    while k < caches.len()
        invariant
            k <= caches@.len(),
            amounts == caches.deep_view().map_values(|cache: CacheRecord| cache.size as nat),
            gain == capped(sum_of(amounts.take(k as int))),
        decreases caches@.len() - k,
    {
        proof {
            lemma_sum_step(amounts, k as int);
            assert(caches.deep_view()[k as int] == caches@[k as int]@);
        }
        gain = add_capped(gain, caches[k].size);
        k += 1;
    }
    assert(amounts.take(k as int) =~= amounts);
    gain
}

/// The space that could be freed, capped at the largest number that fits.
pub fn total_reclaimable(
    groups: &Vec<Vec<FileInfo>>,
    caches: &Vec<CacheInfo>,
    stale: &Vec<FileInfo>,
) -> (total: u64)
    ensures
        total == capped(reclaimable(groups.deep_view(), caches.deep_view(), stale.deep_view())),
{
    let from_duplicates: u64 = duplicate_reclaimable(groups);
    let from_caches: u64 = caches_reclaimable(caches);
    let from_stale: u64 = files_reclaimable(stale);
    add_capped(add_capped(from_duplicates, from_caches), from_stale)
}

impl DiskAnalysis {
    /// The analysis holds what the four scans find in `entries` under `config`
    /// at `now`, and the estimate that belongs to it.
    pub open spec fn describes(self, entries: Seq<WalkEntry>, now: Timestamp, config: AnalysisConfig) -> bool {
        &&& self.large_files.deep_view() == largest_first(
            large_files(entries, config.min_file_size_mb),
        )
        &&& self.duplicate_groups.deep_view() == duplicate_groups(entries)
        &&& self.old_files.deep_view() == old_files(entries, config.old_file_days, now)
        &&& self.cache_dirs.deep_view() == largest_cache_first(cache_records(entries))
        &&& self.total_reclaimable == capped(
            reclaimable(
                self.duplicate_groups.deep_view(),
                self.cache_dirs.deep_view(),
                self.old_files.deep_view(),
            ),
        )
    }
}

/// What holds of every analysis: large files reach the threshold and come
/// largest first; every duplicate group has two or more members of one size
/// above the noise floor; stale files have reached the age; cache directories
/// hold at least one byte, differ in their paths and come largest first; and
/// the total is the sum of the three shares, capped.
pub proof fn lemma_analysis_laws(
    analysis: DiskAnalysis,
    entries: Seq<WalkEntry>,
    now: Timestamp,
    config: AnalysisConfig,
)
    requires
        entries.len() <= usize::MAX,
        analysis.describes(entries, now, config),
    ensures
        sizes_descend(analysis.large_files.deep_view()),
        forall|k: int|
            0 <= k < analysis.large_files.deep_view().len()
                ==> (#[trigger] analysis.large_files.deep_view()[k]).size
                >= config.min_file_size_mb * BYTES_PER_MEGABYTE,
        forall|g: int|
            0 <= g < analysis.duplicate_groups.deep_view().len()
                ==> (#[trigger] analysis.duplicate_groups.deep_view()[g]).len() >= 2,
        forall|g: int, k: int|
            0 <= g < analysis.duplicate_groups.deep_view().len() && 0 <= k
                < analysis.duplicate_groups.deep_view()[g].len()
                ==> (#[trigger] analysis.duplicate_groups.deep_view()[g][k]).size
                == analysis.duplicate_groups.deep_view()[g][0].size
                && analysis.duplicate_groups.deep_view()[g][k].size > NOISE_FLOOR,
        forall|k: int|
            0 <= k < analysis.old_files.deep_view().len() ==> aged(
                (#[trigger] analysis.old_files.deep_view()[k]).last_accessed,
                now,
                config.old_file_days,
            ),
        cache_sizes_descend(analysis.cache_dirs.deep_view()),
        paths_differ(analysis.cache_dirs.deep_view()),
        forall|k: int|
            0 <= k < analysis.cache_dirs.deep_view().len()
                ==> (#[trigger] analysis.cache_dirs.deep_view()[k]).size > 0,
        analysis.total_reclaimable == capped(
            duplicate_gain(analysis.duplicate_groups.deep_view()) + caches_gain(
                analysis.cache_dirs.deep_view(),
            ) + files_gain(analysis.old_files.deep_view()),
        ),
{
    lemma_large_files_law(entries, config.min_file_size_mb);
    lemma_old_files_are_aged(entries, config.old_file_days, now);
    lemma_cache_records_law(entries);
    let groups = duplicate_groups(entries);
    assert forall|g: int| 0 <= g < groups.len() implies (#[trigger] groups[g]).len() >= 2 by {
        let key = lemma_group_is_uniform(entries, g);
    }
    assert forall|g: int, k: int| 0 <= g < groups.len() && 0 <= k < groups[g].len() implies (#[trigger] groups[g][k]).size
        == groups[g][0].size && groups[g][k].size > NOISE_FLOOR by {
        let key = lemma_group_is_uniform(entries, g);
    }
}

/// Runs the four scans over one listing and estimates the space that could be
/// freed. `now` is the instant against which the age of every file is held.
pub fn analyze_disk(entries: &[WalkEntry], now: Timestamp, config: AnalysisConfig) -> (analysis:
    DiskAnalysis)
    ensures
        analysis.describes(entries@, now, config),
{
    let large_files = find_large_files(entries, config.min_file_size_mb);
    let duplicate_groups = find_duplicates(entries);
    let old_files = find_old_files(entries, config.old_file_days, now);
    let cache_dirs = find_cache_directories(entries);
    let total_reclaimable = total_reclaimable(&duplicate_groups, &cache_dirs, &old_files);
    DiskAnalysis { large_files, duplicate_groups, old_files, cache_dirs, total_reclaimable }
}

} // verus!
