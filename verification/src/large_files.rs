//! The large-file scan.

use vstd::prelude::*;
use crate::model::{FileInfo, FileRecord, WalkEntry};
use crate::ranking::{
    arranged, descending_order, lemma_arranged_keeps_items, lemma_ranking_is_ranked, precedes, ranking,
};
use crate::walker::{
    is_walked, lay_out, lemma_selected_from_walk, lemma_selected_origin, lemma_selected_step,
    records_at, selected, walk, walked,
};

verus! {

/// Bytes in one megabyte, the unit of the size threshold.
pub const BYTES_PER_MEGABYTE: u64 = 1_048_576;

/// An unbounded walk comes by the entry, and it is a complete file of at least
/// `min_size_mb` megabytes.
pub open spec fn is_large(entry: WalkEntry, min_size_mb: u64) -> bool {
    &&& is_walked(entry, None)
    &&& entry.is_complete_file()
    &&& entry.size->0 >= min_size_mb * BYTES_PER_MEGABYTE
}

/// The large files of a listing, in the order of the listing.
pub open spec fn large_files(entries: Seq<WalkEntry>, min_size_mb: u64) -> Seq<FileRecord> {
    selected(entries, |entry: WalkEntry| is_large(entry, min_size_mb))
}

/// `files` with the largest first; files of equal size keep their order.
pub open spec fn largest_first(files: Seq<FileRecord>) -> Seq<FileRecord> {
    arranged(files, ranking(files.map_values(|file: FileRecord| file.size)))
}

/// No record is larger than one before it.
pub open spec fn sizes_descend(files: Seq<FileRecord>) -> bool {
    forall|a: int, b: int| 0 <= a <= b < files.len() ==> files[a].size >= files[b].size
}

/// Putting the largest first neither loses nor adds a file, and no file is
/// larger than one before it.
pub proof fn lemma_largest_first(files: Seq<FileRecord>)
    requires
        files.len() <= usize::MAX,
    ensures
        largest_first(files).to_multiset() == files.to_multiset(),
        largest_first(files).len() == files.len(),
        sizes_descend(largest_first(files)),
{
    let keys = files.map_values(|file: FileRecord| file.size);
    lemma_ranking_is_ranked(keys);
    lemma_arranged_keeps_items(files, ranking(keys));
    assert forall|a: int, b: int| 0 <= a <= b < largest_first(files).len() implies largest_first(
        files,
    )[a].size >= largest_first(files)[b].size by {
        assert(precedes(keys, ranking(keys)[a] as int, ranking(keys)[b] as int));
    }
}

/// What the large-file scan reports is at least the threshold in size, and no
/// file is larger than one before it.
pub proof fn lemma_large_files_law(entries: Seq<WalkEntry>, min_size_mb: u64)
    requires
        entries.len() <= usize::MAX,
    ensures
        sizes_descend(largest_first(large_files(entries, min_size_mb))),
        forall|k: int|
            0 <= k < largest_first(large_files(entries, min_size_mb)).len() ==> (#[trigger] largest_first(
                large_files(entries, min_size_mb),
            )[k]).size >= min_size_mb * BYTES_PER_MEGABYTE,
{
    let keep = |entry: WalkEntry| is_large(entry, min_size_mb);
    let listed = large_files(entries, min_size_mb);
    entries.lemma_filter_len(keep);
    lemma_largest_first(listed);
    let keys = listed.map_values(|file: FileRecord| file.size);
    lemma_ranking_is_ranked(keys);
    assert forall|k: int| 0 <= k < largest_first(listed).len() implies (#[trigger] largest_first(
        listed,
    )[k]).size >= min_size_mb * BYTES_PER_MEGABYTE by {
        let origin = lemma_selected_origin(entries, keep, ranking(keys)[k] as int);
    }
}

/// The large files of what an unbounded walk yields are the large files of the
/// listing.
pub proof fn lemma_large_files_of_walk(entries: Seq<WalkEntry>, min_size_mb: u64)
    ensures
        large_files(walk(entries, None), min_size_mb) == large_files(entries, min_size_mb),
{
    lemma_selected_from_walk(entries, None, |entry: WalkEntry| is_large(entry, min_size_mb));
}

/// Whether an unbounded walk comes by `entry` and it is a complete file of at
/// least `min_size_mb` megabytes.
fn large(entry: &WalkEntry, min_size_mb: u64) -> (yes: bool)
    ensures
        yes == is_large(*entry, min_size_mb),
{
    if !entry.complete_file() {
        return false;
    }
    let threshold: u128 = min_size_mb as u128 * (BYTES_PER_MEGABYTE as u128);
    match entry.size {
        Some(size) => size as u128 >= threshold && walked(entry, None),
        None => false,
    }
}

/// Finds the files of at least `min_size_mb` megabytes, largest first.
///
/// The result holds exactly the large files of the listing, each as often as the
/// listing holds it. Files of equal size come in the order of the listing.
pub fn find_large_files(entries: &[WalkEntry], min_size_mb: u64) -> (found: Vec<FileInfo>)
    ensures
        found.deep_view() == largest_first(large_files(entries@, min_size_mb)),
        found.deep_view().to_multiset() == large_files(entries@, min_size_mb).to_multiset(),
        sizes_descend(found.deep_view()),
        forall|k: int|
            0 <= k < found@.len() ==> (#[trigger] found@[k]).size >= min_size_mb
                * BYTES_PER_MEGABYTE,
{
    let ghost keep = |entry: WalkEntry| is_large(entry, min_size_mb);
    let mut hits: Vec<usize> = Vec::new();
    let mut keys: Vec<u64> = Vec::new();
    let mut i: usize = 0;
    assert(entries@.take(0) =~= Seq::empty());
    assert(entries@.take(0).filter(keep) =~= Seq::empty()) by {
        entries@.take(0).lemma_filter_len(keep);
    }
    while i < entries.len()
        invariant
            i <= entries@.len(),
            keep == (|entry: WalkEntry| is_large(entry, min_size_mb)),
            keys@.len() == hits@.len(),
            forall|k: int|
                0 <= k < hits@.len() ==> (#[trigger] hits@[k]) < i && is_large(
                    entries@[hits@[k] as int],
                    min_size_mb,
                ) && keys@[k] == entries@[hits@[k] as int].size->0,
            records_at(entries@, hits@) == selected(entries@.take(i as int), keep),
        decreases entries@.len() - i,
    {
        proof {
            lemma_selected_step(entries@, i as int, keep);
        }
        if large(&entries[i], min_size_mb) {
            let ghost before = hits@;
            hits.push(i);
            keys.push(entries[i].size.unwrap());
            assert(records_at(entries@, hits@) =~= records_at(entries@, before).push(
                entries@[i as int].record(),
            ));
        }
        i += 1;
    }
    assert(entries@.take(i as int) =~= entries@);
    let order = descending_order(&keys);
    proof {
        assert forall|k: int| 0 <= k < order@.len() implies (#[trigger] order@[k]) < hits@.len() by {}
        lemma_arranged_keeps_items(records_at(entries@, hits@), order@);
        assert(keys@ =~= records_at(entries@, hits@).map_values(|file: FileRecord| file.size));
    }
    let found = lay_out(entries, &hits, &order);
    proof {
        lemma_large_files_law(entries@, min_size_mb);
        assert forall|k: int| 0 <= k < found@.len() implies (#[trigger] found@[k]).size
            >= min_size_mb * BYTES_PER_MEGABYTE by {
            assert(found.deep_view()[k] == found@[k]@);
        }
    }
    found
}

} // verus!
