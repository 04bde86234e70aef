//! The stale-file scan: files that nobody has read for a long time.

use vstd::prelude::*;
use crate::model::{FileInfo, FileRecord, Timestamp, WalkEntry, NANOS_PER_SECOND};
use crate::walker::{
    is_walked, lemma_selected_from_walk, lemma_selected_origin, lemma_selected_step, selected, walk,
    walked,
};

verus! {

/// Seconds in one day, the unit of the age threshold.
pub const SECONDS_PER_DAY: u64 = 86_400;

/// At `now`, a file last read at `accessed` has been left alone for at least
/// `days` days. A time of access after `now` never counts.
pub open spec fn aged(accessed: Timestamp, now: Timestamp, days: u64) -> bool {
    now.nanos_since_epoch() - accessed.nanos_since_epoch() >= days * SECONDS_PER_DAY
        * NANOS_PER_SECOND
}

/// An unbounded walk comes by the entry, and it is a complete file that has
/// been left alone for at least `days` days at `now`.
pub open spec fn is_stale(entry: WalkEntry, days: u64, now: Timestamp) -> bool {
    &&& is_walked(entry, None)
    &&& entry.is_complete_file()
    &&& aged(entry.accessed->0, now, days)
}

/// The stale files of a listing, in the order of the listing.
pub open spec fn old_files(entries: Seq<WalkEntry>, days: u64, now: Timestamp) -> Seq<FileRecord> {
    selected(entries, |entry: WalkEntry| is_stale(entry, days, now))
}

/// Every file that the stale-file scan reports has been left alone for at
/// least `days` days at `now`.
pub proof fn lemma_old_files_are_aged(entries: Seq<WalkEntry>, days: u64, now: Timestamp)
    ensures
        forall|k: int|
            0 <= k < old_files(entries, days, now).len() ==> aged(
                (#[trigger] old_files(entries, days, now)[k]).last_accessed,
                now,
                days,
            ),
{
    let keep = |entry: WalkEntry| is_stale(entry, days, now);
    assert forall|k: int| 0 <= k < old_files(entries, days, now).len() implies aged(
        (#[trigger] old_files(entries, days, now)[k]).last_accessed,
        now,
        days,
    ) by {
        let origin = lemma_selected_origin(entries, keep, k);
    }
}

/// The stale files of what an unbounded walk yields are the stale files of the
/// listing.
pub proof fn lemma_old_files_of_walk(entries: Seq<WalkEntry>, days: u64, now: Timestamp)
    ensures
        old_files(walk(entries, None), days, now) == old_files(entries, days, now),
{
    lemma_selected_from_walk(entries, None, |entry: WalkEntry| is_stale(entry, days, now));
}

/// Whether a file last read at `accessed` has been left alone for at least
/// `days` days at `now`.
pub fn has_aged(accessed: &Timestamp, now: &Timestamp, days: u64) -> (yes: bool)
    ensures
        yes == aged(*accessed, *now, days),
{
    let threshold: i128 = days as i128 * (SECONDS_PER_DAY as i128) * (NANOS_PER_SECOND as i128);
    now.to_nanos() - accessed.to_nanos() >= threshold
}

/// Whether an unbounded walk comes by `entry` and it is a complete file that
/// has been left alone for at least `days` days at `now`.
fn stale(entry: &WalkEntry, days: u64, now: &Timestamp) -> (yes: bool)
    ensures
        yes == is_stale(*entry, days, *now),
{
    if !entry.complete_file() {
        return false;
    }
    match &entry.accessed {
        Some(accessed) => has_aged(accessed, now, days) && walked(entry, None),
        None => false,
    }
}

/// Finds the files that have not been read for at least `days` days at `now`,
/// the one instant against which every file of the listing is held.
///
/// The result holds exactly the stale files of the listing, in its order.
pub fn find_old_files(entries: &[WalkEntry], days: u64, now: Timestamp) -> (found: Vec<FileInfo>)
    ensures
        found.deep_view() == old_files(entries@, days, now),
        forall|k: int|
            0 <= k < found@.len() ==> aged((#[trigger] found@[k]).last_accessed, now, days),
{
    let ghost keep = |entry: WalkEntry| is_stale(entry, days, now);
    let mut found: Vec<FileInfo> = Vec::new();
    let mut i: usize = 0;
    assert(entries@.take(0) =~= Seq::empty());
    assert(entries@.take(0).filter(keep) =~= Seq::empty()) by {
        entries@.take(0).lemma_filter_len(keep);
    }
    assert(found.deep_view() =~= selected(entries@.take(0), keep));
    while i < entries.len()
        invariant
            i <= entries@.len(),
            keep == (|entry: WalkEntry| is_stale(entry, days, now)),
            found.deep_view() == selected(entries@.take(i as int), keep),
        decreases entries@.len() - i,
    {
        proof {
            lemma_selected_step(entries@, i as int, keep);
        }
        if stale(&entries[i], days, &now) {
            let ghost before = found.deep_view();
            let info = entries[i].to_file_info();
            found.push(info.unwrap());
            assert(found.deep_view() =~= before.push(entries@[i as int].record()));
        }
        i += 1;
    }
    assert(entries@.take(i as int) =~= entries@);
    proof {
        lemma_old_files_are_aged(entries@, days, now);
        assert forall|k: int| 0 <= k < found@.len() implies aged(
            (#[trigger] found@[k]).last_accessed,
            now,
            days,
        ) by {
            assert(found.deep_view()[k] == found@[k]@);
        }
    }
    found
}

} // verus!
