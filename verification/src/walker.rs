//! The walk as the scanners see it.
//!
//! A walk passes over everything that the path filter excludes and, where it is
//! bounded, over everything below its depth limit. A listing may hold such
//! entries all the same; every scanner skips them. Because exclusion is
//! inherited by everything beneath an excluded directory, skipping entry by
//! entry is the same as never entering such a directory.

use vstd::prelude::*;
use crate::model::{utf8_bytes, FileInfo, FileRecord, WalkEntry};
use crate::positions::positions_where;
use crate::ranking::arranged;
use crate::path_filter::{is_excluded, lemma_exclusion_inherited, lies_beneath, should_exclude_path};

verus! {

/// The scanners may look at this entry: the path filter lets its path pass.
pub open spec fn is_visible(entry: WalkEntry) -> bool {
    !is_excluded(utf8_bytes(entry.path@))
}

/// A walk that goes `max_depth` levels below its root, or as deep as the tree
/// goes where `max_depth` is `None`, comes by this entry.
pub open spec fn is_walked(entry: WalkEntry, max_depth: Option<usize>) -> bool {
    &&& is_visible(entry)
    &&& max_depth matches Some(limit) ==> entry.depth <= limit
}

/// Whether a walk that goes `max_depth` levels below its root, or as deep as
/// the tree goes where `max_depth` is `None`, comes by `entry`.
pub fn walked(entry: &WalkEntry, max_depth: Option<usize>) -> (seen: bool)
    ensures
        seen == is_walked(*entry, max_depth),
{
    let shallow: bool = match max_depth {
        Some(limit) => entry.depth <= limit,
        None => true,
    };
    shallow && !should_exclude_path(entry.path.as_str())
}

/// The records of the entries that `keep` accepts, in the order of the listing.
pub open spec fn selected(entries: Seq<WalkEntry>, keep: spec_fn(WalkEntry) -> bool) -> Seq<
    FileRecord,
> {
    entries.filter(keep).map_values(|entry: WalkEntry| entry.record())
}

/// How `selected` grows when the listing grows by one entry.
pub proof fn lemma_selected_step(entries: Seq<WalkEntry>, i: int, keep: spec_fn(WalkEntry) -> bool)
    requires
        0 <= i < entries.len(),
    ensures
        selected(entries.take(i + 1), keep) == if keep(entries[i]) {
            selected(entries.take(i), keep).push(entries[i].record())
        } else {
            selected(entries.take(i), keep)
        },
{
    let head = entries.take(i);
    assert(entries.take(i + 1) =~= head.push(entries[i]));
    head.lemma_filter_push(entries[i], keep);
    if keep(entries[i]) {
        assert(head.filter(keep).push(entries[i]).map_values(|entry: WalkEntry| entry.record())
            =~= head.filter(keep).map_values(|entry: WalkEntry| entry.record()).push(
            entries[i].record(),
        ));
    }
}

/// Every selected record comes from an entry of the listing that `keep`
/// accepts.
pub proof fn lemma_selected_origin(
    entries: Seq<WalkEntry>,
    keep: spec_fn(WalkEntry) -> bool,
    k: int,
) -> (i: int)
    requires
        0 <= k < selected(entries, keep).len(),
    ensures
        0 <= i < entries.len(),
        keep(entries[i]),
        selected(entries, keep)[k] == entries[i].record(),
{
    let kept = entries.filter(keep);
    entries.lemma_filter_pred(keep, k);
    assert(kept.contains(kept[k]));
    entries.lemma_filter_contains_rev(keep, kept[k]);
    let i = choose|i: int| 0 <= i < entries.len() && entries[i] == kept[k];
    i
}

/// What a walk yields of a listing: the entries that it comes by, in their
/// order.
pub open spec fn walk(entries: Seq<WalkEntry>, max_depth: Option<usize>) -> Seq<WalkEntry> {
    entries.filter(|entry: WalkEntry| is_walked(entry, max_depth))
}

/// A scan that takes only entries by which a walk comes finds in what the walk
/// yields all that it finds in the whole listing: entries that a walker has
/// left out for being excluded or too deep are not missed.
pub proof fn lemma_selected_from_walk(
    entries: Seq<WalkEntry>,
    max_depth: Option<usize>,
    keep: spec_fn(WalkEntry) -> bool,
)
    requires
        forall|entry: WalkEntry| #[trigger] keep(entry) ==> is_walked(entry, max_depth),
    ensures
        selected(walk(entries, max_depth), keep) == selected(entries, keep),
    decreases entries.len(),
{
    let passes = |entry: WalkEntry| is_walked(entry, max_depth);
    if entries.len() == 0 {
        entries.lemma_filter_len(passes);
        assert(entries.filter(passes) =~= entries);
    } else {
        let rest = entries.drop_last();
        let last = entries.last();
        assert(entries =~= rest.push(last));
        lemma_selected_from_walk(rest, max_depth, keep);
        rest.lemma_filter_push(last, passes);
        rest.lemma_filter_push(last, keep);
        if passes(last) {
            rest.filter(passes).lemma_filter_push(last, keep);
        }
        if keep(last) {
            assert(rest.filter(keep).push(last).map_values(|entry: WalkEntry| entry.record())
                =~= rest.filter(keep).map_values(|entry: WalkEntry| entry.record()).push(
                last.record(),
            ));
            assert(rest.filter(passes).filter(keep).push(last).map_values(
                |entry: WalkEntry| entry.record(),
            ) =~= rest.filter(passes).filter(keep).map_values(
                |entry: WalkEntry| entry.record(),
            ).push(last.record()));
        }
    }
}

/// The records of the entries at the positions `hits`.
pub open spec fn records_at(entries: Seq<WalkEntry>, hits: Seq<usize>) -> Seq<FileRecord> {
    Seq::new(hits.len(), |k: int| entries[hits[k] as int].record())
}

/// The records at the positions that `at_position` accepts are the selected
/// records, when `at_position` accepts the positions of the entries that `keep`
/// accepts.
pub proof fn lemma_records_are_selected(
    entries: Seq<WalkEntry>,
    at_position: spec_fn(int) -> bool,
    keep: spec_fn(WalkEntry) -> bool,
    limit: nat,
)
    requires
        limit <= entries.len() <= usize::MAX,
        forall|at: int| 0 <= at < limit ==> #[trigger] at_position(at) == keep(entries[at]),
    ensures
        records_at(entries, positions_where(limit, at_position)) == selected(
            entries.take(limit as int),
            keep,
        ),
    decreases limit,
{
    if limit == 0 {
        assert(entries.take(0) =~= Seq::empty());
        entries.take(0).lemma_filter_len(keep);
        assert(records_at(entries, positions_where(limit, at_position)) =~= selected(
            entries.take(0),
            keep,
        ));
    } else {
        let before = (limit - 1) as nat;
        lemma_records_are_selected(entries, at_position, keep, before);
        lemma_selected_step(entries, before as int, keep);
        let head = positions_where(before, at_position);
        if at_position(before as int) {
            assert(records_at(entries, head.push(before as usize)) =~= records_at(entries, head).push(
                entries[before as int].record(),
            ));
        }
    }
}

/// Copies the records at the positions `hits` out of the listing.
pub(crate) fn copy_records(entries: &[WalkEntry], hits: &Vec<usize>) -> (files: Vec<FileInfo>)
    requires
        forall|k: int|
            0 <= k < hits@.len() ==> (#[trigger] hits@[k]) < entries@.len()
                && entries@[hits@[k] as int].is_complete_file(),
    ensures
        files.deep_view() == records_at(entries@, hits@),
{
    let mut files: Vec<FileInfo> = Vec::new();
    let mut k: usize = 0;
    while k < hits.len()
        invariant
            k <= hits@.len(),
            files@.len() == k,
            forall|j: int|
                0 <= j < hits@.len() ==> (#[trigger] hits@[j]) < entries@.len()
                    && entries@[hits@[j] as int].is_complete_file(),
            forall|j: int| 0 <= j < k ==> (#[trigger] files@[j])@ == entries@[hits@[j] as int].record(),
        decreases hits@.len() - k,
    {
        let info = entries[hits[k]].to_file_info();
        files.push(info.unwrap());
        k += 1;
    }
    assert(files.deep_view() =~= records_at(entries@, hits@));
    files
}

/// Copies the records at the positions `hits` out of the listing, in the order
/// that `order` gives to the positions of `hits`.
pub(crate) fn lay_out(entries: &[WalkEntry], hits: &Vec<usize>, order: &Vec<usize>) -> (files: Vec<
    FileInfo,
>)
    requires
        forall|k: int|
            0 <= k < hits@.len() ==> (#[trigger] hits@[k]) < entries@.len()
                && entries@[hits@[k] as int].is_complete_file(),
        forall|k: int| 0 <= k < order@.len() ==> (#[trigger] order@[k]) < hits@.len(),
    ensures
        files.deep_view() == arranged(records_at(entries@, hits@), order@),
{
    let mut files: Vec<FileInfo> = Vec::new();
    let mut k: usize = 0;
    while k < order.len()
        invariant
            k <= order@.len(),
            files@.len() == k,
            forall|j: int|
                0 <= j < hits@.len() ==> (#[trigger] hits@[j]) < entries@.len()
                    && entries@[hits@[j] as int].is_complete_file(),
            forall|j: int| 0 <= j < order@.len() ==> (#[trigger] order@[j]) < hits@.len(),
            forall|j: int|
                0 <= j < k ==> (#[trigger] files@[j])@ == entries@[hits@[order@[j] as int] as int].record(),
        decreases order@.len() - k,
    {
        let at: usize = hits[order[k]];
        let info = entries[at].to_file_info();
        files.push(info.unwrap());
        k += 1;
    }
    assert(files.deep_view() =~= arranged(records_at(entries@, hits@), order@));
    files
}

/// Pruning: no walk comes by an entry beneath an excluded directory.
pub proof fn lemma_subtree_of_excluded_is_skipped(
    dir: WalkEntry,
    inner: WalkEntry,
    max_depth: Option<usize>,
)
    requires
        !is_visible(dir),
        lies_beneath(utf8_bytes(inner.path@), utf8_bytes(dir.path@)),
    ensures
        !is_walked(inner, max_depth),
{
    lemma_exclusion_inherited(utf8_bytes(dir.path@), utf8_bytes(inner.path@));
}

} // verus!
