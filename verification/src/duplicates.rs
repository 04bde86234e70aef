//! The duplicate scan.
//!
//! Reading a file to hash it is costly, so the scan works in two phases. The
//! size partition picks the files that share their exact size with another
//! file: only they can have a duplicate, and only they need a digest. Once the
//! digests are in the listing, the content confirmation groups the files by
//! size and digest and reports every group of two or more.

use vstd::prelude::*;
use vstd::std_specs::hash::*;
use std::collections::HashMap;
use crate::model::{FileInfo, FileRecord, WalkEntry};
use crate::positions::{
    lemma_positions_complete, lemma_positions_none, lemma_positions_sound, positions_where,
};
use crate::size_index::SizeIndex;
use crate::walker::{
    copy_records, is_walked, lemma_records_are_selected, lemma_selected_origin, records_at, selected,
    walked,
};

verus! {

/// Files of at most this many bytes are never considered.
pub const NOISE_FLOOR: u64 = 1024;

/// An unbounded walk comes by the entry, and it is a complete file above the
/// noise floor.
pub open spec fn is_considered(entry: WalkEntry) -> bool {
    &&& is_walked(entry, None)
    &&& entry.is_complete_file()
    &&& entry.size->0 > NOISE_FLOOR
}

/// The entry at `at` is a considered file of exactly `size` bytes.
pub open spec fn has_size(entries: Seq<WalkEntry>, at: int, size: u64) -> bool {
    &&& 0 <= at < entries.len()
    &&& is_considered(entries[at])
    &&& entries[at].size->0 == size
}

/// Among the first `limit` entries there is a considered file of `size` bytes
/// other than the one at `except`.
pub open spec fn another_has_size(entries: Seq<WalkEntry>, limit: int, except: int, size: u64) -> bool {
    exists|other: int| 0 <= other < limit && other != except && #[trigger] has_size(entries, other, size)
}

/// The entry at `at` is a considered file, and another considered file of the
/// listing has exactly its size.
pub open spec fn shares_size(entries: Seq<WalkEntry>, at: int) -> bool {
    &&& 0 <= at < entries.len()
    &&& is_considered(entries[at])
    &&& another_has_size(entries, entries.len() as int, at, entries[at].size->0)
}

/// The size partition: the positions of the files that share their size, in
/// ascending order. These are the files whose content has to be hashed.
pub open spec fn size_partition(entries: Seq<WalkEntry>) -> Seq<usize> {
    positions_where(entries.len(), |at: int| shares_size(entries, at))
}

/// Whether an unbounded walk comes by `entry` and it is a complete file above
/// the noise floor.
pub fn considered(entry: &WalkEntry) -> (yes: bool)
    ensures
        yes == is_considered(*entry),
{
    if !entry.complete_file() {
        return false;
    }
    match entry.size {
        Some(size) => size > NOISE_FLOOR && walked(entry, None),
        None => false,
    }
}

/// What the size partition knows of one size once it has seen the first
/// `limit` entries: where the first file of that size stands, and whether
/// there is a second one.
spec fn size_known(entries: Seq<WalkEntry>, limit: int, size: u64, first: usize, again: bool) -> bool {
    &&& first < limit
    &&& has_size(entries, first as int, size)
    &&& again == another_has_size(entries, limit, first as int, size)
}

/// For every size among the considered files, finds the first file of that
/// size and whether a second one exists.
fn index_sizes(entries: &[WalkEntry]) -> (seen: HashMap<u64, (usize, bool)>)
    ensures
        forall|size: u64| #[trigger]
            seen@.contains_key(size) ==> size_known(
                entries@,
                entries@.len() as int,
                size,
                seen@[size].0,
                seen@[size].1,
            ),
        forall|at: int, size: u64| #[trigger]
            has_size(entries@, at, size) ==> seen@.contains_key(size),
{
    broadcast use group_hash_axioms;

    let mut seen: HashMap<u64, (usize, bool)> = HashMap::new();
    let mut i: usize = 0;
    while i < entries.len()
        invariant
            i <= entries@.len(),
            forall|size: u64| #[trigger]
                seen@.contains_key(size) ==> size_known(
                    entries@,
                    i as int,
                    size,
                    seen@[size].0,
                    seen@[size].1,
                ),
            forall|at: int, size: u64|
                at < i && #[trigger] has_size(entries@, at, size) ==> seen@.contains_key(size),
        decreases entries@.len() - i,
    {
        let ghost before = seen@;
        if considered(&entries[i]) {
            let size: u64 = entries[i].size.unwrap();
            let first: usize = match seen.get(&size) {
                Some(known) => known.0,
                None => i,
            };
            let again: bool = first != i;
            seen.insert(size, (first, again));
            proof {
                assert(has_size(entries@, i as int, size));
                if again {
                    assert(before.contains_key(size));
                    assert(size_known(entries@, i as int, size, first, before[size].1));
                } else {
                    assert(!before.contains_key(size));
                    assert(!another_has_size(entries@, i + 1, i as int, size));
                }
                assert forall|other: u64| #[trigger] seen@.contains_key(other) implies size_known(
                    entries@,
                    i + 1,
                    other,
                    seen@[other].0,
                    seen@[other].1,
                ) by {
                    if other != size {
                        assert(before.contains_key(other));
                        assert(size_known(
                            entries@,
                            i as int,
                            other,
                            before[other].0,
                            before[other].1,
                        ));
                        assert(!has_size(entries@, i as int, other));
                        assert(another_has_size(entries@, i + 1, before[other].0 as int, other)
                            == another_has_size(entries@, i as int, before[other].0 as int, other));
                    }
                }
            }
        } else {
            proof {
                assert forall|other: u64| #[trigger] seen@.contains_key(other) implies size_known(
                    entries@,
                    i + 1,
                    other,
                    seen@[other].0,
                    seen@[other].1,
                ) by {
                    assert(size_known(entries@, i as int, other, seen@[other].0, seen@[other].1));
                    assert(!has_size(entries@, i as int, other));
                    assert(another_has_size(entries@, i + 1, seen@[other].0 as int, other)
                        == another_has_size(entries@, i as int, seen@[other].0 as int, other));
                }
            }
        }
        i += 1;
    }
    seen
}

/// The size partition, the first phase of the duplicate scan: the positions of
/// the files whose content has to be hashed, in ascending order.
pub fn hash_candidates(entries: &[WalkEntry]) -> (candidates: Vec<usize>)
    ensures
        candidates@ == size_partition(entries@),
{
    broadcast use group_hash_axioms;

    let seen = index_sizes(entries);
    let ghost shares = |at: int| shares_size(entries@, at);
    let mut candidates: Vec<usize> = Vec::new();
    let mut i: usize = 0;
    while i < entries.len()
        invariant
            i <= entries@.len(),
            shares == (|at: int| shares_size(entries@, at)),
            candidates@ == positions_where(i as nat, shares),
            forall|size: u64| #[trigger]
                seen@.contains_key(size) ==> size_known(
                    entries@,
                    entries@.len() as int,
                    size,
                    seen@[size].0,
                    seen@[size].1,
                ),
            forall|at: int, size: u64| #[trigger]
                has_size(entries@, at, size) ==> seen@.contains_key(size),
        decreases entries@.len() - i,
    {
        let mut shared: bool = false;
        if considered(&entries[i]) {
            let size: u64 = entries[i].size.unwrap();
            assert(has_size(entries@, i as int, size));
            match seen.get(&size) {
                Some(known) => {
                    shared = known.1;
                    proof {
                        let first = known.0;
                        assert(size_known(entries@, entries@.len() as int, size, first, shared));
                        if shared {
                            let other = choose|other: int|
                                0 <= other < entries@.len() && other != first && #[trigger] has_size(
                                    entries@,
                                    other,
                                    size,
                                );
                            if first == i {
                                assert(has_size(entries@, other, size));
                            } else {
                                assert(has_size(entries@, first as int, size));
                            }
                            assert(another_has_size(
                                entries@,
                                entries@.len() as int,
                                i as int,
                                size,
                            ));
                        } else {
                            if another_has_size(entries@, entries@.len() as int, i as int, size) {
                                let other = choose|other: int|
                                    0 <= other < entries@.len() && other != i && #[trigger] has_size(
                                        entries@,
                                        other,
                                        size,
                                    );
                                if first == i {
                                    assert(has_size(entries@, other, size));
                                } else {
                                    assert(has_size(entries@, i as int, size));
                                }
                                assert(false);
                            }
                        }
                    }
                },
                None => {
                    assert(false);
                },
            }
        }
        assert(shared == shares_size(entries@, i as int));
        if shared {
            candidates.push(i);
        }
        i += 1;
    }
    candidates
}

/// What the content confirmation compares: the size of a considered file and
/// the digest of its content. A file without a digest has no key.
pub open spec fn content_key(entry: WalkEntry) -> Option<(u64, Seq<char>)> {
    if is_considered(entry) && entry.digest is Some {
        Some((entry.size->0, entry.digest->0@))
    } else {
        None
    }
}

/// The entries at `a` and `b` are files with one and the same content key.
pub open spec fn same_content(entries: Seq<WalkEntry>, a: int, b: int) -> bool {
    &&& 0 <= a < entries.len()
    &&& 0 <= b < entries.len()
    &&& content_key(entries[a]) is Some
    &&& content_key(entries[a]) == content_key(entries[b])
}

/// The entry at `at` has a content key that no earlier entry has.
pub open spec fn is_first_of_content(entries: Seq<WalkEntry>, at: int) -> bool {
    &&& 0 <= at < entries.len()
    &&& content_key(entries[at]) is Some
    &&& forall|earlier: int| 0 <= earlier < at ==> !#[trigger] same_content(entries, earlier, at)
}

/// The records of the files of the listing whose content key is `key`, in the
/// order of the listing.
pub open spec fn files_of_content(entries: Seq<WalkEntry>, key: (u64, Seq<char>)) -> Seq<FileRecord> {
    selected(entries, |entry: WalkEntry| content_key(entry) == Some(key))
}

/// The positions at which a content shows up for the first time, in ascending
/// order.
pub open spec fn first_positions(entries: Seq<WalkEntry>) -> Seq<usize> {
    firsts_upto(entries, entries.len())
}

/// Among the first `limit` entries, the positions that have a content key no
/// earlier entry has.
pub open spec fn firsts_upto(entries: Seq<WalkEntry>, limit: nat) -> Seq<usize> {
    positions_where(limit, |at: int| is_first_of_content(entries, at))
}

/// The records of all files with the content of the file at `first`, in the
/// order of the listing.
pub open spec fn group_of(entries: Seq<WalkEntry>, first: usize) -> Seq<FileRecord> {
    files_of_content(entries, content_key(entries[first as int])->0)
}

/// The content of the file at `first` occurs at least twice in the listing.
pub open spec fn is_duplicated(entries: Seq<WalkEntry>, first: usize) -> bool {
    group_of(entries, first).len() >= 2
}

/// The duplicate groups of a listing: for every content key that two or more
/// files have, the records of these files in the order of the listing. The
/// groups come in the order of their first members.
pub open spec fn duplicate_groups(entries: Seq<WalkEntry>) -> Seq<Seq<FileRecord>> {
    first_positions(entries).filter(|first: usize| is_duplicated(entries, first)).map_values(
        |first: usize| group_of(entries, first),
    )
}

/// Among the first `limit` entries, the positions of the files with the content
/// of the file at `first`.
spec fn members_upto(entries: Seq<WalkEntry>, first: int, limit: nat) -> Seq<usize> {
    positions_where(limit, |at: int| same_content(entries, first, at))
}

/// The files at the positions of the members of a group are the files of its
/// content.
proof fn lemma_members_are_group(entries: Seq<WalkEntry>, first: usize)
    requires
        first < entries.len() <= usize::MAX,
        content_key(entries[first as int]) is Some,
    ensures
        records_at(entries, members_upto(entries, first as int, entries.len())) == group_of(
            entries,
            first,
        ),
        members_upto(entries, first as int, entries.len()).len() == group_of(entries, first).len(),
{
    let key = content_key(entries[first as int])->0;
    let keep = |entry: WalkEntry| content_key(entry) == Some(key);
    let with_first = |at: int| same_content(entries, first as int, at);
    lemma_records_are_selected(entries, with_first, keep, entries.len());
    assert(entries.take(entries.len() as int) =~= entries);
}

/// Every file with a content key has the content of a first file that stands
/// at or before it.
pub proof fn lemma_first_exists(entries: Seq<WalkEntry>, at: int) -> (first: int)
    requires
        0 <= at < entries.len(),
        content_key(entries[at]) is Some,
    ensures
        0 <= first <= at,
        is_first_of_content(entries, first),
        same_content(entries, first, at),
    decreases at,
{
    if is_first_of_content(entries, at) {
        at
    } else {
        let earlier = choose|earlier: int|
            0 <= earlier < at && #[trigger] same_content(entries, earlier, at);
        lemma_first_exists(entries, earlier)
    }
}

/// Whether `entry` has a content key.
fn has_content_key(entry: &WalkEntry) -> (yes: bool)
    ensures
        yes == content_key(*entry) is Some,
{
    entry.digest.is_some() && considered(entry)
}

/// Whether two entries that have content keys have the same one.
fn keys_agree(a: &WalkEntry, b: &WalkEntry) -> (yes: bool)
    requires
        content_key(*a) is Some,
        content_key(*b) is Some,
    ensures
        yes == (content_key(*a) == content_key(*b)),
{
    match (a.size, b.size, &a.digest, &b.digest) {
        (Some(size_a), Some(size_b), Some(digest_a), Some(digest_b)) => {
            size_a == size_b && *digest_a == *digest_b
        },
        _ => false,
    }
}

/// Looks among the groups `among` for the one whose first member has the
/// content of the entry at `at`.
fn find_group(entries: &[WalkEntry], firsts: &Vec<usize>, among: &Vec<usize>, at: usize) -> (group:
    Option<usize>)
    requires
        at < entries@.len(),
        content_key(entries@[at as int]) is Some,
        forall|g: int|
            0 <= g < firsts@.len() ==> (#[trigger] firsts@[g]) < entries@.len() && content_key(
                entries@[firsts@[g] as int],
            ) is Some,
        forall|k: int| 0 <= k < among@.len() ==> (#[trigger] among@[k]) < firsts@.len(),
    ensures
        match group {
            Some(g) => g < firsts@.len() && same_content(entries@, firsts@[g as int] as int, at as int),
            None => forall|k: int|
                0 <= k < among@.len() ==> !same_content(
                    entries@,
                    firsts@[(#[trigger] among@[k]) as int] as int,
                    at as int,
                ),
        },
{
    let mut k: usize = 0;
    while k < among.len()
        invariant
            k <= among@.len(),
            at < entries@.len(),
            content_key(entries@[at as int]) is Some,
            forall|g: int|
                0 <= g < firsts@.len() ==> (#[trigger] firsts@[g]) < entries@.len() && content_key(
                    entries@[firsts@[g] as int],
                ) is Some,
            forall|j: int| 0 <= j < among@.len() ==> (#[trigger] among@[j]) < firsts@.len(),
            forall|j: int|
                0 <= j < k ==> !same_content(
                    entries@,
                    firsts@[(#[trigger] among@[j]) as int] as int,
                    at as int,
                ),
        decreases among@.len() - k,
    {
        let g: usize = among[k];
        if keys_agree(&entries[firsts[g]], &entries[at]) {
            return Some(g);
        }
        k += 1;
    }
    None
}

/// The size of the file at `at`.
spec fn size_at(entries: Seq<WalkEntry>, at: usize) -> u64 {
    entries[at as int].size->0
}

/// Sorts the files that have a content key into groups of equal content: the
/// first member of every group, and for every group the positions of its
/// members.
fn group_by_content(entries: &[WalkEntry]) -> (grouped: (Vec<usize>, Vec<Vec<usize>>))
    ensures
        grouped.0@ == first_positions(entries@),
        grouped.1@.len() == grouped.0@.len(),
        forall|g: int|
            0 <= g < grouped.0@.len() ==> (#[trigger] grouped.1@[g])@ == members_upto(
                entries@,
                grouped.0@[g] as int,
                entries@.len(),
            ),
{
    let mut firsts: Vec<usize> = Vec::new();
    let mut members: Vec<Vec<usize>> = Vec::new();
    let mut index = SizeIndex::new();
    let mut i: usize = 0;
    while i < entries.len()
        invariant
            i <= entries@.len(),
            firsts@ == firsts_upto(entries@, i as nat),
            members@.len() == firsts@.len(),
            forall|g: int|
                0 <= g < firsts@.len() ==> (#[trigger] members@[g])@ == members_upto(
                    entries@,
                    firsts@[g] as int,
                    i as nat,
                ),
            index.well_formed(),
            forall|size: u64, g: usize| index.lists(size, g) ==> g < firsts@.len(),
            forall|g: usize|
                g < firsts@.len() ==> index.lists(size_at(entries@, #[trigger] firsts@[g as int]), g),
        decreases entries@.len() - i,
    {
        let ghost is_first = |at: int| is_first_of_content(entries@, at);
        proof {
            lemma_positions_sound(i as nat, is_first);
        }
        if has_content_key(&entries[i]) {
            let size: u64 = entries[i].size.unwrap();
            let found: Option<usize> = match index.groups_of(size) {
                Some(among) => {
                    proof {
                        assert forall|k: int| 0 <= k < among@.len() implies (#[trigger] among@[k])
                            < firsts@.len() by {
                            assert(among@.contains(among@[k]));
                            assert(index.lists(size, among@[k]));
                        }
                    }
                    let found = find_group(entries, &firsts, among, i);
                    proof {
                        if found is None {
                            assert forall|g: int| 0 <= g < firsts@.len() implies !same_content(
                                entries@,
                                (#[trigger] firsts@[g]) as int,
                                i as int,
                            ) by {
                                if same_content(entries@, firsts@[g] as int, i as int) {
                                    assert(index.lists(
                                        size_at(entries@, firsts@[g as usize as int]),
                                        g as usize,
                                    ));
                                    assert(among@.contains(g as usize));
                                    let k = choose|k: int|
                                        0 <= k < among@.len() && among@[k] == g as usize;
                                    assert(!same_content(
                                        entries@,
                                        firsts@[among@[k] as int] as int,
                                        i as int,
                                    ));
                                }
                            }
                        }
                    }
                    found
                },
                None => {
                    proof {
                        assert forall|g: int| 0 <= g < firsts@.len() implies !same_content(
                            entries@,
                            (#[trigger] firsts@[g]) as int,
                            i as int,
                        ) by {
                            if same_content(entries@, firsts@[g] as int, i as int) {
                                assert(index.lists(
                                    size_at(entries@, firsts@[g as usize as int]),
                                    g as usize,
                                ));
                            }
                        }
                    }
                    None
                },
            };
            match found {
                Some(g) => {
                    let ghost old_members = members@;
                    members[g].push(i);
                    proof {
                        assert(!is_first_of_content(entries@, i as int));
                        assert forall|h: int| 0 <= h < firsts@.len() implies (#[trigger] members@[h])@
                            == members_upto(entries@, firsts@[h] as int, (i + 1) as nat) by {
                            if h != g {
                                assert(members@[h] == old_members[h]);
                                if same_content(entries@, firsts@[h] as int, i as int) {
                                    if h < g {
                                        assert(same_content(
                                            entries@,
                                            firsts@[h] as int,
                                            firsts@[g as int] as int,
                                        ));
                                    } else {
                                        assert(same_content(
                                            entries@,
                                            firsts@[g as int] as int,
                                            firsts@[h] as int,
                                        ));
                                    }
                                    assert(false);
                                }
                            }
                        }
                    }
                },
                None => {
                    proof {
                        assert forall|earlier: int| 0 <= earlier < i implies !#[trigger] same_content(
                            entries@,
                            earlier,
                            i as int,
                        ) by {
                            if same_content(entries@, earlier, i as int) {
                                let first = lemma_first_exists(entries@, earlier);
                                lemma_positions_complete(i as nat, is_first, first);
                                let g = choose|g: int|
                                    0 <= g < firsts@.len() && firsts@[g] == first as usize;
                                assert(same_content(entries@, firsts@[g] as int, i as int));
                            }
                        }
                        assert(is_first_of_content(entries@, i as int));
                        let with_it = |at: int| same_content(entries@, i as int, at);
                        assert forall|at: int| 0 <= at < i implies !#[trigger] with_it(at) by {
                            assert(!same_content(entries@, at, i as int));
                        }
                        lemma_positions_none(i as nat, with_it);
                    }
                    let group: usize = firsts.len();
                    let mut alone: Vec<usize> = Vec::new();
                    alone.push(i);
                    firsts.push(i);
                    members.push(alone);
                    index.enter(size, group);
                    proof {
                        assert forall|h: int| 0 <= h < firsts@.len() implies (#[trigger] members@[h])@
                            == members_upto(entries@, firsts@[h] as int, (i + 1) as nat) by {
                            if h + 1 < firsts@.len() {
                                assert(!same_content(entries@, firsts@[h] as int, i as int));
                            }
                        }
                    }
                },
            }
        } else {
            proof {
                assert forall|h: int| 0 <= h < firsts@.len() implies (#[trigger] members@[h])@
                    == members_upto(entries@, firsts@[h] as int, (i + 1) as nat) by {
                    assert(!same_content(entries@, firsts@[h] as int, i as int));
                }
            }
        }
        i += 1;
    }
    (firsts, members)
}

/// The record `record` belongs to a file of the listing whose content key is
/// `key`.
pub open spec fn has_key(entries: Seq<WalkEntry>, record: FileRecord, key: (u64, Seq<char>)) -> bool {
    exists|at: int|
        0 <= at < entries.len() && content_key(#[trigger] entries[at]) == Some(key) && record
            == entries[at].record()
}

/// Where a duplicate group comes from: the position at which its content shows
/// up for the first time.
pub proof fn lemma_group_origin(entries: Seq<WalkEntry>, g: int) -> (first: usize)
    requires
        entries.len() <= usize::MAX,
        0 <= g < duplicate_groups(entries).len(),
    ensures
        is_first_of_content(entries, first as int),
        is_duplicated(entries, first),
        duplicate_groups(entries)[g] == group_of(entries, first),
{
    let firsts = first_positions(entries);
    let twice = |first: usize| is_duplicated(entries, first);
    let chosen = firsts.filter(twice);
    firsts.lemma_filter_pred(twice, g);
    assert(chosen.contains(chosen[g]));
    firsts.lemma_filter_contains_rev(twice, chosen[g]);
    lemma_positions_sound(entries.len(), |at: int| is_first_of_content(entries, at));
    chosen[g]
}

/// Every duplicate group has two or more members, and all of them are files
/// with one content key: they have the same size, which lies above the noise
/// floor, and the same digest.
pub proof fn lemma_group_is_uniform(entries: Seq<WalkEntry>, g: int) -> (key: (u64, Seq<char>))
    requires
        entries.len() <= usize::MAX,
        0 <= g < duplicate_groups(entries).len(),
    ensures
        duplicate_groups(entries)[g].len() >= 2,
        key.0 > NOISE_FLOOR,
        forall|k: int|
            0 <= k < duplicate_groups(entries)[g].len() ==> has_key(
                entries,
                #[trigger] duplicate_groups(entries)[g][k],
                key,
            ),
        forall|k: int|
            0 <= k < duplicate_groups(entries)[g].len()
                ==> (#[trigger] duplicate_groups(entries)[g][k]).size == key.0,
{
    let first = lemma_group_origin(entries, g);
    let key = content_key(entries[first as int])->0;
    let keep = |entry: WalkEntry| content_key(entry) == Some(key);
    assert forall|k: int| 0 <= k < duplicate_groups(entries)[g].len() implies has_key(
        entries,
        #[trigger] duplicate_groups(entries)[g][k],
        key,
    ) && duplicate_groups(entries)[g][k].size == key.0 by {
        let at = lemma_selected_origin(entries, keep, k);
    }
    key
}

/// Finds the groups of files with identical content, the second phase of the
/// duplicate scan.
///
/// Files are compared by size and digest; a file without a digest (not hashed,
/// or unreadable) is in no group. Every group holds all files of one content,
/// in the order of the listing, and no group has fewer than two members.
pub fn find_duplicates(entries: &[WalkEntry]) -> (groups: Vec<Vec<FileInfo>>)
    ensures
        groups.deep_view() == duplicate_groups(entries@),
        forall|g: int| 0 <= g < groups@.len() ==> (#[trigger] groups@[g])@.len() >= 2,
        forall|g: int, a: int, b: int|
            0 <= g < groups@.len() && 0 <= a < groups@[g]@.len() && 0 <= b < groups@[g]@.len()
                ==> (#[trigger] groups@[g]@[a]).size == (#[trigger] groups@[g]@[b]).size,
        forall|g: int, a: int|
            0 <= g < groups@.len() && 0 <= a < groups@[g]@.len() ==> (#[trigger] groups@[g]@[a]).size
                > NOISE_FLOOR,
{
    let total: usize = entries.len();
    let (firsts, members) = group_by_content(entries);
    let ghost twice = |first: usize| is_duplicated(entries@, first);
    let ghost records = |first: usize| group_of(entries@, first);
    let mut groups: Vec<Vec<FileInfo>> = Vec::new();
    let mut g: usize = 0;
    proof {
        assert(firsts@.take(0) =~= Seq::empty());
        firsts@.take(0).lemma_filter_len(twice);
        assert(groups.deep_view() =~= firsts@.take(0).filter(twice).map_values(records));
    }
    while g < firsts.len()
        invariant
            g <= firsts@.len(),
            entries@.len() == total,
            twice == (|first: usize| is_duplicated(entries@, first)),
            records == (|first: usize| group_of(entries@, first)),
            firsts@ == first_positions(entries@),
            members@.len() == firsts@.len(),
            forall|h: int|
                0 <= h < firsts@.len() ==> (#[trigger] members@[h])@ == members_upto(
                    entries@,
                    firsts@[h] as int,
                    entries@.len(),
                ),
            groups.deep_view() == firsts@.take(g as int).filter(twice).map_values(records),
        decreases firsts@.len() - g,
    {
        proof {
            let head = firsts@.take(g as int);
            let first = firsts@[g as int];
            assert(firsts@.take(g + 1) =~= head.push(first));
            head.lemma_filter_push(first, twice);
            lemma_positions_sound(entries@.len(), |at: int| is_first_of_content(entries@, at));
            lemma_positions_sound(entries@.len(), |at: int| same_content(entries@, first as int, at));
            lemma_members_are_group(entries@, first);
        }
        if members[g].len() >= 2 {
            let ghost before = groups.deep_view();
            let group = copy_records(entries, &members[g]);
            groups.push(group);
            proof {
                let head = firsts@.take(g as int);
                assert(groups.deep_view() =~= before.push(records(firsts@[g as int])));
                assert(head.filter(twice).push(firsts@[g as int]).map_values(records)
                    =~= head.filter(twice).map_values(records).push(records(firsts@[g as int])));
            }
        }
        g += 1;
    }
    proof {
        assert(firsts@.take(g as int) =~= firsts@);
        let found = groups.deep_view();
        assert forall|h: int| 0 <= h < groups@.len() implies (#[trigger] groups@[h])@.len() >= 2 by {
            let key = lemma_group_is_uniform(entries@, h);
            assert(found[h] == groups@[h].deep_view());
        }
        assert forall|h: int, a: int, b: int|
            0 <= h < groups@.len() && 0 <= a < groups@[h]@.len() && 0 <= b < groups@[h]@.len()
            implies (#[trigger] groups@[h]@[a]).size == (#[trigger] groups@[h]@[b]).size
            && groups@[h]@[a].size > NOISE_FLOOR by {
            let key = lemma_group_is_uniform(entries@, h);
            assert(found[h] == groups@[h].deep_view());
            assert(found[h][a] == groups@[h]@[a]@);
            assert(found[h][b] == groups@[h]@[b]@);
        }
    }
    groups
}

} // verus!
