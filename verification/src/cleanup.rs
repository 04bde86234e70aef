//! Choosing what to delete once an analysis has been looked at.
//!
//! Nothing here deletes anything: these functions name the files and
//! directories that a choice of the user stands for.

use vstd::prelude::*;
use crate::analysis::{duplicate_gain, files_gain, group_gain, sum_of};
use crate::model::{CacheInfo, CacheRecord, FileInfo, FileRecord};
use crate::positions::{lemma_positions_complete, lemma_positions_sound, positions_where};

verus! {

/// The members of `group` that can go when one copy is kept: all but the first.
pub open spec fn spare_copies(group: Seq<FileRecord>) -> Seq<FileRecord> {
    if group.len() > 1 {
        group.subrange(1, group.len() as int)
    } else {
        Seq::empty()
    }
}

/// The files that can go when one copy of every group is kept, group by group.
pub open spec fn redundant(groups: Seq<Seq<FileRecord>>) -> Seq<FileRecord> {
    groups.map_values(|group: Seq<FileRecord>| spare_copies(group)).flatten()
}

/// Every member of every group has the size of the first member of its group.
pub open spec fn sizes_agree(groups: Seq<Seq<FileRecord>>) -> bool {
    forall|g: int, k: int|
        0 <= g < groups.len() && 0 <= k < groups[g].len() ==> (#[trigger] groups[g][k]).size
            == groups[g][0].size
}

/// The sum of two lists of amounts laid end to end is the sum of their sums.
proof fn lemma_sum_of_joined(first: Seq<nat>, second: Seq<nat>)
    ensures
        sum_of(first + second) == sum_of(first) + sum_of(second),
    decreases second.len(),
{
    if second.len() == 0 {
        assert(first + second =~= first);
    } else {
        lemma_sum_of_joined(first, second.drop_last());
        assert((first + second).drop_last() =~= first + second.drop_last());
    }
}

/// Files of one size `size` take up that size once for each of them.
proof fn lemma_gain_of_equal_files(files: Seq<FileRecord>, size: u64)
    requires
        forall|k: int| 0 <= k < files.len() ==> (#[trigger] files[k]).size == size,
    ensures
        files_gain(files) == size * files.len(),
    decreases files.len(),
{
    let amounts = files.map_values(|file: FileRecord| file.size as nat);
    if files.len() == 0 {
        assert(size * files.len() == 0) by (nonlinear_arith)
            requires
                files.len() == 0,
        ;
    } else {
        let rest = files.drop_last();
        lemma_gain_of_equal_files(rest, size);
        assert(amounts.drop_last() =~= rest.map_values(|file: FileRecord| file.size as nat));
        assert(amounts.last() == size);
        assert(size * files.len() == size * rest.len() + size) by (nonlinear_arith)
            requires
                files.len() == rest.len() + 1,
        ;
    }
}

/// The duplicate share of the estimate is what deleting the redundant copies
/// frees, where the members of every group have one size.
pub proof fn lemma_duplicate_share_is_redundant_size(groups: Seq<Seq<FileRecord>>)
    requires
        sizes_agree(groups),
    ensures
        files_gain(redundant(groups)) == duplicate_gain(groups),
    decreases groups.len(),
{
    let spares = groups.map_values(|group: Seq<FileRecord>| spare_copies(group));
    let gains = groups.map_values(|group: Seq<FileRecord>| group_gain(group));
    if groups.len() == 0 {
        assert(redundant(groups) =~= Seq::empty());
        assert(redundant(groups).map_values(|file: FileRecord| file.size as nat) =~= Seq::empty());
    } else {
        let rest = groups.drop_last();
        let last = groups.last();
        assert forall|g: int, k: int| 0 <= g < rest.len() && 0 <= k < rest[g].len() implies (#[trigger] rest[g][k]).size
            == rest[g][0].size by {
            assert(rest[g] == groups[g]);
        }
        lemma_duplicate_share_is_redundant_size(rest);
        let rest_spares = rest.map_values(|group: Seq<FileRecord>| spare_copies(group));
        assert(spares =~= rest_spares.push(spare_copies(last)));
        rest_spares.lemma_flatten_push(spare_copies(last));
        assert(gains.drop_last() =~= rest.map_values(|group: Seq<FileRecord>| group_gain(group)));
        let sizes = |file: FileRecord| file.size as nat;
        assert(redundant(groups).map_values(sizes) =~= redundant(rest).map_values(sizes)
            + spare_copies(last).map_values(sizes));
        lemma_sum_of_joined(redundant(rest).map_values(sizes), spare_copies(last).map_values(sizes));
        if last.len() > 1 {
            assert forall|k: int| 0 <= k < spare_copies(last).len() implies (#[trigger] spare_copies(
                last,
            )[k]).size == last[0].size by {
                assert(spare_copies(last)[k] == groups[groups.len() - 1][k + 1]);
            }
            lemma_gain_of_equal_files(spare_copies(last), last[0].size);
        } else {
            assert(spare_copies(last).map_values(sizes) =~= Seq::empty());
        }
    }
}

/// The files to delete when one copy of every duplicate group is kept: of every
/// group, all members but the first.
pub fn redundant_copies(groups: &Vec<Vec<FileInfo>>) -> (copies: Vec<FileInfo>)
    ensures
        copies.deep_view() == redundant(groups.deep_view()),
{
    let ghost spares = groups.deep_view().map_values(|group: Seq<FileRecord>| spare_copies(group));
    let mut copies: Vec<FileInfo> = Vec::new();
    let mut g: usize = 0;
    proof {
        assert(spares.take(0) =~= Seq::empty());
        assert(copies.deep_view() =~= spares.take(0).flatten());
    }
    while g < groups.len()
        invariant
            g <= groups@.len(),
            spares == groups.deep_view().map_values(|group: Seq<FileRecord>| spare_copies(group)),
            copies.deep_view() == spares.take(g as int).flatten(),
        decreases groups@.len() - g,
    {
        let group = &groups[g];
        let ghost done = copies.deep_view();
        let ghost members = group.deep_view();
        proof {
            assert(groups.deep_view()[g as int] == members);
            assert(spares.take(g + 1) =~= spares.take(g as int).push(spare_copies(members)));
            spares.take(g as int).lemma_flatten_push(spare_copies(members));
        }
        let mut k: usize = 1;
        while k < group.len()
            invariant
                1 <= k,
                members == group.deep_view(),
                group@.len() > 1 ==> k <= group@.len(),
                group@.len() > 1 ==> copies.deep_view() == done + members.subrange(1, k as int),
                group@.len() <= 1 ==> copies.deep_view() == done,
            decreases group@.len() - k,
        {
            let ghost before = copies.deep_view();
            copies.push(group[k].clone());
            proof {
                assert(members[k as int] == group@[k as int]@);
                assert(copies.deep_view() =~= before.push(members[k as int]));
                assert(members.subrange(1, k + 1) =~= members.subrange(1, k as int).push(
                    members[k as int],
                ));
            }
            k += 1;
        }
        proof {
            if group@.len() <= 1 {
                assert(done + spare_copies(members) =~= done);
            }
        }
        g += 1;
    }
    assert(spares.take(g as int) =~= spares);
    copies
}

/// The cache directory at `at` has a label that no earlier one has.
pub open spec fn is_new_type(caches: Seq<CacheRecord>, at: int) -> bool {
    &&& 0 <= at < caches.len()
    &&& forall|earlier: int|
        0 <= earlier < at ==> (#[trigger] caches[earlier]).cache_type != caches[at].cache_type
}

/// The positions among the first `limit` cache directories at which a new label
/// shows up.
pub open spec fn new_types_upto(caches: Seq<CacheRecord>, limit: nat) -> Seq<usize> {
    positions_where(limit, |at: int| is_new_type(caches, at))
}

/// The labels of `caches`, each once, in the order in which they show up.
pub open spec fn cache_types(caches: Seq<CacheRecord>) -> Seq<Seq<char>> {
    new_types_upto(caches, caches.len()).map_values(|at: usize| caches[at as int].cache_type)
}

/// The cache directories with the label `label`, in their order.
pub open spec fn of_type(caches: Seq<CacheRecord>, label: Seq<char>) -> Seq<CacheRecord> {
    caches.filter(|cache: CacheRecord| cache.cache_type == label)
}

/// Every label is the label at a position at or before it where it is new.
proof fn lemma_first_of_type(caches: Seq<CacheRecord>, at: int) -> (first: int)
    requires
        0 <= at < caches.len(),
    ensures
        0 <= first <= at,
        is_new_type(caches, first),
        caches[first].cache_type == caches[at].cache_type,
    decreases at,
{
    if is_new_type(caches, at) {
        at
    } else {
        let earlier = choose|earlier: int|
            0 <= earlier < at && (#[trigger] caches[earlier]).cache_type == caches[at].cache_type;
        lemma_first_of_type(caches, earlier)
    }
}

/// Where `label` stands in `types`, if it does.
fn position_of(types: &Vec<String>, label: &String) -> (found: Option<usize>)
    ensures
        match found {
            Some(t) => t < types@.len() && types@[t as int]@ == label@,
            None => forall|k: int| 0 <= k < types@.len() ==> (#[trigger] types@[k])@ != label@,
        },
{
    let mut t: usize = 0;
    while t < types.len()
        invariant
            t <= types@.len(),
            forall|k: int| 0 <= k < t ==> (#[trigger] types@[k])@ != label@,
        decreases types@.len() - t,
    {
        if types[t] == *label {
            return Some(t);
        }
        t += 1;
    }
    None
}

/// The labels of `caches`, each once, in the order in which they show up.
pub fn list_cache_types(caches: &Vec<CacheInfo>) -> (types: Vec<String>)
    ensures
        types.deep_view() == cache_types(caches.deep_view()),
{
    let ghost records = caches.deep_view();
    let ghost is_new = |at: int| is_new_type(records, at);
    let mut types: Vec<String> = Vec::new();
    let ghost mut firsts: Seq<usize> = Seq::empty();
    let mut i: usize = 0;
    assert(types.deep_view() =~= firsts.map_values(|at: usize| records[at as int].cache_type));
    while i < caches.len()
        invariant
            i <= caches@.len(),
            records == caches.deep_view(),
            is_new == (|at: int| is_new_type(records, at)),
            firsts == positions_where(i as nat, is_new),
            types.deep_view() == firsts.map_values(|at: usize| records[at as int].cache_type),
        decreases caches@.len() - i,
    {
        proof {
            lemma_positions_sound(i as nat, is_new);
            assert(records[i as int] == caches@[i as int]@);
        }
        let label = &caches[i].cache_type;
        let found = position_of(&types, label);
        let known: bool = found.is_some();
        proof {
            assert(types.deep_view().len() == types@.len());
            if known {
                let t = found->0;
                assert(types.deep_view()[t as int] == types@[t as int]@);
                let first = firsts[t as int];
                assert(records[first as int].cache_type == records[i as int].cache_type);
                assert(!is_new_type(records, i as int));
            } else {
                assert forall|earlier: int| 0 <= earlier < i implies (#[trigger] records[earlier]).cache_type
                    != records[i as int].cache_type by {
                    if records[earlier].cache_type == records[i as int].cache_type {
                        let first = lemma_first_of_type(records, earlier);
                        lemma_positions_complete(i as nat, is_new, first);
                        let k = choose|k: int| 0 <= k < firsts.len() && firsts[k] == first as usize;
                        assert(types.deep_view()[k] == types@[k]@);
                    }
                }
                assert(is_new_type(records, i as int));
            }
        }
        if !known {
            let ghost before = types.deep_view();
            types.push(label.clone());
            proof {
                let grown = firsts.push(i);
                assert(types.deep_view() =~= before.push(records[i as int].cache_type));
                assert(grown.map_values(|at: usize| records[at as int].cache_type) =~= firsts.map_values(
                    |at: usize| records[at as int].cache_type,
                ).push(records[i as int].cache_type));
                firsts = grown;
            }
        }
        i += 1;
    }
    types
}

/// The cache directories with the label `label`, in their order.
pub fn caches_of_type(caches: &Vec<CacheInfo>, label: &String) -> (chosen: Vec<CacheInfo>)
    ensures
        chosen.deep_view() == of_type(caches.deep_view(), label@),
{
    let ghost records = caches.deep_view();
    let ghost keep = |cache: CacheRecord| cache.cache_type == label@;
    let mut chosen: Vec<CacheInfo> = Vec::new();
    let mut i: usize = 0;
    proof {
        assert(records.take(0) =~= Seq::empty());
        records.take(0).lemma_filter_len(keep);
        assert(chosen.deep_view() =~= records.take(0).filter(keep));
    }
    while i < caches.len()
        invariant
            i <= caches@.len(),
            records == caches.deep_view(),
            keep == (|cache: CacheRecord| cache.cache_type == label@),
            chosen.deep_view() == records.take(i as int).filter(keep),
        decreases caches@.len() - i,
    {
        proof {
            assert(records[i as int] == caches@[i as int]@);
            assert(records.take(i + 1) =~= records.take(i as int).push(records[i as int]));
            records.take(i as int).lemma_filter_push(records[i as int], keep);
        }
        if caches[i].cache_type == *label {
            let ghost before = chosen.deep_view();
            chosen.push(caches[i].clone());
            assert(chosen.deep_view() =~= before.push(records[i as int]));
        }
        i += 1;
    }
    assert(records.take(i as int) =~= records);
    chosen
}

} // verus!
