//! What holds of every result of the duplicate scan: the size partition misses
//! nothing, and neither the order of the listing nor what a walker has pruned
//! changes the groups.

use vstd::prelude::*;
use vstd::multiset::Multiset;
use crate::duplicates::{
    content_key, duplicate_groups, files_of_content, first_positions, group_of, has_size,
    is_duplicated, is_first_of_content, lemma_first_exists, lemma_group_is_uniform,
    lemma_group_origin, same_content,
    shares_size,
};
use crate::analysis::{duplicate_gain, files_gain};
use crate::cleanup::{lemma_duplicate_share_is_redundant_size, redundant, sizes_agree};
use crate::model::{FileRecord, WalkEntry};
use crate::positions::lemma_positions_complete;
use crate::ranking::lemma_map_keeps_multiset;
use crate::walker::{is_walked, lemma_selected_from_walk, lemma_selected_origin, walk};

verus! {

/// The duplicate groups without their order: each group as the collection of
/// its members.
pub open spec fn group_contents(entries: Seq<WalkEntry>) -> Set<Multiset<FileRecord>> {
    Set::new(
        |members: Multiset<FileRecord>|
            exists|g: int|
                0 <= g < duplicate_groups(entries).len() && (#[trigger] duplicate_groups(
                    entries,
                )[g]).to_multiset() == members,
    )
}

/// The size partition misses no duplicate: two different files with the same
/// content key both share their size, so both are among the files to hash.
pub proof fn lemma_duplicates_share_size(entries: Seq<WalkEntry>, a: int, b: int)
    requires
        a != b,
        same_content(entries, a, b),
    ensures
        shares_size(entries, a),
        shares_size(entries, b),
{
    let size = entries[a].size->0;
    assert(has_size(entries, a, size));
    assert(has_size(entries, b, size));
}

/// In what the duplicate scan reports, every member of every group has the
/// size of the first member of its group, so that the duplicate share of the
/// estimate is what deleting all members but the first frees.
pub proof fn lemma_scan_groups_agree_in_size(entries: Seq<WalkEntry>)
    requires
        entries.len() <= usize::MAX,
    ensures
        sizes_agree(duplicate_groups(entries)),
        files_gain(redundant(duplicate_groups(entries))) == duplicate_gain(
            duplicate_groups(entries),
        ),
{
    let groups = duplicate_groups(entries);
    assert forall|g: int, k: int| 0 <= g < groups.len() && 0 <= k < groups[g].len() implies (#[trigger] groups[g][k]).size
        == groups[g][0].size by {
        let key = lemma_group_is_uniform(entries, g);
    }
    lemma_duplicate_share_is_redundant_size(groups);
}

/// Filtering a list and then forgetting its order is forgetting the order and
/// then filtering.
pub proof fn lemma_filter_commutes_with_multiset<A>(items: Seq<A>, keep: spec_fn(A) -> bool)
    ensures
        items.filter(keep).to_multiset() == items.to_multiset().filter(keep),
    decreases items.len(),
{
    broadcast use vstd::multiset::group_multiset_axioms;

    if items.len() == 0 {
        items.lemma_filter_len(keep);
        assert(items.filter(keep) =~= Seq::empty());
        vstd::seq_lib::to_multiset_len(items);
        vstd::seq_lib::to_multiset_len(items.filter(keep));
        assert(items.filter(keep).to_multiset() =~= items.to_multiset().filter(keep));
    } else {
        let rest = items.drop_last();
        let last = items.last();
        assert(items =~= rest.push(last));
        lemma_filter_commutes_with_multiset(rest, keep);
        rest.lemma_filter_push(last, keep);
        vstd::seq_lib::to_multiset_build(rest, last);
        vstd::seq_lib::to_multiset_build(rest.filter(keep), last);
        assert(items.filter(keep).to_multiset() =~= items.to_multiset().filter(keep));
    }
}

/// A group holds all files of its content, and nothing else.
pub proof fn lemma_group_is_all_of_content(entries: Seq<WalkEntry>, g: int) -> (key: (
    u64,
    Seq<char>,
))
    requires
        entries.len() <= usize::MAX,
        0 <= g < duplicate_groups(entries).len(),
    ensures
        duplicate_groups(entries)[g] == files_of_content(entries, key),
        files_of_content(entries, key).len() >= 2,
{
    let first = lemma_group_origin(entries, g);
    content_key(entries[first as int])->0
}

/// Every content that two or more files have has its group.
pub proof fn lemma_content_has_group(entries: Seq<WalkEntry>, key: (u64, Seq<char>)) -> (g: int)
    requires
        entries.len() <= usize::MAX,
        files_of_content(entries, key).len() >= 2,
    ensures
        0 <= g < duplicate_groups(entries).len(),
        duplicate_groups(entries)[g] == files_of_content(entries, key),
{
    let n = entries.len();
    let keep = |entry: WalkEntry| content_key(entry) == Some(key);
    let member = lemma_selected_origin(entries, keep, 0);
    let first = lemma_first_exists(entries, member);
    let is_first = |at: int| is_first_of_content(entries, at);
    lemma_positions_complete(n, is_first, first);
    let firsts = first_positions(entries);
    let twice = |first: usize| is_duplicated(entries, first);
    let f = choose|f: int| 0 <= f < firsts.len() && firsts[f] == first as usize;
    assert(twice(firsts[f]));
    firsts.lemma_filter_contains(twice, f);
    let chosen = firsts.filter(twice);
    let g = choose|g: int| 0 <= g < chosen.len() && chosen[g] == firsts[f];
    assert(duplicate_groups(entries)[g] == group_of(entries, chosen[g]));
    g
}

/// Two listings with the same entries hold the same files of every content.
pub proof fn lemma_same_files_of_content(
    one: Seq<WalkEntry>,
    other: Seq<WalkEntry>,
    key: (u64, Seq<char>),
)
    requires
        one.to_multiset() == other.to_multiset(),
    ensures
        files_of_content(one, key).to_multiset() == files_of_content(other, key).to_multiset(),
        files_of_content(one, key).len() == files_of_content(other, key).len(),
{
    let keep = |entry: WalkEntry| content_key(entry) == Some(key);
    lemma_filter_commutes_with_multiset(one, keep);
    lemma_filter_commutes_with_multiset(other, keep);
    lemma_map_keeps_multiset(one.filter(keep), other.filter(keep), |entry: WalkEntry| entry.record());
    vstd::seq_lib::to_multiset_len(files_of_content(one, key));
    vstd::seq_lib::to_multiset_len(files_of_content(other, key));
}

/// Scanning an unchanged tree again reports the same groups with the same
/// members, whatever the order in which the walker lists the tree: two listings
/// with the same entries have the same duplicate groups, order aside.
pub proof fn lemma_groups_ignore_order(one: Seq<WalkEntry>, other: Seq<WalkEntry>)
    requires
        one.len() <= usize::MAX,
        one.to_multiset() == other.to_multiset(),
    ensures
        group_contents(one) == group_contents(other),
{
    vstd::seq_lib::to_multiset_len(one);
    vstd::seq_lib::to_multiset_len(other);
    assert forall|members: Multiset<FileRecord>|
        group_contents(one).contains(members) == group_contents(other).contains(members) by {
        if group_contents(one).contains(members) {
            let g = choose|g: int|
                0 <= g < duplicate_groups(one).len() && (#[trigger] duplicate_groups(
                    one,
                )[g]).to_multiset() == members;
            let key = lemma_group_is_all_of_content(one, g);
            lemma_same_files_of_content(one, other, key);
            let h = lemma_content_has_group(other, key);
            assert(duplicate_groups(other)[h].to_multiset() == members);
        }
        if group_contents(other).contains(members) {
            let g = choose|g: int|
                0 <= g < duplicate_groups(other).len() && (#[trigger] duplicate_groups(
                    other,
                )[g]).to_multiset() == members;
            let key = lemma_group_is_all_of_content(other, g);
            lemma_same_files_of_content(other, one, key);
            let h = lemma_content_has_group(one, key);
            assert(duplicate_groups(one)[h].to_multiset() == members);
        }
    }
    assert(group_contents(one) =~= group_contents(other));
}

/// The duplicate groups of what an unbounded walk yields are the duplicate
/// groups of the listing, order aside: what a walker has left out for being
/// excluded is in no group.
pub proof fn lemma_groups_of_walk(entries: Seq<WalkEntry>)
    requires
        entries.len() <= usize::MAX,
    ensures
        group_contents(walk(entries, None)) == group_contents(entries),
{
    let yielded = walk(entries, None);
    entries.lemma_filter_len(|entry: WalkEntry| is_walked(entry, None));
    assert forall|members: Multiset<FileRecord>|
        group_contents(yielded).contains(members) == group_contents(entries).contains(members) by {
        if group_contents(yielded).contains(members) {
            let g = choose|g: int|
                0 <= g < duplicate_groups(yielded).len() && (#[trigger] duplicate_groups(
                    yielded,
                )[g]).to_multiset() == members;
            let key = lemma_group_is_all_of_content(yielded, g);
            lemma_selected_from_walk(entries, None, |entry: WalkEntry| content_key(entry) == Some(key));
            let h = lemma_content_has_group(entries, key);
            assert(duplicate_groups(entries)[h].to_multiset() == members);
        }
        if group_contents(entries).contains(members) {
            let g = choose|g: int|
                0 <= g < duplicate_groups(entries).len() && (#[trigger] duplicate_groups(
                    entries,
                )[g]).to_multiset() == members;
            let key = lemma_group_is_all_of_content(entries, g);
            lemma_selected_from_walk(entries, None, |entry: WalkEntry| content_key(entry) == Some(key));
            let h = lemma_content_has_group(yielded, key);
            assert(duplicate_groups(yielded)[h].to_multiset() == members);
        }
    }
    assert(group_contents(yielded) =~= group_contents(entries));
}

} // verus!
