use disk_reclaim::digest::digest_chunks;
use disk_reclaim::{find_duplicates, hash_candidates, ContentHasher, EntryKind, Timestamp, WalkEntry};

const MB: usize = 1024 * 1024;

fn file(path: &str, size: u64) -> WalkEntry {
    WalkEntry {
        path: path.to_string(),
        depth: 1,
        kind: EntryKind::File,
        size: Some(size),
        accessed: Some(Timestamp { secs: 50, nanos: 0 }),
        modified: Some(Timestamp { secs: 40, nanos: 0 }),
        digest: None,
    }
}

fn hashed(path: &str, size: u64, digest: &str) -> WalkEntry {
    let mut entry = file(path, size);
    entry.digest = Some(digest.to_string());
    entry
}

fn digest_of_repeated(byte: u8, len: usize) -> String {
    let chunk = vec![byte; 8192];
    let mut hasher = ContentHasher::new();
    let mut left = len;
    while left > 0 {
        let take = if left < chunk.len() { left } else { chunk.len() };
        hasher = hasher.update(&chunk[..take]).unwrap();
        left -= take;
    }
    hasher.finish()
}

fn paths(groups: &[Vec<disk_reclaim::FileInfo>]) -> Vec<Vec<String>> {
    groups.iter().map(|g| g.iter().map(|f| f.path.clone()).collect()).collect()
}

#[test]
fn two_files_with_the_same_content_form_the_only_group() {
    let mut listing = vec![
        file("/t/a.txt", 2 * MB as u64),
        file("/t/b.bin", 2 * MB as u64),
        file("/t/c.bin", 2 * MB as u64),
    ];
    assert_eq!(hash_candidates(&listing), vec![0, 1, 2]);
    listing[0].digest = Some(digest_of_repeated(b'X', 2 * MB));
    listing[1].digest = Some(digest_of_repeated(b'X', 2 * MB));
    listing[2].digest = Some(digest_of_repeated(b'Y', 2 * MB));
    let groups = find_duplicates(&listing);
    assert_eq!(paths(&groups), vec![vec!["/t/a.txt".to_string(), "/t/b.bin".to_string()]]);
    for group in &groups {
        for member in group {
            assert_ne!(member.path, "/t/c.bin");
            assert_eq!(member.size, 2 * MB as u64);
        }
    }
}

#[test]
fn unreadable_file_leaves_its_partner_alone() {
    let mut listing = vec![file("/t/readable", 4096), file("/t/locked", 4096)];
    assert_eq!(hash_candidates(&listing), vec![0, 1]);
    listing[0].digest = digest_chunks(&[vec![7u8; 4096]]);
    assert!(listing[0].digest.is_some());
    listing[1].digest = None;
    assert!(find_duplicates(&listing).is_empty());
}

#[test]
fn size_partition_takes_only_files_that_share_a_size() {
    let mut small_a = file("/t/small_a", 1024);
    small_a.accessed = Some(Timestamp { secs: 1, nanos: 0 });
    let mut no_times = file("/t/no_times", 5000);
    no_times.modified = None;
    let mut folder = file("/t/folder", 5000);
    folder.kind = EntryKind::Directory;
    let listing = vec![
        file("/t/unique", 9000),
        file("/t/a", 5000),
        small_a,
        file("/t/small_b", 1024),
        no_times,
        folder,
        file("/t/.git/a", 5000),
        file("/t/b", 5000),
        file("/t/floor_a", 1025),
        file("/t/floor_b", 1025),
    ];
    assert_eq!(hash_candidates(&listing), vec![1, 7, 8, 9]);
}

#[test]
fn size_partition_of_lonely_files_is_empty() {
    let listing = vec![file("/t/a", 2000), file("/t/b", 3000), file("/t/.git/c", 2000)];
    assert!(hash_candidates(&listing).is_empty());
    assert!(hash_candidates(&[]).is_empty());
}

#[test]
fn groups_come_in_the_order_of_their_first_member() {
    let listing = vec![
        hashed("/t/red_1", 3000, "aa"),
        hashed("/t/blue_1", 3000, "bb"),
        hashed("/t/green_1", 4000, "aa"),
        hashed("/t/blue_2", 3000, "bb"),
        hashed("/t/single", 3000, "cc"),
        hashed("/t/red_2", 3000, "aa"),
        hashed("/t/blue_3", 3000, "bb"),
        hashed("/t/green_2", 4000, "aa"),
    ];
    let groups = find_duplicates(&listing);
    assert_eq!(
        paths(&groups),
        vec![
            vec!["/t/red_1".to_string(), "/t/red_2".to_string()],
            vec!["/t/blue_1".to_string(), "/t/blue_2".to_string(), "/t/blue_3".to_string()],
            vec!["/t/green_1".to_string(), "/t/green_2".to_string()],
        ]
    );
    for group in &groups {
        assert!(group.len() >= 2);
        for member in group {
            assert_eq!(member.size, group[0].size);
            assert!(member.size > 1024);
        }
    }
}

#[test]
fn same_digest_with_different_sizes_is_no_duplicate() {
    let listing = vec![hashed("/t/a", 2000, "aa"), hashed("/t/b", 2001, "aa")];
    assert!(find_duplicates(&listing).is_empty());
}

#[test]
fn files_at_or_below_the_noise_floor_are_never_grouped() {
    let listing = vec![
        hashed("/t/a", 1024, "aa"),
        hashed("/t/b", 1024, "aa"),
        hashed("/t/c", 0, "bb"),
        hashed("/t/d", 0, "bb"),
    ];
    assert!(find_duplicates(&listing).is_empty());
    let above = vec![hashed("/t/a", 1025, "aa"), hashed("/t/b", 1025, "aa")];
    assert_eq!(find_duplicates(&above).len(), 1);
}

#[test]
fn excluded_and_incomplete_files_are_never_grouped() {
    let mut no_access = hashed("/t/no_access", 3000, "aa");
    no_access.accessed = None;
    let mut link = hashed("/t/link", 3000, "aa");
    link.kind = EntryKind::Other;
    let listing = vec![
        hashed("/t/kept", 3000, "aa"),
        hashed("/t/.git/objects/aa", 3000, "aa"),
        hashed("/proc/kcore", 3000, "aa"),
        no_access,
        link,
    ];
    assert!(find_duplicates(&listing).is_empty());
}

#[test]
fn scanning_twice_gives_the_same_groups() {
    let listing = vec![
        hashed("/t/a", 3000, "aa"),
        hashed("/t/b", 3000, "bb"),
        hashed("/t/c", 3000, "aa"),
        hashed("/t/d", 3000, "bb"),
    ];
    let once = find_duplicates(&listing);
    let again = find_duplicates(&listing);
    assert_eq!(once, again);
    assert_eq!(once.len(), 2);
}

#[test]
fn reordering_the_listing_keeps_the_groups() {
    let forward = vec![
        hashed("/t/a", 3000, "aa"),
        hashed("/t/b", 3000, "bb"),
        hashed("/t/c", 3000, "aa"),
        hashed("/t/d", 3000, "bb"),
        hashed("/t/e", 3000, "cc"),
    ];
    let backward: Vec<WalkEntry> = vec![
        hashed("/t/e", 3000, "cc"),
        hashed("/t/d", 3000, "bb"),
        hashed("/t/c", 3000, "aa"),
        hashed("/t/b", 3000, "bb"),
        hashed("/t/a", 3000, "aa"),
    ];
    let mut first: Vec<Vec<String>> = paths(&find_duplicates(&forward));
    let mut second: Vec<Vec<String>> = paths(&find_duplicates(&backward));
    for group in first.iter_mut().chain(second.iter_mut()) {
        group.sort();
    }
    first.sort();
    second.sort();
    assert_eq!(first, second);
}

#[test]
fn every_member_of_a_group_was_a_hash_candidate() {
    let mut listing = vec![
        file("/t/a", 3000),
        file("/t/lonely", 7000),
        file("/t/b", 3000),
        file("/t/c", 3000),
    ];
    let candidates = hash_candidates(&listing);
    assert_eq!(candidates, vec![0, 2, 3]);
    for &at in &candidates {
        listing[at].digest = Some("same".to_string());
    }
    let groups = find_duplicates(&listing);
    assert_eq!(groups.len(), 1);
    assert_eq!(groups[0].len(), 3);
}
