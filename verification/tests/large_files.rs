use disk_reclaim::{find_large_files, EntryKind, Timestamp, WalkEntry};

const MB: u64 = 1024 * 1024;

fn at(secs: i64) -> Timestamp {
    Timestamp { secs, nanos: 0 }
}

fn file(path: &str, depth: usize, size: u64) -> WalkEntry {
    WalkEntry {
        path: path.to_string(),
        depth,
        kind: EntryKind::File,
        size: Some(size),
        accessed: Some(at(1_700_000_000)),
        modified: Some(at(1_600_000_000)),
        digest: None,
    }
}

fn dir(path: &str, depth: usize) -> WalkEntry {
    WalkEntry {
        path: path.to_string(),
        depth,
        kind: EntryKind::Directory,
        size: Some(4096),
        accessed: Some(at(1_700_000_000)),
        modified: Some(at(1_600_000_000)),
        digest: None,
    }
}

#[test]
fn large_files_are_at_least_the_threshold_and_descend() {
    let listing = vec![
        dir("/data", 0),
        file("/data/small.bin", 1, 10 * MB - 1),
        file("/data/exact.bin", 1, 10 * MB),
        file("/data/huge.bin", 1, 500 * MB),
        file("/data/medium.bin", 1, 40 * MB),
        file("/data/tiny.txt", 1, 12),
    ];
    let found = find_large_files(&listing, 10);
    let paths: Vec<&str> = found.iter().map(|f| f.path.as_str()).collect();
    assert_eq!(paths, vec!["/data/huge.bin", "/data/medium.bin", "/data/exact.bin"]);
    let sizes: Vec<u64> = found.iter().map(|f| f.size).collect();
    assert_eq!(sizes, vec![500 * MB, 40 * MB, 10 * MB]);
    for pair in found.windows(2) {
        assert!(pair[0].size >= pair[1].size);
    }
    for f in &found {
        assert!(f.size >= 10 * MB);
    }
}

#[test]
fn large_file_records_carry_the_metadata_of_the_entry() {
    let mut entry = file("/data/a.iso", 1, 3 * MB);
    entry.accessed = Some(Timestamp { secs: 11, nanos: 22 });
    entry.modified = Some(Timestamp { secs: -33, nanos: 44 });
    let found = find_large_files(&[entry], 1);
    assert_eq!(found.len(), 1);
    assert_eq!(found[0].path, "/data/a.iso");
    assert_eq!(found[0].size, 3 * MB);
    assert_eq!(found[0].last_accessed, Timestamp { secs: 11, nanos: 22 });
    assert_eq!(found[0].last_modified, Timestamp { secs: -33, nanos: 44 });
}

#[test]
fn equal_sizes_keep_the_order_of_the_listing() {
    let listing = vec![
        file("/d/one", 1, 5 * MB),
        file("/d/two", 1, 7 * MB),
        file("/d/three", 1, 5 * MB),
        file("/d/four", 1, 7 * MB),
        file("/d/five", 1, 5 * MB),
    ];
    let found = find_large_files(&listing, 1);
    let paths: Vec<&str> = found.iter().map(|f| f.path.as_str()).collect();
    assert_eq!(paths, vec!["/d/two", "/d/four", "/d/one", "/d/three", "/d/five"]);
}

#[test]
fn file_inside_version_control_directory_is_never_large() {
    let listing = vec![
        dir("/repo", 0),
        dir("/repo/.git", 1),
        dir("/repo/.git/objects", 2),
        file("/repo/.git/objects/pack.bin", 3, 50 * MB),
        file("/repo/video.mp4", 1, 50 * MB),
    ];
    let found = find_large_files(&listing, 10);
    assert_eq!(found.len(), 1);
    assert_eq!(found[0].path, "/repo/video.mp4");
}

#[test]
fn files_without_full_metadata_are_left_out() {
    let mut no_size = file("/d/no_size", 1, 0);
    no_size.size = None;
    let mut no_access = file("/d/no_access", 1, 9 * MB);
    no_access.accessed = None;
    let mut no_modify = file("/d/no_modify", 1, 9 * MB);
    no_modify.modified = None;
    let mut link = file("/d/link", 1, 9 * MB);
    link.kind = EntryKind::Other;
    let mut folder = dir("/d/folder", 1);
    folder.size = Some(9 * MB);
    let listing = vec![no_size, no_access, no_modify, link, folder, file("/d/ok", 1, 9 * MB)];
    let found = find_large_files(&listing, 1);
    assert_eq!(found.len(), 1);
    assert_eq!(found[0].path, "/d/ok");
}

#[test]
fn threshold_of_zero_takes_every_complete_file() {
    let listing = vec![file("/d/empty", 1, 0), file("/d/one", 1, 1)];
    let found = find_large_files(&listing, 0);
    let paths: Vec<&str> = found.iter().map(|f| f.path.as_str()).collect();
    assert_eq!(paths, vec!["/d/one", "/d/empty"]);
}

#[test]
fn threshold_beyond_any_size_finds_nothing() {
    let listing = vec![file("/d/max", 1, u64::MAX)];
    assert!(find_large_files(&listing, u64::MAX).is_empty());
    assert!(find_large_files(&listing, 1 << 44).is_empty());
    assert_eq!(find_large_files(&listing, (1 << 44) - 1).len(), 1);
}

#[test]
fn empty_listing_has_no_large_files() {
    assert!(find_large_files(&[], 0).is_empty());
}
