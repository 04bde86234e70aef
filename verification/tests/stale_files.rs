use disk_reclaim::stale_files::has_aged;
use disk_reclaim::{find_old_files, EntryKind, Timestamp, WalkEntry};

const DAY: i64 = 86_400;

fn file(path: &str, accessed: Option<Timestamp>) -> WalkEntry {
    WalkEntry {
        path: path.to_string(),
        depth: 1,
        kind: EntryKind::File,
        size: Some(2048),
        accessed,
        modified: Some(Timestamp { secs: 1_000, nanos: 0 }),
        digest: None,
    }
}

fn secs(secs: i64) -> Option<Timestamp> {
    Some(Timestamp { secs, nanos: 0 })
}

#[test]
fn stale_files_reach_the_threshold_at_the_captured_instant() {
    let now = Timestamp { secs: 1_000 * DAY, nanos: 0 };
    let listing = vec![
        file("/d/fresh", secs(999 * DAY)),
        file("/d/exactly", secs(820 * DAY)),
        file("/d/almost", secs(820 * DAY + 1)),
        file("/d/ancient", secs(10 * DAY)),
        file("/d/future", secs(1_001 * DAY)),
        file("/d/unknown", None),
    ];
    let found = find_old_files(&listing, 180, now);
    let paths: Vec<&str> = found.iter().map(|f| f.path.as_str()).collect();
    assert_eq!(paths, vec!["/d/exactly", "/d/ancient"]);
    for f in &found {
        assert!(now.secs - f.last_accessed.secs >= 180 * DAY);
    }
}

#[test]
fn nanoseconds_decide_at_the_edge() {
    let now = Timestamp { secs: 10 * DAY, nanos: 500 };
    assert!(has_aged(&Timestamp { secs: 9 * DAY, nanos: 500 }, &now, 1));
    assert!(has_aged(&Timestamp { secs: 9 * DAY, nanos: 499 }, &now, 1));
    assert!(!has_aged(&Timestamp { secs: 9 * DAY, nanos: 501 }, &now, 1));
    assert!(has_aged(&Timestamp { secs: 9 * DAY - 1, nanos: 999_999_999 }, &now, 1));
}

#[test]
fn threshold_of_zero_days_takes_everything_not_in_the_future() {
    let now = Timestamp { secs: 100, nanos: 0 };
    let listing = vec![
        file("/d/now", secs(100)),
        file("/d/later", Some(Timestamp { secs: 100, nanos: 1 })),
        file("/d/before_epoch", secs(-5)),
    ];
    let found = find_old_files(&listing, 0, now);
    let paths: Vec<&str> = found.iter().map(|f| f.path.as_str()).collect();
    assert_eq!(paths, vec!["/d/now", "/d/before_epoch"]);
}

#[test]
fn huge_thresholds_find_nothing() {
    let now = Timestamp { secs: i64::MAX, nanos: 999_999_999 };
    let listing = vec![file("/d/oldest", Some(Timestamp { secs: i64::MIN, nanos: 0 }))];
    assert!(find_old_files(&listing, u64::MAX, now).is_empty());
    assert_eq!(find_old_files(&listing, 1, now).len(), 1);
}

#[test]
fn stale_scan_skips_excluded_paths_and_incomplete_files() {
    let now = Timestamp { secs: 1_000 * DAY, nanos: 0 };
    let mut no_modified = file("/d/no_modified", secs(0));
    no_modified.modified = None;
    let mut folder = file("/d/folder", secs(0));
    folder.kind = EntryKind::Directory;
    let listing = vec![
        file("/proc/1/mem", secs(0)),
        file("/home/u/.git/config", secs(0)),
        no_modified,
        folder,
        file("/home/u/notes.txt", secs(0)),
    ];
    let found = find_old_files(&listing, 30, now);
    assert_eq!(found.len(), 1);
    assert_eq!(found[0].path, "/home/u/notes.txt");
    assert_eq!(found[0].size, 2048);
    assert_eq!(found[0].last_accessed, Timestamp { secs: 0, nanos: 0 });
    assert_eq!(found[0].last_modified, Timestamp { secs: 1_000, nanos: 0 });
}
