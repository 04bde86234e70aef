use disk_reclaim::walker::walked;
use disk_reclaim::{EntryKind, FileInfo, Timestamp, WalkEntry};

fn entry(path: &str) -> WalkEntry {
    WalkEntry {
        path: path.to_string(),
        depth: 2,
        kind: EntryKind::File,
        size: Some(77),
        accessed: Some(Timestamp { secs: 5, nanos: 6 }),
        modified: Some(Timestamp { secs: 7, nanos: 8 }),
        digest: Some("ab".to_string()),
    }
}

#[test]
fn timestamps_count_nanoseconds_from_the_epoch() {
    assert_eq!(Timestamp { secs: 0, nanos: 0 }.to_nanos(), 0);
    assert_eq!(Timestamp { secs: 2, nanos: 5 }.to_nanos(), 2_000_000_005);
    assert_eq!(Timestamp { secs: -1, nanos: 999_999_999 }.to_nanos(), -1);
    assert_eq!(
        Timestamp { secs: i64::MAX, nanos: u32::MAX }.to_nanos(),
        i64::MAX as i128 * 1_000_000_000 + u32::MAX as i128
    );
    assert_eq!(
        Timestamp { secs: i64::MIN, nanos: 0 }.to_nanos(),
        i64::MIN as i128 * 1_000_000_000
    );
}

#[test]
fn time_stamps_after_the_epoch() {
    assert_eq!(Timestamp::after_epoch(0, 0), Some(Timestamp { secs: 0, nanos: 0 }));
    assert_eq!(Timestamp::after_epoch(12, 345), Some(Timestamp { secs: 12, nanos: 345 }));
    assert_eq!(
        Timestamp::after_epoch(i64::MAX as u64, 999_999_999),
        Some(Timestamp { secs: i64::MAX, nanos: 999_999_999 })
    );
    assert_eq!(Timestamp::after_epoch(i64::MAX as u64 + 1, 0), None);
    assert_eq!(Timestamp::after_epoch(1, 1_000_000_000), None);
}

#[test]
fn time_stamps_before_the_epoch() {
    assert_eq!(Timestamp::before_epoch(0, 0), Some(Timestamp { secs: 0, nanos: 0 }));
    assert_eq!(Timestamp::before_epoch(5, 0), Some(Timestamp { secs: -5, nanos: 0 }));
    assert_eq!(Timestamp::before_epoch(0, 1), Some(Timestamp { secs: -1, nanos: 999_999_999 }));
    assert_eq!(
        Timestamp::before_epoch(5, 250_000_000),
        Some(Timestamp { secs: -6, nanos: 750_000_000 })
    );
    assert_eq!(Timestamp::before_epoch(5, 250_000_000).unwrap().to_nanos(), -5_250_000_000);
    assert_eq!(
        Timestamp::before_epoch(1 << 63, 0),
        Some(Timestamp { secs: i64::MIN, nanos: 0 })
    );
    assert_eq!(
        Timestamp::before_epoch((1 << 63) - 1, 1),
        Some(Timestamp { secs: i64::MIN, nanos: 999_999_999 })
    );
    assert_eq!(Timestamp::before_epoch(1 << 63, 1), None);
    assert_eq!(Timestamp::before_epoch((1 << 63) + 1, 0), None);
    assert_eq!(Timestamp::before_epoch(1, 1_000_000_000), None);
}

#[test]
fn complete_file_gives_its_record() {
    let e = entry("/x/y");
    assert!(e.complete_file());
    assert_eq!(
        e.to_file_info(),
        Some(FileInfo {
            path: "/x/y".to_string(),
            size: 77,
            last_accessed: Timestamp { secs: 5, nanos: 6 },
            last_modified: Timestamp { secs: 7, nanos: 8 },
        })
    );
}

#[test]
fn incomplete_entries_give_no_record() {
    let mut e = entry("/x/y");
    e.size = None;
    assert!(!e.complete_file());
    assert_eq!(e.to_file_info(), None);
    let mut e = entry("/x/y");
    e.accessed = None;
    assert_eq!(e.to_file_info(), None);
    let mut e = entry("/x/y");
    e.modified = None;
    assert_eq!(e.to_file_info(), None);
    let mut e = entry("/x/y");
    e.kind = EntryKind::Directory;
    assert_eq!(e.to_file_info(), None);
    let mut e = entry("/x/y");
    e.kind = EntryKind::Other;
    assert_eq!(e.to_file_info(), None);
}

#[test]
fn copies_are_equal() {
    let info = entry("/x/y").to_file_info().unwrap();
    assert_eq!(info.clone(), info);
    let stamp = Timestamp { secs: 1, nanos: 2 };
    assert_eq!(stamp.clone(), stamp);
    assert_eq!(EntryKind::Other.clone(), EntryKind::Other);
}

#[test]
fn a_walk_skips_what_is_excluded_or_too_deep() {
    assert!(walked(&entry("/home/u/file"), None));
    assert!(!walked(&entry("/home/u/.git/file"), None));
    assert!(!walked(&entry("/sys/file"), None));
    assert!(walked(&entry("/home/u/file"), Some(2)));
    assert!(walked(&entry("/home/u/file"), Some(3)));
    assert!(!walked(&entry("/home/u/file"), Some(1)));
    assert!(!walked(&entry("/home/u/file"), Some(0)));
    assert!(!walked(&entry("/home/u/.git/file"), Some(9)));
}
