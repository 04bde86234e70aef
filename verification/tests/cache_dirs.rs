use disk_reclaim::cache_dirs::cache_type_of;
use disk_reclaim::{calculate_dir_size, find_cache_directories, EntryKind, Timestamp, WalkEntry};

const MB: u64 = 1024 * 1024;

fn entry(path: &str, depth: usize, kind: EntryKind, size: Option<u64>) -> WalkEntry {
    WalkEntry {
        path: path.to_string(),
        depth,
        kind,
        size,
        accessed: Some(Timestamp { secs: 50, nanos: 0 }),
        modified: Some(Timestamp { secs: 40, nanos: 0 }),
        digest: None,
    }
}

fn dir(path: &str, depth: usize) -> WalkEntry {
    entry(path, depth, EntryKind::Directory, Some(4096))
}

fn file(path: &str, depth: usize, size: u64) -> WalkEntry {
    entry(path, depth, EntryKind::File, Some(size))
}

#[test]
fn leftover_package_makes_one_cache_record() {
    let listing = vec![
        dir("/root", 0),
        dir("/root/proj", 1),
        dir("/root/proj/node_modules", 2),
        file("/root/proj/node_modules/leftover.pkg", 3, 3 * MB),
    ];
    let found = find_cache_directories(&listing);
    assert_eq!(found.len(), 1);
    assert_eq!(found[0].path, "/root/proj/node_modules");
    assert_eq!(found[0].cache_type, "npm/yarn");
    assert!(found[0].size >= 3 * MB);
    assert_eq!(found[0].size, 3 * MB);
}

#[test]
fn cache_records_have_positive_sizes_and_distinct_paths() {
    let listing = vec![
        dir("/w", 0),
        dir("/w/a", 1),
        dir("/w/a/target", 2),
        file("/w/a/target/debug.bin", 3, 700),
        dir("/w/b", 1),
        dir("/w/b/target", 2),
        dir("/w/b/build", 2),
        file("/w/b/build/out.o", 3, 9000),
        dir("/w/a/target", 2),
        dir("/w/c", 1),
        dir("/w/c/dist", 2),
        dir("/w/c/dist/assets", 3),
        file("/w/c/dist/assets/app.js", 4, 100),
        file("/w/c/dist/index.html", 3, 50),
    ];
    let found = find_cache_directories(&listing);
    let seen: Vec<(&str, &str, u64)> =
        found.iter().map(|c| (c.path.as_str(), c.cache_type.as_str(), c.size)).collect();
    assert_eq!(
        seen,
        vec![
            ("/w/b/build", "Build output", 9000),
            ("/w/a/target", "Rust/Cargo", 700),
            ("/w/c/dist", "Build output", 150),
        ]
    );
    for (i, a) in found.iter().enumerate() {
        assert!(a.size > 0);
        for b in found.iter().skip(i + 1) {
            assert_ne!(a.path, b.path);
        }
    }
}

#[test]
fn every_pattern_has_its_label() {
    assert_eq!(cache_type_of("/p/node_modules"), Some("npm/yarn"));
    assert_eq!(cache_type_of("/p/target"), Some("Rust/Cargo"));
    assert_eq!(cache_type_of("/home/u/.cache"), Some("System cache"));
    assert_eq!(cache_type_of("/p/pkg/__pycache__"), Some("Python"));
    assert_eq!(cache_type_of("/home/u/.npm"), Some("npm cache"));
    assert_eq!(cache_type_of("/home/u/.cargo/registry"), Some("Cargo registry"));
    assert_eq!(cache_type_of("/home/u/.pip"), Some("pip cache"));
    assert_eq!(cache_type_of("/p/dist"), Some("Build output"));
    assert_eq!(cache_type_of("/p/build"), Some("Build output"));
    assert_eq!(cache_type_of("/home/u/.gradle"), Some("Gradle cache"));
    assert_eq!(cache_type_of("/home/u/.m2/repository"), Some("Maven cache"));
}

#[test]
fn patterns_match_the_end_of_the_path() {
    assert_eq!(cache_type_of("target"), Some("Rust/Cargo"));
    assert_eq!(cache_type_of("/p/rebuild"), Some("Build output"));
    assert_eq!(cache_type_of("/p/target/debug"), None);
    assert_eq!(cache_type_of("/p/targets"), None);
    assert_eq!(cache_type_of("/home/u/.cargo"), None);
    assert_eq!(cache_type_of("/home/u/registry"), None);
    assert_eq!(cache_type_of(""), None);
    assert_eq!(cache_type_of("/"), None);
}

#[test]
fn empty_cache_directories_are_not_reported() {
    let listing = vec![
        dir("/w", 0),
        dir("/w/target", 1),
        dir("/w/target/debug", 2),
        file("/w/target/debug/empty", 3, 0),
        dir("/w/build", 1),
        dir("/w/targetfile", 1),
        file("/w/targetfile/x", 2, 10),
    ];
    assert!(find_cache_directories(&listing).is_empty());
}

#[test]
fn only_directories_within_the_depth_limit_are_looked_at() {
    let listing = vec![
        dir("/a/b/c/d/e/f/build", 6),
        file("/a/b/c/d/e/f/build/x", 7, 10),
        dir("/a/b/c/d/e/f/g/build", 7),
        file("/a/b/c/d/e/f/g/build/y", 8, 20),
        file("/a/dist", 1, 30),
        entry("/a/target", 1, EntryKind::Other, Some(40)),
    ];
    let found = find_cache_directories(&listing);
    assert_eq!(found.len(), 1);
    assert_eq!(found[0].path, "/a/b/c/d/e/f/build");
    assert_eq!(found[0].size, 10);
}

#[test]
fn excluded_cache_directories_are_skipped() {
    let listing = vec![
        dir("/repo/.git/build", 2),
        file("/repo/.git/build/x", 3, 10),
        dir("/proc/build", 1),
        file("/proc/build/y", 2, 10),
    ];
    assert!(find_cache_directories(&listing).is_empty());
}

#[test]
fn directory_size_counts_all_regular_files_beneath() {
    let listing = vec![
        dir("/w/target", 1),
        file("/w/target/a", 2, 100),
        dir("/w/target/deep", 2),
        file("/w/target/deep/b", 3, 20),
        file("/w/target/deep/.git/c", 4, 3),
        entry("/w/target/link", 2, EntryKind::Other, Some(5000)),
        entry("/w/target/unreadable", 2, EntryKind::File, None),
        file("/w/target2/d", 2, 7000),
        file("/w/targe", 1, 9000),
        file("/w/target", 1, 11000),
    ];
    assert_eq!(calculate_dir_size(&listing, "/w/target"), 123);
    assert_eq!(calculate_dir_size(&listing, "/w/target/deep"), 23);
    assert_eq!(calculate_dir_size(&listing, "/w/target/"), 123);
    assert_eq!(calculate_dir_size(&listing, "/w"), 27123);
    assert_eq!(calculate_dir_size(&listing, "/"), 27123);
    assert_eq!(calculate_dir_size(&listing, "/nowhere"), 0);
    assert_eq!(calculate_dir_size(&listing, ""), 0);
}

#[test]
fn directory_size_is_capped() {
    let listing = vec![
        dir("/w/build", 1),
        file("/w/build/a", 2, u64::MAX - 5),
        file("/w/build/b", 2, 5),
        file("/w/build/c", 2, 1),
    ];
    assert_eq!(calculate_dir_size(&listing, "/w/build"), u64::MAX);
    let found = find_cache_directories(&listing);
    assert_eq!(found.len(), 1);
    assert_eq!(found[0].size, u64::MAX);
}
