use disk_reclaim::answers::{chosen_caches, is_yes, parse_selection, Selection};
use disk_reclaim::cleanup::{caches_of_type, list_cache_types, redundant_copies};
use disk_reclaim::{CacheInfo, FileInfo, Timestamp};

fn info(path: &str, size: u64) -> FileInfo {
    FileInfo {
        path: path.to_string(),
        size,
        last_accessed: Timestamp { secs: 0, nanos: 0 },
        last_modified: Timestamp { secs: 0, nanos: 0 },
    }
}

fn cache(path: &str, label: &str, size: u64) -> CacheInfo {
    CacheInfo { path: path.to_string(), cache_type: label.to_string(), size }
}

fn caches() -> Vec<CacheInfo> {
    vec![
        cache("/a/target", "Rust/Cargo", 900),
        cache("/a/build", "Build output", 800),
        cache("/b/target", "Rust/Cargo", 700),
        cache("/c/dist", "Build output", 600),
        cache("/c/node_modules", "npm/yarn", 500),
    ]
}

fn paths(list: &[CacheInfo]) -> Vec<&str> {
    list.iter().map(|c| c.path.as_str()).collect()
}

#[test]
fn all_but_the_first_copy_of_each_group_can_go() {
    let groups = vec![
        vec![info("/a1", 10), info("/a2", 10), info("/a3", 10)],
        vec![info("/lonely", 5)],
        vec![],
        vec![info("/b1", 7), info("/b2", 7)],
    ];
    let copies = redundant_copies(&groups);
    let names: Vec<&str> = copies.iter().map(|f| f.path.as_str()).collect();
    assert_eq!(names, vec!["/a2", "/a3", "/b2"]);
    assert_eq!(copies[0], info("/a2", 10));
    assert!(redundant_copies(&Vec::new()).is_empty());
}

#[test]
fn labels_are_listed_once_in_their_order() {
    assert_eq!(list_cache_types(&caches()), vec!["Rust/Cargo", "Build output", "npm/yarn"]);
    assert!(list_cache_types(&Vec::new()).is_empty());
}

#[test]
fn caches_of_one_label_keep_their_order() {
    let all = caches();
    assert_eq!(paths(&caches_of_type(&all, &"Build output".to_string())), vec!["/a/build", "/c/dist"]);
    assert_eq!(paths(&caches_of_type(&all, &"npm/yarn".to_string())), vec!["/c/node_modules"]);
    assert!(caches_of_type(&all, &"Python".to_string()).is_empty());
    assert_eq!(caches_of_type(&all, &"Rust/Cargo".to_string())[1], cache("/b/target", "Rust/Cargo", 700));
}

#[test]
fn yes_is_y_or_yes_in_any_case() {
    assert!(is_yes("y"));
    assert!(is_yes("Y"));
    assert!(is_yes("yes"));
    assert!(is_yes("YeS"));
    assert!(is_yes("  yes\n"));
    assert!(is_yes("\ty\r\n"));
    assert!(!is_yes(""));
    assert!(!is_yes("\n"));
    assert!(!is_yes("n"));
    assert!(!is_yes("no"));
    assert!(!is_yes("yess"));
    assert!(!is_yes("ye"));
    assert!(!is_yes("y es"));
    assert!(!is_yes("yes."));
}

#[test]
fn empty_answer_chooses_nothing() {
    assert_eq!(parse_selection(""), Selection::Nothing);
    assert_eq!(parse_selection("  \t\r\n"), Selection::Nothing);
}

#[test]
fn the_word_all_chooses_everything() {
    assert_eq!(parse_selection("all"), Selection::All);
    assert_eq!(parse_selection("  ALL\n"), Selection::All);
    assert_eq!(parse_selection("All"), Selection::All);
    assert_eq!(parse_selection("alle"), Selection::Numbers(vec![]));
    assert_eq!(parse_selection("al"), Selection::Numbers(vec![]));
    assert_eq!(parse_selection("a l l"), Selection::Numbers(vec![]));
}

#[test]
fn numbers_are_read_between_commas() {
    assert_eq!(parse_selection("1"), Selection::Numbers(vec![1]));
    assert_eq!(parse_selection("1,2,3"), Selection::Numbers(vec![1, 2, 3]));
    assert_eq!(parse_selection(" 3 , 1 ,\t2 \n"), Selection::Numbers(vec![3, 1, 2]));
    assert_eq!(parse_selection("2,2"), Selection::Numbers(vec![2, 2]));
    assert_eq!(parse_selection("007,+5,0"), Selection::Numbers(vec![7, 5, 0]));
}

#[test]
fn what_is_no_number_is_passed_over() {
    assert_eq!(parse_selection("1,x,3"), Selection::Numbers(vec![1, 3]));
    assert_eq!(parse_selection(",,4,,"), Selection::Numbers(vec![4]));
    assert_eq!(parse_selection("-1,1.5,2 3,+,++1,1+,0x10"), Selection::Numbers(vec![]));
    assert_eq!(parse_selection("all,1"), Selection::Numbers(vec![1]));
    assert_eq!(parse_selection("1;2"), Selection::Numbers(vec![]));
}

#[test]
fn numbers_beyond_the_machine_are_passed_over() {
    let max = usize::MAX.to_string();
    assert_eq!(parse_selection(&max), Selection::Numbers(vec![usize::MAX]));
    let beyond = format!("{}0,7", max);
    assert_eq!(parse_selection(&beyond), Selection::Numbers(vec![7]));
    assert_eq!(
        parse_selection("340282366920938463463374607431768211456,2"),
        Selection::Numbers(vec![2])
    );
    let next = (usize::MAX as u128 + 1).to_string();
    assert_eq!(parse_selection(&next), Selection::Numbers(vec![]));
}

#[test]
fn a_choice_stands_for_the_caches_of_the_numbered_labels() {
    let all = caches();
    assert!(chosen_caches(&all, &Selection::Nothing).is_empty());
    assert_eq!(chosen_caches(&all, &Selection::All), all);
    assert_eq!(
        paths(&chosen_caches(&all, &Selection::Numbers(vec![2]))),
        vec!["/a/build", "/c/dist"]
    );
    assert_eq!(
        paths(&chosen_caches(&all, &Selection::Numbers(vec![3, 1]))),
        vec!["/c/node_modules", "/a/target", "/b/target"]
    );
    assert_eq!(
        paths(&chosen_caches(&all, &Selection::Numbers(vec![0, 4, 3, 99, 3]))),
        vec!["/c/node_modules", "/c/node_modules"]
    );
    assert!(chosen_caches(&all, &Selection::Numbers(vec![])).is_empty());
    assert!(chosen_caches(&Vec::new(), &Selection::All).is_empty());
    assert!(chosen_caches(&Vec::new(), &Selection::Numbers(vec![1])).is_empty());
}

#[test]
fn a_typed_choice_is_carried_out_as_read() {
    let all = caches();
    let picked = chosen_caches(&all, &parse_selection(" 1, 3 "));
    assert_eq!(paths(&picked), vec!["/a/target", "/b/target", "/c/node_modules"]);
    let picked = chosen_caches(&all, &parse_selection("ALL"));
    assert_eq!(picked.len(), 5);
}
