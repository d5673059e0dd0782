use hard_sync::journal::PathTransactionData;
use hard_sync::journal::WalkEntry;
use hard_sync::transaction::get_transaction;
use hard_sync::transaction::select_files;
use hard_sync::transaction::should_copy;
use hard_sync::transaction::stale;
use hard_sync::transaction::Stage;
use hard_sync::transaction::Transaction;

const BASE: &str = "c:/workspace";
const TARGET: &str = "c:/workspace";

fn file(path: &str, m: u64, a: u64, c: u64) -> PathTransactionData {
    PathTransactionData::new(path.to_string(), m, a, c, "1".to_string(), false)
}

fn dir(path: &str, m: u64, a: u64, c: u64) -> PathTransactionData {
    PathTransactionData::new(path.to_string(), m, a, c, "4096".to_string(), true)
}

fn paths(v: &[PathTransactionData]) -> Vec<String> {
    v.iter().map(|r| r.get_path().to_string()).collect()
}

#[test]
fn test_get_transaction() {
    let created_trans = get_transaction(BASE.to_owned(), TARGET.to_owned());
    let real_trans = Transaction::new(BASE.to_owned(), TARGET.to_owned());
    assert_eq!(created_trans, real_trans);
}

#[test]
fn sessions_differ_by_roots_and_journals() {
    let a = Transaction::new_at("/a".to_string(), "/b".to_string(), 1);
    let same = Transaction::new_at("/a".to_string(), "/b".to_string(), 999);
    let other_target = Transaction::new_at("/a".to_string(), "/c".to_string(), 1);
    let other_base = Transaction::new_at("/x".to_string(), "/b".to_string(), 1);
    let mut loaded = Transaction::new_at("/a".to_string(), "/b".to_string(), 1);
    loaded.load_base_data_at(vec![file("f", 1, 1, 1)], 1);
    assert!(a == same);
    assert!(a != other_target);
    assert!(a != other_base);
    assert!(a != loaded);
    assert!(file("f", 1, 2, 3) == file("f", 1, 2, 3));
    assert!(file("f", 1, 2, 3) != file("f", 1, 2, 4));
    assert!(file("f", 1, 2, 3) != dir("f", 1, 2, 3));
    assert!(file("f", 1, 2, 3) != file("g", 1, 2, 3));
}

#[test]
fn new_session_has_empty_caches() {
    let t = Transaction::new_at("/a".to_string(), "/b".to_string(), 100);
    assert_eq!(t.get_base(), "/a");
    assert_eq!(t.get_target(), "/b");
    assert!(t.get_base_data_at(100).unwrap().is_empty());
    assert!(t.get_target_data_at(100).unwrap().is_empty());
    let now = Transaction::new("/a".to_string(), "/b".to_string());
    assert_eq!(now.get_base(), "/a");
    assert!(now.get_base_data().unwrap().is_empty());
    assert!(now.get_target_data().unwrap().is_empty());
}

#[test]
fn cache_is_fresh_for_five_seconds() {
    assert!(!stale(100, 100));
    assert!(!stale(100, 105));
    assert!(stale(100, 106));
    assert!(!stale(100, 50));
    assert!(stale(i64::MIN, i64::MAX));
    assert!(!stale(i64::MAX, i64::MIN));
    assert!(!stale(-3, 2));
    assert!(stale(-3, 3));
}

#[test]
fn reads_within_the_window_agree() {
    let mut t = Transaction::new_at("/a".to_string(), "/b".to_string(), 0);
    t.load_base_data_at(vec![file("x", 1, 1, 1), file("y", 2, 2, 2)], 1000);
    let first = paths(t.get_base_data_at(1000).unwrap());
    let second = paths(t.get_base_data_at(1005).unwrap());
    assert_eq!(first, vec!["x", "y"]);
    assert_eq!(first, second);
    // Past the window the read asks for a reload.
    assert!(t.get_base_data_at(1006).is_none());
    // The target was refreshed at 0 and has long been stale.
    assert!(t.get_target_data_at(1000).is_none());
    // A reload brings new content and a new window.
    t.load_base_data_at(vec![file("z", 3, 3, 3)], 1006);
    assert_eq!(paths(t.get_base_data_at(1011).unwrap()), vec!["z"]);
    t.load_target_data_at(vec![file("w", 3, 3, 3)], 1006);
    assert_eq!(paths(t.get_target_data_at(1011).unwrap()), vec!["w"]);
    assert!(t.get_target_data_at(1012).is_none());
}

#[test]
fn prepare_fills_both_caches() {
    let mut t = Transaction::new("/a".to_string(), "/b".to_string());
    assert_eq!(t.get_stage(), Stage::Created);
    assert!(t.prepare(vec![file("x", 1, 1, 1)], vec![file("y", 1, 1, 1), file("z", 1, 1, 1)]));
    assert_eq!(t.get_stage(), Stage::Prepared);
    assert_eq!(paths(t.get_base_data().unwrap()), vec!["x"]);
    assert_eq!(paths(t.get_target_data().unwrap()), vec!["y", "z"]);
    t.load_base_data(Vec::new());
    assert!(t.get_base_data().unwrap().is_empty());
    t.load_target_data(vec![file("q", 1, 1, 1)]);
    assert_eq!(paths(t.get_target_data().unwrap()), vec!["q"]);
    assert_eq!(t.get_stage(), Stage::Prepared);
    // A session is prepared once.
    assert!(!t.prepare(Vec::new(), Vec::new()));
    assert_eq!(paths(t.get_target_data().unwrap()), vec!["q"]);
}

#[test]
fn run_passes_through_the_stages_in_order() {
    let mut t = Transaction::new_at("/a".to_string(), "/b".to_string(), 10);
    assert_eq!(t.get_stage(), Stage::Created);
    // Nothing but the first step is taken by a new session.
    assert!(t.sync_at(10, "/").is_none());
    assert!(!t.record_copies(0));
    assert!(!t.persist_at(Vec::new(), Vec::new(), 10));
    assert_eq!(t.get_stage(), Stage::Created);

    assert!(t.prepare_at(vec![file("f", 1, 1, 1)], Vec::new(), 10));
    assert_eq!(t.get_stage(), Stage::Prepared);
    assert!(!t.prepare_at(Vec::new(), Vec::new(), 10));
    assert!(!t.record_copies(0));
    assert!(!t.persist_at(Vec::new(), Vec::new(), 10));

    let plan = t.sync_at(12, "/").unwrap();
    assert_eq!(plan, vec![(vec!["a/f".to_string()], "/b".to_string())]);
    assert_eq!(t.get_stage(), Stage::Diffed);
    assert!(t.sync_at(12, "/").is_none());
    assert!(!t.persist_at(Vec::new(), Vec::new(), 12));

    // A failed copy does not stop the run.
    assert!(t.record_copies(1));
    assert_eq!(t.get_stage(), Stage::Copied);
    assert_eq!(t.get_failed_groups(), 1);
    assert!(!t.record_copies(0));
    assert_eq!(t.get_failed_groups(), 1);

    assert!(t.persist_at(vec![file("f", 1, 1, 1)], vec![file("f", 2, 2, 2)], 20));
    assert_eq!(t.get_stage(), Stage::Persisted);
    assert_eq!(paths(t.get_target_data_at(25).unwrap()), vec!["f"]);
    assert!(t.get_target_data_at(26).is_none());
    assert!(!t.persist_at(Vec::new(), Vec::new(), 20));
    assert!(!t.prepare_at(Vec::new(), Vec::new(), 20));
    assert!(t.sync_at(20, "/").is_none());
    assert_eq!(t.get_stage(), Stage::Persisted);
}

#[test]
fn persist_at_the_present_time() {
    let mut t = Transaction::new("/a".to_string(), "/b".to_string());
    assert!(t.prepare(Vec::new(), Vec::new()));
    assert_eq!(t.sync("/"), Some(Vec::new()));
    assert!(t.record_copies(0));
    assert!(t.persist(vec![file("x", 1, 1, 1)], Vec::new()));
    assert_eq!(t.get_stage(), Stage::Persisted);
    assert_eq!(paths(t.get_base_data().unwrap()), vec!["x"]);
}

#[test]
fn copy_rule_compares_three_timestamps() {
    let base = file("f", 10, 10, 10);
    assert!(should_copy(&base, None));
    // Older by the time of the last change.
    assert!(should_copy(&base, Some(&file("f", 9, 99, 99))));
    assert!(!should_copy(&base, Some(&file("f", 11, 0, 0))));
    // Same change time: older by the time of the last access.
    assert!(should_copy(&base, Some(&file("f", 10, 9, 99))));
    assert!(!should_copy(&base, Some(&file("f", 10, 11, 0))));
    // Same change and access time: older by the time of creation.
    assert!(should_copy(&base, Some(&file("f", 10, 10, 9))));
    assert!(!should_copy(&base, Some(&file("f", 10, 10, 11))));
    // Equal in all three: nothing to do.
    assert!(!should_copy(&base, Some(&file("f", 10, 10, 10))));
}

#[test]
fn directory_in_the_target_is_never_copied_over() {
    let base = file("f", 10, 10, 10);
    assert!(!should_copy(&base, Some(&dir("f", 0, 0, 0))));
    assert!(!should_copy(&base, Some(&dir("f", 10, 10, 10))));
    assert!(!should_copy(&dir("f", 10, 10, 10), Some(&dir("f", 1, 1, 1))));
    // A directory of the base whose path the target lacks is listed.
    assert!(should_copy(&dir("d", 1, 1, 1), None));
    // What counts is the kind of the target's record, not of the base's.
    assert!(should_copy(&dir("d", 10, 10, 10), Some(&file("d", 1, 1, 1))));
}

#[test]
fn last_write_wins_in_the_map() {
    let data = vec![file("a", 1, 1, 1), file("b", 2, 2, 2), file("a", 3, 3, 3), file("c", 4, 4, 4), file("b", 5, 5, 5)];
    let map = Transaction::path_transaction_vec_to_hash_map(&data);
    let got: Vec<(String, u64)> =
        map.iter().map(|r| (r.get_path().to_string(), r.get_last_modified())).collect();
    assert_eq!(got, vec![("a".to_string(), 3), ("b".to_string(), 5), ("c".to_string(), 4)]);
    assert!(Transaction::path_transaction_vec_to_hash_map(&Vec::new()).is_empty());
}

#[test]
fn files_to_copy_are_named_from_the_calling_directory() {
    let base = vec![
        file("new.txt", 1, 1, 1),
        file("sub/newer.txt", 10, 1, 1),
        file("sub/same.txt", 5, 5, 5),
        file("sub/older.txt", 1, 1, 1),
        file("dir_there", 9, 9, 9),
        dir("sub", 10, 10, 10),
    ];
    let target = vec![
        file("sub/newer.txt", 9, 1, 1),
        file("sub/same.txt", 5, 5, 5),
        file("sub/older.txt", 2, 1, 1),
        dir("dir_there", 1, 1, 1),
        dir("sub", 1, 1, 1),
        file("only_in_target.txt", 1, 1, 1),
    ];
    let files = select_files("/home/me/ws", "/home/me", &base, &target);
    assert_eq!(files, vec!["ws/new.txt", "ws/sub/newer.txt"]);
    // Outside the calling directory the full path is used.
    let files = select_files("/home/me/ws", "/elsewhere", &base, &target);
    assert_eq!(files, vec!["/home/me/ws/new.txt", "/home/me/ws/sub/newer.txt"]);
}

#[test]
fn files_to_copy_use_the_last_record_of_a_path() {
    let base = vec![file("a", 1, 1, 1), file("a", 10, 1, 1)];
    let target = vec![file("a", 20, 1, 1), file("a", 5, 1, 1)];
    assert_eq!(select_files("/ws", "/", &base, &target), vec!["ws/a"]);
    let target = vec![file("a", 5, 1, 1), file("a", 20, 1, 1)];
    assert!(select_files("/ws", "/", &base, &target).is_empty());
}

#[test]
fn plan_groups_the_files_by_destination() {
    let base = || {
        vec![
            file("a.txt", 5, 5, 5),
            file("code/index.js", 5, 5, 5),
            file("code/index.ts", 5, 5, 5),
            file("code/test/t.js", 5, 5, 5),
            file("code/old.js", 1, 1, 1),
            dir("code", 5, 5, 5),
        ]
    };
    let target = || vec![file("code/old.js", 2, 2, 2), dir("code", 1, 1, 1)];
    let mut t = Transaction::new_at("/home/me/ws".to_string(), "/mnt/backup".to_string(), 100);
    assert!(t.prepare_at(base(), target(), 100));
    // With a stale cache there is no plan, and the session stays prepared.
    assert!(t.sync_at(106, "/home/me").is_none());
    assert_eq!(t.get_stage(), Stage::Prepared);
    t.load_base_data_at(base(), 106);
    assert!(t.sync_at(106, "/home/me").is_none());
    t.load_target_data_at(target(), 106);
    let plan = t.sync_at(109, "/home/me").unwrap();
    let expected: Vec<(Vec<String>, String)> = vec![
        (vec!["ws/a.txt".to_string()], "/mnt/backup".to_string()),
        (
            vec!["ws/code/index.js".to_string(), "ws/code/index.ts".to_string()],
            "/mnt/backup/code".to_string(),
        ),
        (vec!["ws/code/test/t.js".to_string()], "/mnt/backup/code/test".to_string()),
    ];
    assert_eq!(plan, expected);
}

#[test]
fn plan_at_the_present_time() {
    let mut t = Transaction::new("/ws".to_string(), "/t".to_string());
    assert!(t.prepare(vec![file("a/b.txt", 1, 1, 1)], Vec::new()));
    let plan = t.sync("/elsewhere").unwrap();
    assert_eq!(plan, vec![(vec!["ws/a/b.txt".to_string()], "/t/a".to_string())]);
    assert_eq!(t.get_stage(), Stage::Diffed);
}

#[test]
fn journal_paths_of_a_session() {
    let t = Transaction::new_at("/a".to_string(), "/b/".to_string(), 0);
    assert_eq!(Transaction::get_hard_sync_path("/ws"), "/ws/.hard-sync");
    assert_eq!(Transaction::get_hard_sync_path(""), ".hard-sync");
    assert_eq!(t.get_base_hard_sync_path(), "/a/.hard-sync");
    assert_eq!(t.get_target_hard_sync_path(), "/b/.hard-sync");
    assert_eq!(Transaction::get_lock_path("/ws"), "/ws/.hard-sync/hard-sync.lock");
}

#[test]
fn journals_of_a_session_come_from_the_walk() {
    let t = Transaction::new_at("/a".to_string(), "/b".to_string(), 0);
    let walk = |root: &str| {
        vec![
            WalkEntry {
                path: root.to_string(),
                last_modified: 1,
                last_accessed: 2,
                created: 3,
                size: 4096,
                is_dir: true,
            },
            WalkEntry {
                path: format!("{}/f.txt", root),
                last_modified: 4,
                last_accessed: 5,
                created: 6,
                size: 7,
                is_dir: false,
            },
        ]
    };
    assert_eq!(paths(&t.get_base_save_data(&walk("/a"))), vec!["f.txt"]);
    assert_eq!(paths(&t.get_target_save_data(&walk("/b"))), vec!["f.txt"]);
    assert!(t.get_target_save_data(&walk("/a")).is_empty());
    let line = "{\"path\":\"f.txt\",\"last_modified\":4,\"last_accessed\":5,\"created\":6,\"size\":\"7\",\"is_dir\":false}\n";
    assert_eq!(t.save_base_lock_data(&walk("/a")), line);
    assert_eq!(t.save_target_lock_data(&walk("/b")), line);
}

#[test]
fn cache_from_the_end_of_time_is_read_at_any_instant() {
    // No instant lies more than five seconds after the last ones, so the
    // clock has no say in these reads.
    let mut t = Transaction::new_at("/a".to_string(), "/b".to_string(), i64::MAX);
    assert!(t.get_base_data().unwrap().is_empty());
    assert!(t.get_target_data().unwrap().is_empty());
    assert!(t.prepare_at(vec![file("f", 1, 1, 1)], Vec::new(), i64::MAX - 5));
    assert_eq!(paths(t.get_base_data().unwrap()), vec!["f"]);
    assert_eq!(t.sync("/"), Some(vec![(vec!["a/f".to_string()], "/b".to_string())]));
    assert_eq!(t.get_stage(), Stage::Diffed);
}

#[test]
fn cache_from_long_ago_is_stale_now() {
    let mut t = Transaction::new_at("/a".to_string(), "/b".to_string(), 0);
    assert!(t.get_base_data().is_none());
    assert!(t.get_target_data().is_none());
    assert!(t.prepare_at(Vec::new(), Vec::new(), 0));
    assert!(t.sync("/").is_none());
    assert_eq!(t.get_stage(), Stage::Prepared);
}

#[test]
fn clone_of_a_session_is_equal() {
    let mut t = Transaction::new_at("/a".to_string(), "/b".to_string(), 100);
    assert!(t.prepare_at(vec![file("f", 1, 1, 1)], vec![dir("d", 2, 2, 2)], 100));
    let c = t.clone();
    assert!(c == t);
    assert_eq!(c.get_stage(), Stage::Prepared);
    assert_eq!(c.get_failed_groups(), 0);
    assert_eq!(paths(c.get_base_data_at(105).unwrap()), vec!["f"]);
    assert_eq!(paths(c.get_target_data_at(105).unwrap()), vec!["d"]);
    assert!(c.get_base_data_at(106).is_none());
    // The copy is a value of its own.
    assert!(t.sync_at(100, "/").is_some());
    assert_eq!(c.get_stage(), Stage::Prepared);
}

#[test]
fn every_path_is_selected_at_most_once() {
    let base = vec![file("a", 5, 1, 1), file("b", 5, 1, 1), file("a", 9, 1, 1), file("c", 1, 1, 1)];
    let target = vec![file("a", 7, 1, 1), file("c", 1, 1, 1)];
    assert_eq!(select_files("/ws", "/", &base, &target), vec!["ws/a", "ws/b"]);
}
