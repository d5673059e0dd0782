use hard_sync::dir_tracker::DirTracker;
use hard_sync::file_tracker::FileTracker;
use hard_sync::logger::print_error;
use hard_sync::logger::print_info;
use hard_sync::logger::print_success;
use hard_sync::logger::print_warning;
use hard_sync::logger::step_message;
use hard_sync::paths::resolve_path;
use hard_sync::session::check_adoption;
use hard_sync::session::check_roots;
use hard_sync::session::count_action;
use hard_sync::session::error_message;
use hard_sync::session::order_roots;
use hard_sync::session::plan_sync;
use hard_sync::session::Action;
use hard_sync::session::Status;
use hard_sync::session::SyncError;

fn dir(path: &str) -> DirTracker {
    DirTracker::new(path, true, true, 0, 0, 0).unwrap()
}

fn file(path: &str, content: &[u8]) -> FileTracker {
    FileTracker::new(path, content.len() as u64, content.to_vec(), 1, 1, 1)
}

#[test]
fn roots_are_checked_in_order() {
    assert_eq!(check_roots(false, false, true), Err(SyncError::SourceMissing));
    assert_eq!(check_roots(false, true, false), Err(SyncError::SourceMissing));
    assert_eq!(check_roots(true, false, true), Err(SyncError::DestinationMissing));
    assert_eq!(check_roots(true, true, true), Err(SyncError::SamePath));
    assert_eq!(check_roots(true, true, false), Ok(()));
}

#[test]
fn adoption_needs_the_request() {
    assert_eq!(check_adoption(true, false), Ok(false));
    assert_eq!(check_adoption(true, true), Ok(false));
    assert_eq!(check_adoption(false, true), Ok(true));
    assert_eq!(check_adoption(false, false), Err(SyncError::NotInitialized));
}

#[test]
fn reverse_exchanges_the_roots() {
    assert_eq!(
        order_roots("/a".to_string(), "/b".to_string(), false),
        ("/a".to_string(), "/b".to_string())
    );
    assert_eq!(
        order_roots("/a".to_string(), "/b".to_string(), true),
        ("/b".to_string(), "/a".to_string())
    );
}

#[test]
fn each_error_has_its_message() {
    assert_eq!(error_message(SyncError::SourceMissing), "Source directory does not exist");
    assert_eq!(error_message(SyncError::DestinationMissing), "Destination directory does not exist");
    assert_eq!(error_message(SyncError::SamePath), "Source and destination directories are same");
    assert_eq!(
        error_message(SyncError::NotInitialized),
        "Dest directory is not initialized pass -i to initailise it."
    );
}

#[test]
fn plan_copies_what_differs_and_is_not_ignored() {
    let mut src = dir("/src");
    let mut dest = dir("/dest");
    src.add_file(file("/src/same.txt", b"same"));
    src.add_file(file("/src/changed.txt", b"new"));
    src.add_file(file("/src/sub/new.txt", b"n"));
    src.add_file(file("/src/debug.log", b"log"));
    src.add_file(file("/src/old.log", b"log2"));
    dest.add_file(file("/dest/same.txt", b"same"));
    dest.add_file(file("/dest/changed.txt", b"old"));
    dest.add_file(file("/dest/old.log", b"log1"));
    dest.add_ignore(r"\.log$".to_string());
    src.add_ignore("sub".to_string());

    let plan = plan_sync(&src, &dest);
    let got: Vec<(&str, &str, &str, Status, Action)> = plan
        .iter()
        .map(|p| (p.relative_path.as_str(), p.source.as_str(), p.destination.as_str(), p.status, p.action))
        .collect();
    assert_eq!(
        got,
        vec![
            ("changed.txt", "/src/changed.txt", "/dest/changed.txt", Status::Modified, Action::Copy),
            ("sub/new.txt", "/src/sub/new.txt", "/dest/sub/new.txt", Status::New, Action::Copy),
            ("debug.log", "/src/debug.log", "/dest/debug.log", Status::New, Action::Ignore),
            ("old.log", "/src/old.log", "/dest/old.log", Status::Modified, Action::Ignore),
        ]
    );
    assert_eq!(count_action(&plan, Action::Copy), 2);
    assert_eq!(count_action(&plan, Action::Ignore), 2);
}

#[test]
fn plan_of_equal_trees_is_empty() {
    let mut src = dir("/src");
    let mut dest = dir("/dest");
    src.add_file(file("/src/a", b"a"));
    dest.add_file(file("/dest/a", b"a"));
    let plan = plan_sync(&src, &dest);
    assert!(plan.is_empty());
    assert_eq!(count_action(&plan, Action::Copy), 0);
    assert_eq!(count_action(&plan, Action::Ignore), 0);
}

#[test]
fn report_lines_carry_their_label() {
    assert_eq!(print_error("disk full"), "Error: disk full");
    assert_eq!(print_info("dry run"), "Info: dry run");
    assert_eq!(print_success("3 files copied"), "Success: 3 files copied");
    assert_eq!(print_warning("slow"), "Warning: slow");
    assert_eq!(step_message("1", "walk"), "Step: walk");
    assert_eq!(print_error(""), "Error: ");
}

#[test]
fn paths_resolve_against_the_calling_directory() {
    assert_eq!(resolve_path("code", "/home/me"), "/home/me/code");
    assert_eq!(resolve_path("code", "/home/me/"), "/home/me/code");
    assert_eq!(resolve_path("/abs/code", "/home/me"), "/abs/code");
    assert_eq!(resolve_path("", "/home/me"), "/home/me/");
    assert_eq!(resolve_path("code", ""), "code");
    for (path, calling) in [("a/b", "/x"), ("/a", "/x"), ("", "/x"), ("a", "/"), ("./a", "x/"), ("a", "")] {
        let expected = std::path::Path::new(calling).join(path);
        assert_eq!(resolve_path(path, calling), expected.to_str().unwrap(), "{:?} {:?}", path, calling);
    }
}
