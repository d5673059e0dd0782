use hard_sync::mapper::map_path_to_target;

const BASE: &str = "c:/workspace";

fn strings(items: &[&str]) -> Vec<String> {
    items.iter().map(|s| s.to_string()).collect()
}

fn group(files: &[&str], dir: &str) -> (Vec<String>, String) {
    (strings(files), dir.to_string())
}

#[test]
fn test_map_path_to_target() {
    let target = "c:/workspace2";
    let file_to_copy: [String; 7] = [
        String::from("c:/workspace/code/index.js"),
        String::from("c:/workspace/code/index.ts"),
        String::from("c:/workspace/code/test/index.js"),
        String::from("c:/workspace/code/test/index.ts"),
        String::from("c:/workspace/code/test/test2/index.js"),
        String::from("c:/workspace/code/press/test2/index.ts"),
        String::from("c:/workspace/code/press/index.js"),
    ];
    let expected: Vec<(Vec<String>, String)> = Vec::from([
        (vec![String::from("c:/workspace/code/index.js"), String::from("c:/workspace/code/index.ts")], String::from("c:/workspace2/code")),
        (vec![String::from("c:/workspace/code/test/index.js"), String::from("c:/workspace/code/test/index.ts")], String::from("c:/workspace2/code/test")),
        (vec![String::from("c:/workspace/code/test/test2/index.js")], String::from("c:/workspace2/code/test/test2")),
        (vec![String::from("c:/workspace/code/press/test2/index.ts")], String::from("c:/workspace2/code/press/test2")),
        (vec![String::from("c:/workspace/code/press/index.js")], String::from("c:/workspace2/code/press")),
    ]);

    let mapped_files = map_path_to_target(file_to_copy.to_vec(), target.to_owned(), BASE.to_owned());
    assert_eq!(mapped_files, expected);

    // Doubled separators are taken as one: the identifiers come out with
    // single separators, the directories are the same as above.
    let file_to_copy: [String; 7] = [
        String::from("code//index.js"),
        String::from("code//index.ts"),
        String::from("code//test//index.js"),
        String::from("code//test//index.ts"),
        String::from("code//test//test2//index.js"),
        String::from("code//press//test2//index.ts"),
        String::from("code//press//index.js"),
    ];
    let expected: Vec<(Vec<String>, String)> = Vec::from([
        (vec![String::from("code/index.js"), String::from("code/index.ts")], String::from("c:/workspace2/code")),
        (vec![String::from("code/test/index.js"), String::from("code/test/index.ts")], String::from("c:/workspace2/code/test")),
        (vec![String::from("code/test/test2/index.js")], String::from("c:/workspace2/code/test/test2")),
        (vec![String::from("code/press/test2/index.ts")], String::from("c:/workspace2/code/press/test2")),
        (vec![String::from("code/press/index.js")], String::from("c:/workspace2/code/press")),
    ]);

    let mapped_files = map_path_to_target(file_to_copy.to_vec(), target.to_owned(), BASE.to_owned());
    assert_eq!(mapped_files, expected);

    let base = "c:/workspace/find";
    let target = "c:/workspace/dive";
    let file_to_copy: [String; 7] = [
        String::from("find//find.txt"),
        String::from("find//forever"),
        String::from("find//forever//sup//th.txt"),
        String::from("find//index.txt"),
        String::from("find//pixel.txt"),
        String::from("find//forever//sup"),
        String::from("find//forever//bent.txt"),
    ];
    let expected: Vec<(Vec<String>, String)> = Vec::from([
        (vec![String::from("find/find.txt"), String::from("find/forever"), String::from("find/index.txt"), String::from("find/pixel.txt")], String::from("c:/workspace/dive")),
        (vec![String::from("find/forever/sup/th.txt")], String::from("c:/workspace/dive/forever/sup")),
        (vec![String::from("find/forever/sup"), String::from("find/forever/bent.txt")], String::from("c:/workspace/dive/forever")),
    ]);
    let mapped_files = map_path_to_target(file_to_copy.to_vec(), target.to_owned(), base.to_owned());
    assert_eq!(mapped_files, expected);

    let base = "c:/workspace";
    let file_to_copy: [String; 7] = [
        String::from("find//find.txt"),
        String::from("find//forever"),
        String::from("find//forever//sup//th.txt"),
        String::from("find//index.txt"),
        String::from("find//pixel.txt"),
        String::from("find//forever//sup"),
        String::from("find//forever//bent.txt"),
    ];
    let expected: Vec<(Vec<String>, String)> = Vec::from([
        (vec![String::from("find/find.txt"), String::from("find/forever"), String::from("find/index.txt"), String::from("find/pixel.txt")], String::from("c:/workspace/dive/find")),
        (vec![String::from("find/forever/sup/th.txt")], String::from("c:/workspace/dive/find/forever/sup")),
        (vec![String::from("find/forever/sup"), String::from("find/forever/bent.txt")], String::from("c:/workspace/dive/find/forever")),
    ]);
    let mapped_files = map_path_to_target(file_to_copy.to_vec(), target.to_owned(), base.to_owned());
    assert_eq!(mapped_files, expected);
}

#[test]
fn mapper_groups_by_parent_directory() {
    let files = strings(&[
        "/ws/code/index.js",
        "/ws/code/index.ts",
        "/ws/code/test/index.js",
        "/ws/code/test/index.ts",
        "/ws/code/test/test2/index.js",
        "/ws/code/press/test2/index.ts",
        "/ws/code/press/index.js",
    ]);
    let mapped = map_path_to_target(files, "/ws2".to_string(), "/ws".to_string());
    let expected = vec![
        group(&["ws/code/index.js", "ws/code/index.ts"], "/ws2/code"),
        group(&["ws/code/test/index.js", "ws/code/test/index.ts"], "/ws2/code/test"),
        group(&["ws/code/test/test2/index.js"], "/ws2/code/test/test2"),
        group(&["ws/code/press/test2/index.ts"], "/ws2/code/press/test2"),
        group(&["ws/code/press/index.js"], "/ws2/code/press"),
    ];
    assert_eq!(mapped, expected);
}

#[test]
fn mapper_groups_relative_files() {
    let files = strings(&[
        "code/index.js",
        "code/index.ts",
        "code/test/index.js",
        "code/test/index.ts",
        "code/test/test2/index.js",
        "code/press/test2/index.ts",
        "code/press/index.js",
    ]);
    let mapped = map_path_to_target(files, "/ws2".to_string(), "/ws".to_string());
    let expected = vec![
        group(&["code/index.js", "code/index.ts"], "/ws2/code"),
        group(&["code/test/index.js", "code/test/index.ts"], "/ws2/code/test"),
        group(&["code/test/test2/index.js"], "/ws2/code/test/test2"),
        group(&["code/press/test2/index.ts"], "/ws2/code/press/test2"),
        group(&["code/press/index.js"], "/ws2/code/press"),
    ];
    assert_eq!(mapped, expected);
}

#[test]
fn mapper_puts_top_level_files_at_the_target_root() {
    let mapped = map_path_to_target(
        strings(&["/ws/a.txt", "/ws/b.txt"]),
        "/ws2".to_string(),
        "/ws".to_string(),
    );
    assert_eq!(mapped, vec![group(&["ws/a.txt", "ws/b.txt"], "/ws2")]);
}

#[test]
fn mapper_keeps_a_separator_that_the_target_ends_with() {
    let mapped = map_path_to_target(
        strings(&["/ws/d/a.txt"]),
        "/ws2/".to_string(),
        "/ws".to_string(),
    );
    assert_eq!(mapped, vec![group(&["ws/d/a.txt"], "/ws2/d")]);
}

#[test]
fn mapper_drops_noise_components() {
    // A file outside the base keeps the directories of its whole path; the
    // root and a leading `.` name nothing and are left out.
    let mapped = map_path_to_target(
        strings(&["/other/x/a.txt", "./y/b.txt"]),
        "/ws2".to_string(),
        "/ws".to_string(),
    );
    assert_eq!(
        mapped,
        vec![group(&["other/x/a.txt"], "/ws2/other/x"), group(&["y/b.txt"], "/ws2/y")]
    );
}

#[test]
fn mapper_of_nothing_is_empty() {
    let mapped = map_path_to_target(Vec::new(), "/ws2".to_string(), "/ws".to_string());
    assert!(mapped.is_empty());
}

#[test]
fn mapper_orders_groups_by_first_occurrence() {
    let mapped = map_path_to_target(
        strings(&["/ws/b/1", "/ws/a/2", "/ws/b/3", "/ws/a/4"]),
        "/t".to_string(),
        "/ws".to_string(),
    );
    assert_eq!(
        mapped,
        vec![group(&["ws/b/1", "ws/b/3"], "/t/b"), group(&["ws/a/2", "ws/a/4"], "/t/a")]
    );
}

#[test]
fn mapper_lists_every_file_once() {
    let files = strings(&["/ws/a", "/ws/d/b", "/ws/d/c", "x/y", "/ws/a", "/ws/d/e/f", "z"]);
    let mapped = map_path_to_target(files.clone(), "/t".to_string(), "/ws".to_string());
    let total: usize = mapped.iter().map(|(ids, _)| ids.len()).sum();
    assert_eq!(total, files.len());
    assert!(mapped.iter().all(|(ids, _)| !ids.is_empty()));
    let mut dirs: Vec<&String> = mapped.iter().map(|(_, d)| d).collect();
    dirs.sort();
    dirs.dedup();
    assert_eq!(dirs.len(), mapped.len());
}
