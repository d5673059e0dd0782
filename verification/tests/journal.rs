use hard_sync::journal::decimal_of;
use hard_sync::journal::get_lock_data;
use hard_sync::journal::get_save_data_path_transaction_data;
use hard_sync::journal::journal_lines;
use hard_sync::journal::save_lock_data;
use hard_sync::journal::PathTransactionData;
use hard_sync::journal::WalkEntry;

fn record(path: &str, m: u64, a: u64, c: u64, size: &str, is_dir: bool) -> PathTransactionData {
    PathTransactionData::new(path.to_string(), m, a, c, size.to_string(), is_dir)
}

fn parts(r: &PathTransactionData) -> (String, u64, u64, u64, String, bool) {
    (
        r.get_path().to_string(),
        r.get_last_modified(),
        r.get_last_accessed(),
        r.get_created(),
        r.get_size().to_string(),
        r.get_is_dir(),
    )
}

fn parse(line: &str) -> Option<PathTransactionData> {
    let v: serde_json::Value = serde_json::from_str(line).ok()?;
    let o = v.as_object()?;
    Some(PathTransactionData::new(
        o.get("path")?.as_str()?.to_string(),
        o.get("last_modified")?.as_u64()?,
        o.get("last_accessed")?.as_u64()?,
        o.get("created")?.as_u64()?,
        o.get("size")?.as_str()?.to_string(),
        o.get("is_dir")?.as_bool()?,
    ))
}

fn entry(path: &str, size: u64, is_dir: bool) -> WalkEntry {
    WalkEntry {
        path: path.to_string(),
        last_modified: 10,
        last_accessed: 20,
        created: 30,
        size,
        is_dir,
    }
}

#[test]
fn decimal_has_no_leading_zeros() {
    let cases: [(u64, &str); 7] = [
        (0, "0"),
        (7, "7"),
        (10, "10"),
        (99, "99"),
        (100, "100"),
        (1234567890, "1234567890"),
        (u64::MAX, "18446744073709551615"),
    ];
    for (n, expected) in cases {
        let s: String = decimal_of(n).into_iter().collect();
        assert_eq!(s, expected);
    }
}

#[test]
fn record_is_written_as_one_json_object() {
    let r = record("code/index.js", 1700000000, 1700000001, 1600000000, "1024", false);
    assert_eq!(
        r.to_json(),
        "{\"path\":\"code/index.js\",\"last_modified\":1700000000,\"last_accessed\":1700000001,\"created\":1600000000,\"size\":\"1024\",\"is_dir\":false}"
    );
    let d = record("code", 0, 0, 0, "0", true);
    assert_eq!(
        d.to_json(),
        "{\"path\":\"code\",\"last_modified\":0,\"last_accessed\":0,\"created\":0,\"size\":\"0\",\"is_dir\":true}"
    );
}

#[test]
fn special_characters_are_escaped() {
    let r = record("a \"b\"\\c\nd\te\u{1}é", 1, 2, 3, "4", false);
    let line = r.to_json();
    assert_eq!(
        line,
        "{\"path\":\"a \\\"b\\\"\\\\c\\nd\\te\\u0001é\",\"last_modified\":1,\"last_accessed\":2,\"created\":3,\"size\":\"4\",\"is_dir\":false}"
    );
    assert!(!line.contains('\n'));
    assert_eq!(parts(&parse(&line).unwrap()), parts(&r));
}

#[test]
fn journal_has_one_line_per_record() {
    let data = vec![record("a", 1, 2, 3, "4", false), record("b", 5, 6, 7, "8", true)];
    assert_eq!(
        save_lock_data(&data),
        "{\"path\":\"a\",\"last_modified\":1,\"last_accessed\":2,\"created\":3,\"size\":\"4\",\"is_dir\":false}\n{\"path\":\"b\",\"last_modified\":5,\"last_accessed\":6,\"created\":7,\"size\":\"8\",\"is_dir\":true}\n"
    );
    assert_eq!(save_lock_data(&Vec::new()), "");
}

#[test]
fn journal_round_trip() {
    let data = vec![
        record("a.txt", 1, 2, 3, "4", false),
        record("dir", 5, 6, 7, "4096", true),
        record("dir/with\nline feed.txt", 8, 9, 10, "0", false),
        record("", u64::MAX, 0, u64::MAX, "", false),
        record("dir/ünï.txt\r", 11, 12, 13, "18446744073709551615", false),
    ];
    let text = save_lock_data(&data);
    let lines = journal_lines(&text);
    assert_eq!(lines.len(), data.len());
    let parsed: Vec<Option<PathTransactionData>> = lines.iter().map(|l| parse(l)).collect();
    let loaded = get_lock_data(parsed);
    let mut got: Vec<_> = loaded.iter().map(parts).collect();
    let mut wanted: Vec<_> = data.iter().map(parts).collect();
    assert_eq!(got, wanted);
    got.sort();
    wanted.sort();
    assert_eq!(got, wanted);
}

#[test]
fn corrupt_line_is_skipped() {
    let good_a = record("a", 1, 2, 3, "4", false).to_json();
    let good_b = record("b", 5, 6, 7, "8", true).to_json();
    let text = format!("{}\nthis is not json\n{{\"path\":3}}\n\n{}\n", good_a, good_b);
    let lines = journal_lines(&text);
    assert_eq!(lines.len(), 5);
    let parsed: Vec<Option<PathTransactionData>> = lines.iter().map(|l| parse(l)).collect();
    let loaded = get_lock_data(parsed);
    let got: Vec<_> = loaded.iter().map(parts).collect();
    assert_eq!(
        got,
        vec![
            ("a".to_string(), 1, 2, 3, "4".to_string(), false),
            ("b".to_string(), 5, 6, 7, "8".to_string(), true),
        ]
    );
}

#[test]
fn loading_nothing_gives_nothing() {
    assert!(get_lock_data(Vec::new()).is_empty());
    assert!(get_lock_data(vec![None, None]).is_empty());
    assert!(journal_lines("").is_empty());
}

#[test]
fn lines_end_at_line_feeds() {
    let cases: Vec<&str> = vec![
        "",
        "\n",
        "a",
        "a\n",
        "a\nb",
        "a\r\nb\r\n",
        "a\r",
        "a\r\r\n",
        "\r\n",
        "\n\n",
        "a\n\nb\n",
        "\ra\n",
        "é\nü",
    ];
    for text in cases {
        let expected: Vec<String> = text.lines().map(|l| l.to_string()).collect();
        assert_eq!(journal_lines(text), expected, "{:?}", text);
    }
    assert_eq!(journal_lines("a\r\nb\n\nc"), vec!["a", "b", "", "c"]);
}

#[test]
fn journal_of_a_walk_leaves_out_its_own_entries() {
    let entries = vec![
        entry("/ws", 4096, true),
        entry("/ws/a.txt", 12, false),
        entry("/ws/.hard-sync", 4096, true),
        entry("/ws/.hard-sync/hard-sync.lock", 300, false),
        entry("/ws/sub", 4096, true),
        entry("/ws/sub/b.txt", 0, false),
        entry("/ws/", 4096, true),
    ];
    let data = get_save_data_path_transaction_data("/ws", &entries);
    let got: Vec<_> = data.iter().map(parts).collect();
    assert_eq!(
        got,
        vec![
            ("a.txt".to_string(), 10, 20, 30, "12".to_string(), false),
            ("sub".to_string(), 10, 20, 30, "4096".to_string(), true),
            ("sub/b.txt".to_string(), 10, 20, 30, "0".to_string(), false),
        ]
    );
}

#[test]
fn journal_of_a_walk_skips_paths_outside_the_root() {
    let entries = vec![entry("/other/a.txt", 1, false), entry("/ws/b.txt", 2, false)];
    let data = get_save_data_path_transaction_data("/ws", &entries);
    let got: Vec<_> = data.iter().map(|r| r.get_path().to_string()).collect();
    assert_eq!(got, vec!["b.txt"]);
}

#[test]
fn journal_of_a_walk_finds_paths_written_from_the_parent() {
    // A path that starts with the last component of the root is taken as
    // written from the directory above the root.
    let entries = vec![entry("ws/c.txt", 3, false)];
    let data = get_save_data_path_transaction_data("/home/ws", &entries);
    let got: Vec<_> = data.iter().map(|r| r.get_path().to_string()).collect();
    assert_eq!(got, vec!["c.txt"]);
}

#[test]
fn clone_of_a_record_is_equal() {
    let r = record("a", 1, 2, 3, "4", true);
    assert_eq!(parts(&r.clone()), parts(&r));
}

#[test]
fn lines_agree_with_std_on_all_short_texts() {
    let alphabet = ['a', '\r', '\n'];
    let mut last = vec![String::new()];
    for _ in 0..8 {
        let mut next = Vec::new();
        for s in &last {
            for c in alphabet {
                let mut t = s.clone();
                t.push(c);
                next.push(t);
            }
        }
        for text in &next {
            let expected: Vec<String> = text.lines().map(|l| l.to_string()).collect();
            assert_eq!(journal_lines(text), expected, "{:?}", text);
        }
        last = next;
    }
}
