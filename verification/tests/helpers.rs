use hard_sync::paths::get_relative_path;
use hard_sync::paths::resolve_path;

#[test]
fn test_get_relative_path() {
    let relative_path = get_relative_path("c:/dev/test", "c:/dev/test/code/index.js");
    assert!(relative_path.is_some());
    assert_eq!("code/index.js", relative_path.unwrap());

    let relative_path = get_relative_path("c:/dev/test", "c:/dev/test/index.js");
    assert!(relative_path.is_some());
    assert_eq!("index.js", relative_path.unwrap());

    let relative_path = get_relative_path("/dev/test", "/dev/test/code/index.js");
    assert!(relative_path.is_some());
    assert_eq!("code/index.js", relative_path.unwrap());

    let relative_path = get_relative_path("/dev/test", "/dev/test/index.js");
    assert!(relative_path.is_some());
    assert_eq!("index.js", relative_path.unwrap());

    // for non relative path
    let relative_path = get_relative_path("c:/pain/test", "c:/dev/test/code/index.js");
    assert!(!relative_path.is_some());
}

#[test]
fn relative_path_agrees_with_std_on_untidy_paths() {
    let cases: Vec<(&str, &str)> = vec![
        ("", "a/b/"),
        ("", ""),
        ("", "./a//b/."),
        ("/", "/"),
        ("/", "//a///b//"),
        ("/a", "/a"),
        ("/a/", "/a//b/./c/"),
        ("a/./b", "a/b/c"),
        (".", "./x"),
        (".", "x"),
        ("./a", "a/b"),
        ("a", "./a/b"),
        ("a/b", "a/bc"),
        ("a/b/c", "a/b"),
        ("..", "../x"),
        ("a/..", "a/../b"),
        ("/x/y", "y/z//w"),
        ("/x/y/", "y"),
        ("x", "y"),
        ("/", "a"),
        ("a//", "a/b.txt"),
    ];
    for (parent, child) in cases {
        let p = std::path::Path::new(parent);
        let c = std::path::Path::new(child);
        let expected = match c.strip_prefix(p) {
            Ok(rest) => Some(rest.to_str().unwrap().to_string()),
            Err(_) => {
                if p.components().count() <= 1 {
                    None
                } else {
                    let last = p.components().last().unwrap();
                    match c.strip_prefix(std::path::Path::new(last.as_os_str())) {
                        Ok(rest) => Some(rest.to_str().unwrap().to_string()),
                        Err(_) => None,
                    }
                }
            }
        };
        assert_eq!(get_relative_path(parent, child), expected, "{:?} {:?}", parent, child);
    }
}

fn all_paths(max_len: usize) -> Vec<String> {
    let alphabet = ['a', '.', '/'];
    let mut all = vec![String::new()];
    let mut last = vec![String::new()];
    for _ in 0..max_len {
        let mut next = Vec::new();
        for s in &last {
            for c in alphabet {
                let mut t = s.clone();
                t.push(c);
                next.push(t);
            }
        }
        all.extend(next.iter().cloned());
        last = next;
    }
    all
}

fn chars(s: &str) -> Vec<char> {
    s.chars().collect()
}

#[test]
fn components_agree_with_std_on_all_short_paths() {
    for p in all_paths(7) {
        let expected: Vec<String> = std::path::Path::new(&p)
            .components()
            .map(|c| c.as_os_str().to_str().unwrap().to_string())
            .collect();
        let got: Vec<String> = hard_sync::paths::components_of(&chars(&p))
            .into_iter()
            .map(|c| c.into_iter().collect())
            .collect();
        assert_eq!(got, expected, "{:?}", p);
    }
}

#[test]
fn strip_prefix_agrees_with_std_on_all_short_paths() {
    let paths = all_paths(4);
    for child in &paths {
        for base in &paths {
            let expected = std::path::Path::new(child)
                .strip_prefix(std::path::Path::new(base))
                .ok()
                .map(|r| r.to_str().unwrap().to_string());
            let got: Option<String> =
                hard_sync::paths::strip_prefix_of(&chars(child), &chars(base))
                    .map(|r| r.into_iter().collect());
            assert_eq!(got, expected, "{:?} {:?}", child, base);
        }
    }
}

#[test]
fn suffix_and_equality_agree_with_std_on_all_short_paths() {
    let paths = all_paths(4);
    for p in &paths {
        for q in &paths {
            let a = std::path::Path::new(p);
            let b = std::path::Path::new(q);
            assert_eq!(
                hard_sync::paths::path_ends_with(&chars(p), &chars(q)),
                a.ends_with(b),
                "{:?} {:?}",
                p,
                q
            );
            assert_eq!(hard_sync::paths::is_same_path(&chars(p), &chars(q)), a == b, "{:?} {:?}", p, q);
        }
    }
}

#[test]
fn join_agrees_with_std_on_all_short_paths() {
    let paths = all_paths(4);
    for base in &paths {
        for rel in &paths {
            let expected = std::path::Path::new(base).join(rel);
            let got: String =
                hard_sync::paths::join_chars(&chars(base), &chars(rel)).into_iter().collect();
            assert_eq!(got, expected.to_str().unwrap(), "{:?} {:?}", base, rel);
        }
    }
}

#[test]
fn joined_path_is_found_again() {
    let parents = ["", "/", "/ws", "/ws/", "ws//sub", ".", "./a", "a/.", "a/b/"];
    let tidy = ["", "a", "a/b", "a//b", "..", "../x", ".a", "a./.b", "a/./b"];
    for parent in parents {
        for r in tidy {
            let joined = resolve_path(r, parent);
            assert_eq!(get_relative_path(parent, &joined), Some(r.to_string()), "{:?} {:?}", parent, r);
        }
    }
}
