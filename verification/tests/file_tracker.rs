use hard_sync::fields::FieldError;
use hard_sync::fields::FieldName;
use hard_sync::fields::FieldValue;
use hard_sync::file_tracker::FileTracker;
use hard_sync::hash::to_hex_lower;

const EMPTY_HASH: &str = "e3b0c44298fc1c149afbf4c8996fb92427ae41e4649b934ca495991b7852b855";
const ABC_HASH: &str = "ba7816bf8f01cfea414140de5dae2223b00361a396177a9cb410ff61f20015ad";

#[test]
fn hash_of_empty_content() {
    assert_eq!(FileTracker::calculate_hash(b""), EMPTY_HASH);
}

#[test]
fn hash_of_abc() {
    assert_eq!(FileTracker::calculate_hash(b"abc"), ABC_HASH);
}

#[test]
fn hex_is_lowercase_with_two_digits_per_byte() {
    let hex: String = to_hex_lower(&[0x00, 0x0f, 0xa0, 0xff, 0x9c]).into_iter().collect();
    assert_eq!(hex, "000fa0ff9c");
    assert!(to_hex_lower(&[]).is_empty());
}

#[test]
fn new_record_holds_what_it_was_given() {
    let f = FileTracker::new("/ws/code/index.js", 3, b"abc".to_vec(), 10, 20, 30);
    assert_eq!(f.get_path(), "/ws/code/index.js");
    assert_eq!(f.get_size(), 3);
    assert_eq!(f.get_content(), b"abc");
    assert_eq!(f.get_last_modified(), 10);
    assert_eq!(f.get_created(), 20);
    assert_eq!(f.get_last_accessed(), 30);
    assert_eq!(f.get_extension(), "js");
    assert_eq!(f.get_current_file_hash(), ABC_HASH);
    assert_eq!(f.get_last_file_hash(), ABC_HASH);
}

#[test]
fn extension_follows_the_last_dot_of_the_file_name() {
    let cases = [
        ("a/b.tar.gz", "gz"),
        ("a/b", ""),
        ("a/.bashrc", ""),
        ("a/.bashrc.bak", "bak"),
        ("a.d/b", ""),
        ("a/b.", ""),
        ("a/..", ""),
        ("/", ""),
        (".", ""),
        ("", ""),
        ("a/b.txt/", "txt"),
        ("..a", "a"),
    ];
    for (path, expected) in cases {
        let f = FileTracker::new(path, 0, Vec::new(), 0, 0, 0);
        assert_eq!(f.get_extension(), expected, "{:?}", path);
        let std_ext = std::path::Path::new(path)
            .extension()
            .and_then(|e| e.to_str())
            .unwrap_or("");
        assert_eq!(f.get_extension(), std_ext, "{:?}", path);
    }
}

#[test]
fn update_hash_keeps_the_previous_hash() {
    let mut f = FileTracker::new("/ws/a.txt", 0, Vec::new(), 1, 2, 3);
    f.update_hash();
    assert_eq!(f.get_last_file_hash(), EMPTY_HASH);
    assert_eq!(f.get_current_file_hash(), EMPTY_HASH);
    assert_eq!(f.get_path(), "/ws/a.txt");
    assert_eq!(f.get_last_modified(), 1);
}

#[test]
fn relative_path_strips_the_base() {
    let f = FileTracker::new("/ws/code/index.js", 0, Vec::new(), 0, 0, 0);
    assert_eq!(f.get_relative_path("/ws"), Some("code/index.js".to_string()));
    assert_eq!(f.get_relative_path("/ws/"), Some("code/index.js".to_string()));
    assert_eq!(f.get_relative_path("/ws/code/index.js"), Some("".to_string()));
    assert_eq!(f.get_relative_path("/other"), None);
    assert_eq!(f.get_relative_path("/w"), None);
    // Only the base itself is stripped, not its last component.
    assert_eq!(f.get_relative_path("/x/ws"), None);
}

#[test]
fn same_content_is_same_hash() {
    let a = FileTracker::new("/a/x", 3, b"abc".to_vec(), 1, 1, 1);
    let b = FileTracker::new("/b/y", 3, b"abc".to_vec(), 2, 2, 2);
    let c = FileTracker::new("/a/x", 3, b"abd".to_vec(), 1, 1, 1);
    assert!(a.has_hash_of(&b));
    assert!(!a.has_hash_of(&c));
}

#[test]
fn clone_is_equal_in_every_field() {
    let a = FileTracker::new("/a/x.rs", 3, b"abc".to_vec(), 1, 2, 3);
    let b = a.clone();
    assert_eq!(a.get_path(), b.get_path());
    assert_eq!(a.get_content(), b.get_content());
    assert_eq!(a.get_extension(), b.get_extension());
    assert_eq!(a.get_current_file_hash(), b.get_current_file_hash());
    assert_eq!(a.get_last_accessed(), b.get_last_accessed());
}

fn text(name: &str, value: &str) -> (String, FieldValue) {
    (name.to_string(), FieldValue::Text(value.to_string()))
}

fn number(name: &str, value: u64) -> (String, FieldValue) {
    (name.to_string(), FieldValue::Number(value))
}

fn all_fields() -> Vec<(String, FieldValue)> {
    vec![
        text("file_path", "/ws/a.txt"),
        number("file_size_bytes", 7),
        number("last_modified_timestamp", 1),
        number("created_timestamp", 2),
        number("last_accessed_timestamp", 3),
        text("file_extension", "txt"),
        text("previous_file_hash", "aa"),
        text("current_file_hash", "bb"),
    ]
}

#[test]
fn fields_are_written_under_their_stored_names() {
    let f = FileTracker::new("/ws/a.txt", 3, b"abc".to_vec(), 1, 2, 3);
    let fields = f.to_fields();
    let names: Vec<&str> = fields.iter().map(|(n, _)| n.as_str()).collect();
    assert_eq!(
        names,
        vec![
            "file_path",
            "file_size_bytes",
            "last_modified_timestamp",
            "created_timestamp",
            "last_accessed_timestamp",
            "file_extension",
            "previous_file_hash",
            "current_file_hash",
        ]
    );
    assert!(matches!(&fields[0].1, FieldValue::Text(t) if t == "/ws/a.txt"));
    assert!(matches!(&fields[1].1, FieldValue::Number(3)));
    assert!(matches!(&fields[4].1, FieldValue::Number(3)));
    assert!(matches!(&fields[7].1, FieldValue::Text(t) if t == ABC_HASH));
}

#[test]
fn fields_round_trip_without_the_content() {
    let f = FileTracker::new("/ws/a.txt", 3, b"abc".to_vec(), 1, 2, 3);
    let back = FileTracker::from_fields(&f.to_fields()).unwrap();
    assert_eq!(back.get_path(), "/ws/a.txt");
    assert_eq!(back.get_size(), 3);
    assert_eq!(back.get_last_modified(), 1);
    assert_eq!(back.get_created(), 2);
    assert_eq!(back.get_last_accessed(), 3);
    assert_eq!(back.get_extension(), "txt");
    assert_eq!(back.get_last_file_hash(), ABC_HASH);
    assert_eq!(back.get_current_file_hash(), ABC_HASH);
    assert!(back.get_content().is_empty());
}

#[test]
fn fields_in_any_order_and_with_unknown_names() {
    let mut fields = all_fields();
    fields.reverse();
    fields.insert(3, text("comment", "x"));
    fields.push((String::from("other"), FieldValue::Other));
    let f = FileTracker::from_fields(&fields).unwrap();
    assert_eq!(f.get_path(), "/ws/a.txt");
    assert_eq!(f.get_size(), 7);
    assert_eq!(f.get_last_file_hash(), "aa");
    assert_eq!(f.get_current_file_hash(), "bb");
}

#[test]
fn duplicate_field_is_an_error() {
    let mut fields = all_fields();
    fields.push(number("file_size_bytes", 8));
    assert_eq!(
        FileTracker::from_fields(&fields).err(),
        Some(FieldError::Duplicate(FieldName::FileSizeBytes))
    );
    // The duplicate is reported whatever the second value is.
    let mut fields = all_fields();
    fields.push(text("file_size_bytes", "8"));
    assert_eq!(
        FileTracker::from_fields(&fields).err(),
        Some(FieldError::Duplicate(FieldName::FileSizeBytes))
    );
}

#[test]
fn missing_field_is_an_error() {
    let names = [
        FieldName::FilePath,
        FieldName::FileSizeBytes,
        FieldName::LastModified,
        FieldName::Created,
        FieldName::LastAccessed,
        FieldName::Extension,
        FieldName::PreviousHash,
        FieldName::CurrentHash,
    ];
    for (k, name) in names.iter().enumerate() {
        let mut fields = all_fields();
        fields.remove(k);
        assert_eq!(FileTracker::from_fields(&fields).err(), Some(FieldError::Missing(*name)));
    }
    // With several missing, the first in writing order is reported.
    assert_eq!(
        FileTracker::from_fields(&Vec::new()).err(),
        Some(FieldError::Missing(FieldName::FilePath))
    );
}

#[test]
fn wrong_kind_of_value_is_an_error() {
    let mut fields = all_fields();
    fields[1] = text("file_size_bytes", "7");
    assert_eq!(
        FileTracker::from_fields(&fields).err(),
        Some(FieldError::WrongType(FieldName::FileSizeBytes))
    );
    let mut fields = all_fields();
    fields[0] = number("file_path", 1);
    assert_eq!(
        FileTracker::from_fields(&fields).err(),
        Some(FieldError::WrongType(FieldName::FilePath))
    );
    let mut fields = all_fields();
    fields[5] = (String::from("file_extension"), FieldValue::Other);
    assert_eq!(
        FileTracker::from_fields(&fields).err(),
        Some(FieldError::WrongType(FieldName::Extension))
    );
}

#[test]
fn extension_agrees_with_std_on_all_short_paths() {
    let alphabet = ['a', '.', '/'];
    let mut last = vec![String::new()];
    for _ in 0..7 {
        let mut next = Vec::new();
        for s in &last {
            for c in alphabet {
                let mut t = s.clone();
                t.push(c);
                next.push(t);
            }
        }
        for p in &next {
            let expected = std::path::Path::new(p).extension().and_then(|e| e.to_str()).unwrap_or("");
            let got: String = hard_sync::file_tracker::extension_chars(&p.chars().collect())
                .into_iter()
                .collect();
            assert_eq!(got, expected, "{:?}", p);
        }
        last = next;
    }
}
