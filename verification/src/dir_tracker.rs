//! The snapshot of one directory tree: the files under a root, keyed by
//! their path relative to it, and the patterns of paths to ignore.

use vstd::prelude::*;
use crate::file_tracker::FileRecord;
use crate::file_tracker::FileTracker;
use crate::paths::components;
use crate::paths::components_of;
use crate::paths::strip_prefix;
use crate::paths::strip_prefix_of;
use crate::pattern::contains_chars;
use crate::pattern::hits;
use crate::pattern::match_pattern;
use crate::pattern::occurs_in;
use crate::text::chars_eq;
use crate::text::chars_of;
use crate::text::lines;
use crate::text::rows;
use crate::text::split_lines;
use crate::text::string_of;
use crate::text::texts;

verus! {

/// One entry of a snapshot: the relative path and the record of the file.
pub type Entry = (Seq<char>, FileRecord);

/// What a `DirTracker` holds, as the contracts see it. The entries are in the
/// order in which their paths were first added.
pub struct Snapshot {
    pub path: Seq<char>,
    pub size: u64,
    pub last_modified: u64,
    pub created: u64,
    pub ignore: Seq<Seq<char>>,
    pub entries: Seq<Entry>,
}

/// The view of one tree: its root, the metadata of the root itself, the
/// ignore patterns in the order given, and one record for each file, keyed by
/// the file's path relative to the root.
#[derive(Debug)]
pub struct DirTracker {
    path: String,
    size: u64,
    last_modified: u64,
    created: u64,
    ignore: Vec<String>,
    files: Vec<(String, FileTracker)>,
}

/// The name of the directory under a root that marks it as adopted.
pub open spec fn marker_dir() -> Seq<char> {
    seq!['.', 'h', 'a', 'r', 'd', '_', 's', 'y', 'n', 'c', '_', 'c', 'l', 'i']
}

/// No two entries have the same path.
pub open spec fn distinct_keys(entries: Seq<Entry>) -> bool {
    forall|i: int, j: int| 0 <= i < j < entries.len() ==> entries[i].0 != entries[j].0
}

/// Every entry is stored under the path that its file has relative to
/// `root`.
pub open spec fn keyed_by_root(root: Seq<char>, entries: Seq<Entry>) -> bool {
    forall|k: int|
        0 <= k < entries.len() ==> strip_prefix((#[trigger] entries[k]).1.path, root) == Some(
            entries[k].0,
        )
}

/// The index of the entry of `key`, or -1 if there is none.
pub open spec fn index_of(entries: Seq<Entry>, key: Seq<char>) -> int
    decreases entries.len(),
{
    if entries.len() == 0 {
        -1
    } else {
        let p = index_of(entries.drop_last(), key);
        if p >= 0 {
            p
        } else if entries.last().0 == key {
            entries.len() - 1
        } else {
            -1
        }
    }
}

/// The record stored under `key`, if any.
pub open spec fn lookup(entries: Seq<Entry>, key: Seq<char>) -> Option<FileRecord> {
    let k = index_of(entries, key);
    if 0 <= k < entries.len() {
        Some(entries[k].1)
    } else {
        None
    }
}

/// `entries` with `record` stored under `key`: in place of the record that
/// was there, or at the end.
pub open spec fn store(entries: Seq<Entry>, key: Seq<char>, record: FileRecord) -> Seq<Entry> {
    let k = index_of(entries, key);
    if 0 <= k < entries.len() {
        entries.update(k, (key, record))
    } else {
        entries.push((key, record))
    }
}

/// Whether the file of entry `e` is new or changed with respect to `other`:
/// `other` has no entry at its path, or one with another current hash.
/// Timestamps and sizes play no part.
pub open spec fn is_changed(e: Entry, other: Seq<Entry>) -> bool {
    match lookup(other, e.0) {
        None => true,
        Some(o) => o.current_file_hash != e.1.current_file_hash,
    }
}

/// The entries of `a` that are new or changed with respect to `b`, in the
/// order of `a`.
pub open spec fn diff_entries(a: Seq<Entry>, b: Seq<Entry>) -> Seq<Entry>
    decreases a.len(),
{
    if a.len() == 0 {
        Seq::empty()
    } else if is_changed(a.last(), b) {
        diff_entries(a.drop_last(), b).push(a.last())
    } else {
        diff_entries(a.drop_last(), b)
    }
}

/// The records of a list of entries.
pub open spec fn records_of(entries: Seq<Entry>) -> Seq<FileRecord> {
    Seq::new(entries.len(), |k: int| entries[k].1)
}

/// The records that a list of trackers holds.
pub open spec fn record_views(v: Seq<FileTracker>) -> Seq<FileRecord> {
    Seq::new(v.len(), |k: int| v[k]@)
}

/// The entries that a list of keyed trackers holds.
pub open spec fn entry_views(v: Seq<(String, FileTracker)>) -> Seq<Entry> {
    Seq::new(v.len(), |k: int| (v[k].0@, v[k].1@))
}

/// Whether a file at `path` is taken into the snapshot of `root`: it lies
/// under the root, not inside the marker directory, and, unless the import is
/// recursive, directly under the root.
pub open spec fn admitted(root: Seq<char>, recursive: bool, path: Seq<char>) -> bool {
    match strip_prefix(path, root) {
        None => false,
        Some(rel) => {
            let c = components(rel);
            c.len() >= 1 && c[0] != marker_dir() && (recursive || c.len() == 1)
        },
    }
}

/// The entries that importing `found` into a snapshot of `root` gives: each
/// admitted file under its relative path, a later file replacing an earlier
/// one of the same path.
pub open spec fn imported(root: Seq<char>, recursive: bool, found: Seq<FileRecord>) -> Seq<Entry>
    decreases found.len(),
{
    if found.len() == 0 {
        Seq::empty()
    } else {
        let before = imported(root, recursive, found.drop_last());
        let f = found.last();
        if admitted(root, recursive, f.path) {
            store(before, strip_prefix(f.path, root)->0, f)
        } else {
            before
        }
    }
}

/// Whether some string of `ignore` occurs in `path`.
pub open spec fn in_ignore(ignore: Seq<Seq<char>>, path: Seq<char>) -> bool {
    exists|k: int| 0 <= k < ignore.len() && occurs_in(#[trigger] ignore[k], path)
}

/// Whether some pattern of `ignore` matches somewhere in `path`. A pattern
/// that is no valid regular expression matches nothing.
pub open spec fn ignored(ignore: Seq<Seq<char>>, path: Seq<char>) -> bool {
    exists|k: int| 0 <= k < ignore.len() && hits(#[trigger] ignore[k], path)
}

/// `index_of` finds the entry of `key` if there is one, and the first such.
pub proof fn lemma_index_of(entries: Seq<Entry>, key: Seq<char>)
    ensures
        -1 <= index_of(entries, key) < entries.len(),
        index_of(entries, key) >= 0 ==> entries[index_of(entries, key)].0 == key,
        forall|j: int|
            0 <= j < entries.len() && (index_of(entries, key) < 0 || j < index_of(entries, key))
                ==> (#[trigger] entries[j]).0 != key,
    decreases entries.len(),
{
    if entries.len() > 0 {
        lemma_index_of(entries.drop_last(), key);
        let p = index_of(entries.drop_last(), key);
        assert forall|j: int|
            0 <= j < entries.len() && (index_of(entries, key) < 0 || j < index_of(
                entries,
                key,
            )) implies (#[trigger] entries[j]).0 != key by {
            if j < entries.len() - 1 {
                assert(entries[j] == entries.drop_last()[j]);
            }
        }
        if p >= 0 {
            assert(entries[p] == entries.drop_last()[p]);
        }
    }
}

/// Storing a record keeps the paths distinct.
pub proof fn lemma_store_distinct(entries: Seq<Entry>, key: Seq<char>, record: FileRecord)
    requires
        distinct_keys(entries),
    ensures
        distinct_keys(store(entries, key, record)),
        lookup(store(entries, key, record), key) == Some(record),
{
    lemma_index_of(entries, key);
    let after = store(entries, key, record);
    let k = index_of(entries, key);
    lemma_index_of(after, key);
    if k >= 0 {
        assert(after[k].0 == key);
    } else {
        assert(after[entries.len() as int].0 == key);
        assert forall|j: int| 0 <= j < entries.len() implies (#[trigger] after[j]).0 != key by {
            assert(after[j] == entries[j]);
        }
    }
    let m = index_of(after, key);
    if m < 0 {
        if k >= 0 {
            assert(after[k].0 == key);
        }
    }
    assert(m >= 0);
    if k >= 0 {
        if m != k {
            if m < k {
                assert(after[m] == entries[m]);
            } else {
                assert(after[k].0 == key);
            }
        }
    } else {
        if m != entries.len() {
            assert(after[m] == entries[m]);
        }
    }
}

/// Finds the entry of `key`.
fn find_entry(files: &Vec<(String, FileTracker)>, key: &String) -> (r: Option<usize>)
    ensures
        match r {
            Some(k) => k == index_of(entry_views(files@), key@) && k < files.len(),
            None => index_of(entry_views(files@), key@) < 0,
        },
{
    let ghost ev = entry_views(files@);
    let mut k: usize = 0;
    while k < files.len()
        invariant
            k <= files.len(),
            ev == entry_views(files@),
            index_of(ev.take(k as int), key@) < 0,
        decreases files.len() - k,
    {
        proof {
            assert(ev.take(k + 1).drop_last() == ev.take(k as int));
            assert(ev.take(k + 1).last() == ev[k as int]);
        }
        if files[k].0 == *key {
            proof {
                lemma_index_extends(ev, k as int, key@);
            }
            return Some(k);
        }
        k += 1;
    }
    assert(ev.take(files.len() as int) == ev);
    None
}

/// An index found among the first `k + 1` entries is the index among all.
proof fn lemma_index_extends(entries: Seq<Entry>, k: int, key: Seq<char>)
    requires
        0 <= k < entries.len(),
        index_of(entries.take(k + 1), key) == k,
    ensures
        index_of(entries, key) == k,
    decreases entries.len(),
{
    if entries.len() > k + 1 {
        assert(entries.drop_last().take(k + 1) == entries.take(k + 1));
        lemma_index_extends(entries.drop_last(), k, key);
    } else {
        assert(entries.take(k + 1) == entries);
    }
}

/// Stores `file` under `key`.
fn store_entry(files: &mut Vec<(String, FileTracker)>, key: String, file: FileTracker)
    ensures
        entry_views(final(files)@) == store(entry_views(old(files)@), key@, file@),
{
    let ghost before = entry_views(files@);
    match find_entry(files, &key) {
        Some(k) => {
            files[k] = (key, file);
            assert(entry_views(files@) == before.update(k as int, (key@, file@)));
        },
        None => {
            files.push((key, file));
            assert(entry_views(files@) == before.push((key@, file@)));
        },
    }
}

/// The name of the marker directory as characters.
fn marker_chars() -> (r: Vec<char>)
    ensures
        r@ == marker_dir(),
{
    let r = vec!['.', 'h', 'a', 'r', 'd', '_', 's', 'y', 'n', 'c', '_', 'c', 'l', 'i'];
    assert(r@ =~= marker_dir());
    r
}

/// The relative path under which a file at `path` is taken into the snapshot
/// of `root`, if it is admitted.
fn admit_path(root: &Vec<char>, recursive: bool, path: &Vec<char>) -> (r: Option<Vec<char>>)
    ensures
        match r {
            Some(rel) => admitted(root@, recursive, path@) && strip_prefix(path@, root@) == Some(
                rel@,
            ),
            None => !admitted(root@, recursive, path@),
        },
{
    match strip_prefix_of(path, root) {
        None => None,
        Some(rel) => {
            let c = components_of(&rel);
            assert(rows(c@).len() == c@.len());
            if c.len() == 0 {
                return None;
            }
            let marker = marker_chars();
            assert(rows(c@)[0] == c@[0]@);
            if chars_eq(&c[0], &marker) {
                return None;
            }
            if !recursive && c.len() != 1 {
                return None;
            }
            Some(rel)
        },
    }
}

impl View for DirTracker {
    type V = Snapshot;

    closed spec fn view(&self) -> Snapshot {
        Snapshot {
            path: self.path@,
            size: self.size,
            last_modified: self.last_modified,
            created: self.created,
            ignore: texts(self.ignore@),
            entries: entry_views(self.files@),
        }
    }
}

/// A copy of a list of entries.
fn copy_entries(files: &Vec<(String, FileTracker)>) -> (r: Vec<(String, FileTracker)>)
    ensures
        entry_views(r@) == entry_views(files@),
{
    let ghost wanted = entry_views(files@);
    let mut r: Vec<(String, FileTracker)> = Vec::new();
    let mut k: usize = 0;
    assert(entry_views(r@) == wanted.take(0));
    while k < files.len()
        invariant
            k <= files.len(),
            wanted == entry_views(files@),
            entry_views(r@) == wanted.take(k as int),
        decreases files.len() - k,
    {
        let ghost before = entry_views(r@);
        let key = files[k].0.clone();
        let file = files[k].1.clone();
        r.push((key, file));
        assert(entry_views(r@) == before.push((key@, file@)));
        assert(wanted.take(k + 1) == wanted.take(k as int).push(wanted[k as int]));
        k += 1;
    }
    assert(wanted.take(files.len() as int) == wanted);
    r
}

impl Clone for DirTracker {
    fn clone(&self) -> (r: Self)
        ensures
            r@ == self@,
    {
        DirTracker {
            path: self.path.clone(),
            size: self.size,
            last_modified: self.last_modified,
            created: self.created,
            ignore: self.get_ignore(),
            files: copy_entries(&self.files),
        }
    }
}

impl DirTracker {
    /// The invariant of a snapshot: no two entries have the same path, and
    /// every entry is stored under the path that its file has relative to
    /// the root of this snapshot. `new` establishes it and every method keeps
    /// it.
    pub open spec fn wf(&self) -> bool {
        distinct_keys(self@.entries) && keyed_by_root(self@.path, self@.entries)
    }

    /// Makes the empty snapshot of the directory at `path`, given whether the
    /// path exists and is a directory, and the metadata of the directory.
    pub fn new(
        path: &str,
        exists: bool,
        is_dir: bool,
        size: u64,
        last_modified: u64,
        created: u64,
    ) -> (r: Result<DirTracker, String>)
        ensures
            !exists ==> (r matches Err(m) && m@ == "Path does not exist"@),
            exists && !is_dir ==> (r matches Err(m) && m@ == "Path is not a directory"@),
            exists && is_dir ==> (r matches Ok(d) && d.wf() && d@ == (Snapshot {
                path: path@,
                size,
                last_modified,
                created,
                ignore: Seq::empty(),
                entries: Seq::empty(),
            })),
    {
        if !exists {
            return Err("Path does not exist".to_owned());
        }
        if !is_dir {
            return Err("Path is not a directory".to_owned());
        }
        let d = DirTracker {
            path: path.to_owned(),
            size,
            last_modified,
            created,
            ignore: Vec::new(),
            files: Vec::new(),
        };
        assert(texts(d.ignore@) == Seq::<Seq<char>>::empty());
        assert(entry_views(d.files@) == Seq::<Entry>::empty());
        Ok(d)
    }

    /// Stores `file` under its path relative to the root, in place of the
    /// record that was stored under that path, if any. The file must lie
    /// under the root.
    pub fn add_file(&mut self, file: FileTracker)
        requires
            strip_prefix(file@.path, old(self)@.path) is Some,
        ensures
            final(self)@ == (Snapshot {
                entries: store(
                    old(self)@.entries,
                    strip_prefix(file@.path, old(self)@.path)->0,
                    file@,
                ),
                ..old(self)@
            }),
            old(self).wf() ==> final(self).wf(),
    {
        proof {
            if self.wf() {
                lemma_store_distinct(
                    self@.entries,
                    strip_prefix(file@.path, self@.path)->0,
                    file@,
                );
                lemma_store_keyed(self@.path, self@.entries, file@);
            }
        }
        match file.get_relative_path(self.path.as_str()) {
            Some(key) => {
                store_entry(&mut self.files, key, file);
            },
            None => {},
        }
    }

    /// Appends `ignore` to the ignore patterns.
    pub fn add_ignore(&mut self, ignore: String)
        ensures
            final(self)@ == (Snapshot { ignore: old(self)@.ignore.push(ignore@), ..old(self)@ }),
            old(self).wf() ==> final(self).wf(),
    {
        let ghost before = texts(self.ignore@);
        self.ignore.push(ignore);
        assert(texts(self.ignore@) == before.push(ignore@));
    }

    /// The root of the tree.
    pub fn get_path(&self) -> (r: &str)
        ensures
            r@ == self@.path,
    {
        self.path.as_str()
    }

    /// The size of the root directory itself.
    pub fn get_size(&self) -> (r: u64)
        ensures
            r == self@.size,
    {
        self.size
    }

    /// The time of the last change of the root directory itself.
    pub fn get_last_modified(&self) -> (r: u64)
        ensures
            r == self@.last_modified,
    {
        self.last_modified
    }

    /// The time of creation of the root directory itself.
    pub fn get_created(&self) -> (r: u64)
        ensures
            r == self@.created,
    {
        self.created
    }

    /// A copy of the ignore patterns, in the order in which they were added.
    pub fn get_ignore(&self) -> (r: Vec<String>)
        ensures
            texts(r@) == self@.ignore,
    {
        let mut r: Vec<String> = Vec::new();
        let mut k: usize = 0;
        assert(texts(r@) == self@.ignore.take(0));
        while k < self.ignore.len()
            invariant
                k <= self.ignore.len(),
                texts(r@) == self@.ignore.take(k as int),
            decreases self.ignore.len() - k,
        {
            let ghost before = texts(r@);
            let item = self.ignore[k].clone();
            r.push(item);
            assert(texts(r@) == before.push(item@));
            assert(self@.ignore.take(k + 1) == self@.ignore.take(k as int).push(
                self@.ignore[k as int],
            ));
            k += 1;
        }
        assert(self@.ignore.take(self.ignore.len() as int) == self@.ignore);
        r
    }

    /// Copies of the records, in the order of the entries.
    pub fn get_files(&self) -> (r: Vec<FileTracker>)
        ensures
            record_views(r@) == records_of(self@.entries),
    {
        let mut r: Vec<FileTracker> = Vec::new();
        let mut k: usize = 0;
        let ghost wanted = records_of(self@.entries);
        assert(record_views(r@) == wanted.take(0));
        while k < self.files.len()
            invariant
                k <= self.files.len(),
                wanted == records_of(self@.entries),
                record_views(r@) == wanted.take(k as int),
            decreases self.files.len() - k,
        {
            let ghost before = record_views(r@);
            let item = self.files[k].1.clone();
            r.push(item);
            assert(record_views(r@) == before.push(item@));
            assert(wanted.take(k + 1) == wanted.take(k as int).push(wanted[k as int]));
            k += 1;
        }
        assert(wanted.take(self.files.len() as int) == wanted);
        r
    }

    /// The entries, each a relative path and its record.
    pub fn get_file_hashmap(&self) -> (r: &Vec<(String, FileTracker)>)
        ensures
            entry_views(r@) == self@.entries,
    {
        &self.files
    }

    /// The record stored under the relative path `file_path`, if any.
    pub fn get_file(&self, file_path: &str) -> (r: Option<&FileTracker>)
        ensures
            match r {
                Some(f) => lookup(self@.entries, file_path@) == Some(f@),
                None => lookup(self@.entries, file_path@) is None,
            },
    {
        let key = file_path.to_owned();
        proof {
            lemma_index_of(self@.entries, file_path@);
        }
        match find_entry(&self.files, &key) {
            Some(k) => Some(&self.files[k].1),
            None => None,
        }
    }

    /// Whether a record is stored under the relative path `file_path`.
    pub fn has_file(&self, file_path: &str) -> (r: bool)
        ensures
            r == lookup(self@.entries, file_path@).is_some(),
    {
        self.get_file(file_path).is_some()
    }

    /// Whether one of the ignore strings occurs in `file_path` as it stands,
    /// character for character.
    pub fn is_in_ignore(&self, file_path: &str) -> (r: bool)
        ensures
            r == in_ignore(self@.ignore, file_path@),
    {
        let text = chars_of(file_path);
        let mut k: usize = 0;
        while k < self.ignore.len()
            invariant
                k <= self.ignore.len(),
                text@ == file_path@,
                forall|j: int| 0 <= j < k ==> !occurs_in(#[trigger] self@.ignore[j], file_path@),
            decreases self.ignore.len() - k,
        {
            let needle = chars_of(self.ignore[k].as_str());
            assert(needle@ == self@.ignore[k as int]);
            if contains_chars(&text, &needle) {
                return true;
            }
            k += 1;
        }
        false
    }

    /// Whether one of the ignore patterns, read as a regular expression,
    /// matches somewhere in `file_path`. A pattern that is no valid regular
    /// expression matches nothing.
    pub fn is_ignored(&self, file_path: &str) -> (r: bool)
        ensures
            r == ignored(self@.ignore, file_path@),
    {
        let mut k: usize = 0;
        while k < self.ignore.len()
            invariant
                k <= self.ignore.len(),
                forall|j: int| 0 <= j < k ==> !hits(#[trigger] self@.ignore[j], file_path@),
            decreases self.ignore.len() - k,
        {
            assert(self.ignore[k as int]@ == self@.ignore[k as int]);
            match match_pattern(self.ignore[k].as_str(), file_path) {
                Some(true) => {
                    return true;
                },
                _ => {},
            }
            k += 1;
        }
        false
    }
}

/// Storing a file under its path relative to the root keeps every entry
/// under the path that its file has relative to the root.
pub proof fn lemma_store_keyed(root: Seq<char>, entries: Seq<Entry>, record: FileRecord)
    requires
        keyed_by_root(root, entries),
        strip_prefix(record.path, root) is Some,
    ensures
        keyed_by_root(root, store(entries, strip_prefix(record.path, root)->0, record)),
{
    let key = strip_prefix(record.path, root)->0;
    let after = store(entries, key, record);
    lemma_index_of(entries, key);
    assert forall|k: int| 0 <= k < after.len() implies strip_prefix(
        (#[trigger] after[k]).1.path,
        root,
    ) == Some(after[k].0) by {
        if after[k] != (key, record) {
            assert(after[k] == entries[k]);
        }
    }
}

/// What an import gives has no path twice, and every entry under the path
/// that its file has relative to the root.
pub proof fn lemma_imported_distinct(root: Seq<char>, recursive: bool, found: Seq<FileRecord>)
    ensures
        distinct_keys(imported(root, recursive, found)),
        keyed_by_root(root, imported(root, recursive, found)),
    decreases found.len(),
{
    if found.len() > 0 {
        lemma_imported_distinct(root, recursive, found.drop_last());
        let f = found.last();
        if admitted(root, recursive, f.path) {
            lemma_store_distinct(
                imported(root, recursive, found.drop_last()),
                strip_prefix(f.path, root)->0,
                f,
            );
            lemma_store_keyed(root, imported(root, recursive, found.drop_last()), f);
        }
    }
}

/// Every entry of a diff is an entry of the first snapshot that is new or
/// changed with respect to the second, and the diff has no more entries than
/// the first snapshot.
pub proof fn lemma_diff_sound(a: Seq<Entry>, b: Seq<Entry>)
    ensures
        diff_entries(a, b).len() <= a.len(),
        forall|j: int|
            0 <= j < diff_entries(a, b).len() ==> a.contains(#[trigger] diff_entries(a, b)[j])
                && is_changed(diff_entries(a, b)[j], b),
    decreases a.len(),
{
    if a.len() > 0 {
        lemma_diff_sound(a.drop_last(), b);
        let d = diff_entries(a, b);
        assert forall|j: int| 0 <= j < d.len() implies a.contains(#[trigger] d[j]) && is_changed(
            d[j],
            b,
        ) by {
            let before = diff_entries(a.drop_last(), b);
            if j < before.len() {
                assert(d[j] == before[j]);
                let w = choose|w: int| 0 <= w < a.drop_last().len() && a.drop_last()[w] == d[j];
                assert(a[w] == d[j]);
            } else {
                assert(d[j] == a[a.len() - 1]);
            }
        }
    }
}

/// Every entry of the first snapshot that is new or changed with respect to
/// the second is an entry of the diff.
pub proof fn lemma_diff_holds_changed(a: Seq<Entry>, b: Seq<Entry>, k: int)
    requires
        0 <= k < a.len(),
        is_changed(a[k], b),
    ensures
        diff_entries(a, b).contains(a[k]),
    decreases a.len(),
{
    let d = diff_entries(a, b);
    if k == a.len() - 1 {
        assert(d[d.len() - 1] == a[k]);
    } else {
        lemma_diff_holds_changed(a.drop_last(), b, k);
        let before = diff_entries(a.drop_last(), b);
        let w = choose|w: int| 0 <= w < before.len() && before[w] == a.drop_last()[k];
        assert(d[w] == a[k]);
    }
}

/// Diff completeness: a path of the first snapshot that the second snapshot
/// does not have is in the diff, with its record.
pub proof fn lemma_diff_complete(a: Seq<Entry>, b: Seq<Entry>, k: int)
    requires
        0 <= k < a.len(),
        lookup(b, a[k].0) is None,
    ensures
        diff_entries(a, b).contains(a[k]),
{
    lemma_diff_holds_changed(a, b, k);
}

/// Diff hash sensitivity: for a path that both snapshots have, all that
/// counts is the current hash. With equal hashes no entry of the diff has that
/// path, whatever the timestamps are; with different hashes the entry is in
/// the diff, even if every timestamp is the same.
pub proof fn lemma_diff_hash_sensitive(a: Seq<Entry>, b: Seq<Entry>, k: int)
    requires
        distinct_keys(a),
        0 <= k < a.len(),
        lookup(b, a[k].0) is Some,
    ensures
        lookup(b, a[k].0)->0.current_file_hash == a[k].1.current_file_hash ==> forall|j: int|
            0 <= j < diff_entries(a, b).len() ==> (#[trigger] diff_entries(a, b)[j]).0 != a[k].0,
        lookup(b, a[k].0)->0.current_file_hash != a[k].1.current_file_hash ==> diff_entries(
            a,
            b,
        ).contains(a[k]),
{
    let other = lookup(b, a[k].0)->0;
    if other.current_file_hash == a[k].1.current_file_hash {
        lemma_diff_sound(a, b);
        let d = diff_entries(a, b);
        assert forall|j: int| 0 <= j < d.len() implies (#[trigger] d[j]).0 != a[k].0 by {
            if d[j].0 == a[k].0 {
                let w = choose|w: int| 0 <= w < a.len() && a[w] == d[j];
                assert(w == k);
                assert(!is_changed(a[k], b));
            }
        }
    } else {
        lemma_diff_holds_changed(a, b, k);
    }
}

/// A path that only the second snapshot has is never in the diff.
pub proof fn lemma_diff_directional(a: Seq<Entry>, b: Seq<Entry>, key: Seq<char>)
    requires
        lookup(a, key) is None,
    ensures
        forall|j: int| 0 <= j < diff_entries(a, b).len() ==> (#[trigger] diff_entries(a, b)[j]).0
            != key,
{
    lemma_diff_sound(a, b);
    lemma_index_of(a, key);
    let d = diff_entries(a, b);
    assert forall|j: int| 0 <= j < d.len() implies (#[trigger] d[j]).0 != key by {
        let w = choose|w: int| 0 <= w < a.len() && a[w] == d[j];
        assert(a[w].0 != key);
    }
}

impl DirTracker {
    /// Replaces the file map by what a walk of the tree found. Of the files
    /// in `found`, those are taken that lie under the root and not inside the
    /// marker directory, and, unless `recursive` is set, directly under the
    /// root; each is stored under its path relative to the root.
    pub fn import_files_from_directory(&mut self, recursive: bool, found: Vec<FileTracker>)
        ensures
            final(self)@ == (Snapshot {
                entries: imported(old(self)@.path, recursive, record_views(found@)),
                ..old(self)@
            }),
            final(self).wf(),
    {
        let root = chars_of(self.path.as_str());
        let mut files: Vec<(String, FileTracker)> = Vec::new();
        let ghost given = found@;
        let ghost all = record_views(found@);
        proof {
            assert(all.take(0) == Seq::<FileRecord>::empty());
            assert(entry_views(files@) == Seq::<Entry>::empty());
        }
        for f in it: found
            invariant
                root@ == self@.path,
                self@ == old(self)@,
                it.seq() == given,
                all == record_views(given),
                entry_views(files@) == imported(self@.path, recursive, all.take(it.index())),
        {
            proof {
                let done = it.index();
                assert(all.take(done + 1).drop_last() == all.take(done));
                assert(all.take(done + 1).last() == f@);
            }
            let path = chars_of(f.get_path());
            match admit_path(&root, recursive, &path) {
                Some(rel) => {
                    store_entry(&mut files, string_of(&rel), f);
                },
                None => {},
            }
        }
        proof {
            assert(all.take(all.len() as int) == all);
            lemma_imported_distinct(self@.path, recursive, all);
        }
        self.files = files;
    }

    /// The files of this snapshot that are new or changed with respect to
    /// `other`: those whose path `other` does not have, and those for which
    /// `other` holds another current hash. They come in the order of this
    /// snapshot's entries. Paths that only `other` has are not reported.
    pub fn get_dir_diff(&self, other: &DirTracker) -> (r: Vec<FileTracker>)
        ensures
            record_views(r@) == records_of(diff_entries(self@.entries, other@.entries)),
    {
        let mut diff: Vec<FileTracker> = Vec::new();
        let ghost a = self@.entries;
        let ghost b = other@.entries;
        let mut k: usize = 0;
        proof {
            assert(a.take(0) == Seq::<Entry>::empty());
            assert(record_views(diff@) == records_of(diff_entries(a.take(0), b)));
        }
        while k < self.files.len()
            invariant
                k <= self.files.len(),
                a == self@.entries,
                b == other@.entries,
                record_views(diff@) == records_of(diff_entries(a.take(k as int), b)),
            decreases self.files.len() - k,
        {
            let file = &self.files[k].1;
            proof {
                assert(a.take(k + 1).drop_last() == a.take(k as int));
                assert(a.take(k + 1).last() == a[k as int]);
                lemma_index_of(b, a[k as int].0);
            }
            let changed = match find_entry(&other.files, &self.files[k].0) {
                Some(j) => !file.has_hash_of(&other.files[j].1),
                None => true,
            };
            assert(changed == is_changed(a[k as int], b));
            if changed {
                let ghost before = record_views(diff@);
                let copy = file.clone();
                diff.push(copy);
                assert(record_views(diff@) == before.push(copy@));
                assert(records_of(diff_entries(a.take(k + 1), b)) == records_of(
                    diff_entries(a.take(k as int), b),
                ).push(a[k as int].1));
            }
            k += 1;
        }
        assert(a.take(self.files.len() as int) == a);
        diff
    }

    /// Whether the root carries the marker of an adopted tree, given whether
    /// the root exists and whether the marker directory exists under it.
    pub fn dir_initialized(&self, dir_exists: bool, marker_exists: bool) -> (r: Result<(), String>)
        ensures
            !dir_exists ==> (r matches Err(m) && m@ == "Directory does not exist"@),
            dir_exists && !marker_exists ==> (r matches Err(m) && m@
                == "Directory is not initalized"@),
            dir_exists && marker_exists ==> r is Ok,
    {
        if !dir_exists {
            return Err("Directory does not exist".to_owned());
        }
        if !marker_exists {
            return Err("Directory is not initalized".to_owned());
        }
        Ok(())
    }

    /// Adopts the tree: decides whether the root can be adopted and, if so,
    /// imports every file that the walk found. The caller then creates the
    /// marker directory and writes the snapshot into it.
    ///
    /// Adoption fails, and changes nothing, if the root does not exist, is no
    /// directory, or carries the marker already.
    pub fn setup_dir_config(
        &mut self,
        dir_exists: bool,
        is_dir: bool,
        marker_exists: bool,
        found: Vec<FileTracker>,
    ) -> (r: Result<(), String>)
        ensures
            !dir_exists ==> (r matches Err(m) && m@ == "Directory does not exist"@),
            dir_exists && !is_dir ==> (r matches Err(m) && m@ == "Path is not a directory"@),
            dir_exists && is_dir && marker_exists ==> (r matches Err(m) && m@
                == "Directory is already initalized"@),
            dir_exists && is_dir && !marker_exists ==> r is Ok,
            r is Err ==> final(self)@ == old(self)@,
            r is Ok ==> final(self)@ == (Snapshot {
                entries: imported(old(self)@.path, true, record_views(found@)),
                ..old(self)@
            }),
            r is Ok ==> final(self).wf(),
    {
        if !dir_exists {
            return Err("Directory does not exist".to_owned());
        }
        if !is_dir {
            return Err("Path is not a directory".to_owned());
        }
        if marker_exists {
            return Err("Directory is already initalized".to_owned());
        }
        self.import_files_from_directory(true, found);
        Ok(())
    }

    /// Whether the marker file can be rewritten: it must exist already. The
    /// caller then truncates it and writes the snapshot as it is now.
    pub fn update_tracker(&self, tracker_exists: bool) -> (r: Result<(), String>)
        ensures
            !tracker_exists ==> (r matches Err(m) && m@ == "Tracker file does not exist"@),
            tracker_exists ==> r is Ok,
    {
        if !tracker_exists {
            return Err("Tracker file does not exist".to_owned());
        }
        Ok(())
    }

    /// Appends each line of the ignore file as a pattern. `contents` is the
    /// text of the file, or `None` if there is no such file, which is an
    /// error and changes nothing.
    pub fn load_ignore(&mut self, contents: Option<&str>) -> (r: Result<(), String>)
        ensures
            contents is None ==> (r matches Err(m) && m@ == "Ignore file does not exist"@)
                && final(self)@ == old(self)@,
            contents matches Some(text) ==> r is Ok && final(self)@ == (Snapshot {
                ignore: old(self)@.ignore + lines(text@),
                ..old(self)@
            }),
            old(self).wf() ==> final(self).wf(),
    {
        match contents {
            None => Err("Ignore file does not exist".to_owned()),
            Some(text) => {
                let found = split_lines(&chars_of(text));
                let ghost wanted = lines(text@);
                let mut k: usize = 0;
                proof {
                    assert(rows(found@).len() == found@.len());
                    assert(self@.ignore + wanted.take(0) == self@.ignore);
                }
                while k < found.len()
                    invariant
                        k <= found.len(),
                        rows(found@) == wanted,
                        self@ == (Snapshot {
                            ignore: old(self)@.ignore + wanted.take(k as int),
                            ..old(self)@
                        }),
                        old(self).wf() ==> self.wf(),
                    decreases found.len() - k,
                {
                    let line = string_of(&found[k]);
                    proof {
                        assert(line@ == wanted[k as int]);
                        assert((old(self)@.ignore + wanted.take(k as int)).push(wanted[k as int])
                            == old(self)@.ignore + wanted.take(k + 1));
                    }
                    self.add_ignore(line);
                    k += 1;
                }
                assert(wanted.take(found.len() as int) == wanted);
                Ok(())
            },
        }
    }
}

} // verus!
