//! The journal of a tree: one record of metadata for each path under the
//! root, written as one JSON object per line.

use vstd::prelude::*;
use crate::paths::ends_with;
use crate::paths::is_same_path;
use crate::paths::path_ends_with;
use crate::paths::relative_chars;
use crate::paths::same_path;
use crate::paths::relative_path;
use crate::text::chars_of;
use crate::text::lemma_line_end;
use crate::text::line_end;
use crate::text::lines;
use crate::text::lines_from;
use crate::text::push_all;
use crate::text::rows;
use crate::text::split_lines;
use crate::text::string_of;
use crate::text::texts;
use crate::text::strip_cr;

verus! {

/// What a `PathTransactionData` holds, as the contracts see it.
pub struct JournalRecord {
    pub path: Seq<char>,
    pub last_modified: u64,
    pub last_accessed: u64,
    pub created: u64,
    pub size: Seq<char>,
    pub is_dir: bool,
}

/// The journal's record of one path: the path relative to the root, its
/// timestamps in whole seconds, its size in decimal, and whether it is a
/// directory.
#[derive(Debug)]
pub struct PathTransactionData {
    path: String,
    last_modified: u64,
    last_accessed: u64,
    created: u64,
    size: String,
    is_dir: bool,
}

/// One entry that a walk of a tree met: the path as walked and the metadata
/// read for it.
#[derive(Debug)]
pub struct WalkEntry {
    pub path: String,
    pub last_modified: u64,
    pub last_accessed: u64,
    pub created: u64,
    pub size: u64,
    pub is_dir: bool,
}

impl View for PathTransactionData {
    type V = JournalRecord;

    closed spec fn view(&self) -> JournalRecord {
        JournalRecord {
            path: self.path@,
            last_modified: self.last_modified,
            last_accessed: self.last_accessed,
            created: self.created,
            size: self.size@,
            is_dir: self.is_dir,
        }
    }
}

impl Clone for PathTransactionData {
    fn clone(&self) -> (r: Self)
        ensures
            r@ == self@,
    {
        PathTransactionData {
            path: self.path.clone(),
            last_modified: self.last_modified,
            last_accessed: self.last_accessed,
            created: self.created,
            size: self.size.clone(),
            is_dir: self.is_dir,
        }
    }
}

/// The records that a list of journal entries holds.
pub open spec fn journal_views(v: Seq<PathTransactionData>) -> Seq<JournalRecord> {
    Seq::new(v.len(), |k: int| v[k]@)
}

/// The decimal digit of a value below 10.
pub open spec fn digit(d: int) -> char {
    ((48 + d) as u8) as char
}

/// `n` in decimal, without leading zeros.
pub open spec fn decimal(n: nat) -> Seq<char>
    decreases n,
{
    if n < 10 {
        seq![digit(n as int)]
    } else {
        decimal(n / 10).push(digit((n % 10) as int))
    }
}

/// Writes `n` in decimal.
pub fn decimal_of(n: u64) -> (r: Vec<char>)
    ensures
        r@ == decimal(n as nat),
    decreases n,
{
    if n < 10 {
        let mut r: Vec<char> = Vec::new();
        r.push((48 + n as u8) as char);
        assert(r@ =~= seq![digit(n as int)]);
        r
    } else {
        let mut r = decimal_of(n / 10);
        r.push((48 + (n % 10) as u8) as char);
        r
    }
}

/// A decimal digit is one of the characters `0` to `9`.
pub proof fn lemma_digit(d: int)
    requires
        0 <= d < 10,
    ensures
        digit(d) as u32 == 48 + d,
        digit(d) != '\n',
{
    let b = (48 + d) as u8;
    assert(b as char as u32 == b as u32);
    assert('\n' as u32 == 10);
}

/// No digit of a decimal number is a line feed.
pub proof fn lemma_decimal_one_line(n: nat)
    ensures
        forall|i: int| 0 <= i < decimal(n).len() ==> decimal(n)[i] != '\n',
    decreases n,
{
    let d = decimal(n);
    if n >= 10 {
        lemma_decimal_one_line(n / 10);
        lemma_digit((n % 10) as int);
        let head = decimal(n / 10);
        assert(d == head.push(digit((n % 10) as int)));
        assert forall|i: int| 0 <= i < d.len() implies d[i] != '\n' by {
            if i < head.len() {
                assert(d[i] == head[i]);
            }
        }
    } else {
        lemma_digit(n as int);
        assert(d == seq![digit(n as int)]);
    }
}

/// `text` as a JSON string: in double quotes, with quotes, backslashes and
/// control characters escaped.
pub uninterp spec fn json_text(text: Seq<char>) -> Seq<char>;

/// Whether `s` holds no line feed.
pub open spec fn one_line(s: Seq<char>) -> bool {
    forall|i: int| 0 <= i < s.len() ==> s[i] != '\n'
}

/// Writes `text` as a JSON string.
///
/// Trusted: calls `serde_json::to_string` on a string slice, which writes the
/// text between double quotes and escapes every quote, backslash and control
/// character, the line feed among them, so that the result holds no line
/// feed. Writing into memory cannot fail; the empty string stands in for the
/// error that the signature allows.
#[verifier::external_body]
fn json_text_of(text: &str) -> (r: String)
    ensures
        r@ == json_text(text@),
        one_line(r@),
{
    match serde_json::to_string(text) {
        Ok(s) => s,
        Err(_) => String::new(),
    }
}

/// The line that stands for `r` in the journal: a JSON object with the
/// fields `path`, `last_modified`, `last_accessed`, `created`, `size` and
/// `is_dir`, in this order and without spaces. Path and size are JSON
/// strings, the timestamps are decimal numbers.
pub open spec fn encoded(r: JournalRecord) -> Seq<char> {
    "{\"path\":"@ + json_text(r.path) + ",\"last_modified\":"@ + decimal(r.last_modified as nat)
        + ",\"last_accessed\":"@ + decimal(r.last_accessed as nat) + ",\"created\":"@ + decimal(
        r.created as nat,
    ) + ",\"size\":"@ + json_text(r.size) + ",\"is_dir\":"@ + (if r.is_dir {
        "true"@
    } else {
        "false"@
    }) + "}"@
}

/// The lines of a list of records.
pub open spec fn encoded_lines(records: Seq<JournalRecord>) -> Seq<Seq<char>> {
    Seq::new(records.len(), |k: int| encoded(records[k]))
}

/// The text of a journal: the line of each record, each followed by a line
/// feed.
pub open spec fn journal_text(records: Seq<JournalRecord>) -> Seq<char>
    decreases records.len(),
{
    if records.len() == 0 {
        Seq::empty()
    } else {
        encoded(records[0]) + seq!['\n'] + journal_text(records.drop_first())
    }
}

/// The records that parsing found, without the lines that did not parse.
pub open spec fn parsed_records(parsed: Seq<Option<JournalRecord>>) -> Seq<JournalRecord>
    decreases parsed.len(),
{
    if parsed.len() == 0 {
        Seq::empty()
    } else {
        let head = parsed_records(parsed.drop_last());
        match parsed.last() {
            Some(r) => head.push(r),
            None => head,
        }
    }
}

/// What a list of parse results holds.
pub open spec fn parse_views(v: Seq<Option<PathTransactionData>>) -> Seq<Option<JournalRecord>> {
    Seq::new(
        v.len(),
        |k: int|
            match v[k] {
                Some(d) => Some(d@),
                None => None,
            },
    )
}

/// The line of a record ends with a closing brace, and holds no line feed if
/// its two JSON strings hold none.
pub proof fn lemma_encoded_shape(r: JournalRecord)
    requires
        one_line(json_text(r.path)),
        one_line(json_text(r.size)),
    ensures
        one_line(encoded(r)),
        encoded(r).len() > 0,
        encoded(r).last() == '}',
{
    reveal_strlit("{\"path\":");
    reveal_strlit(",\"last_modified\":");
    reveal_strlit(",\"last_accessed\":");
    reveal_strlit(",\"created\":");
    reveal_strlit(",\"size\":");
    reveal_strlit(",\"is_dir\":");
    reveal_strlit("true");
    reveal_strlit("false");
    reveal_strlit("}");
    lemma_decimal_one_line(r.last_modified as nat);
    lemma_decimal_one_line(r.last_accessed as nat);
    lemma_decimal_one_line(r.created as nat);
    assert(one_line("{\"path\":"@));
    assert(one_line(",\"last_modified\":"@));
    assert(one_line(",\"last_accessed\":"@));
    assert(one_line(",\"created\":"@));
    assert(one_line(",\"size\":"@));
    assert(one_line(",\"is_dir\":"@));
    assert(one_line("true"@));
    assert(one_line("false"@));
    assert(one_line("}"@));
}

/// Where a line ends does not depend on what stands before its start.
proof fn lemma_line_end_shift(p: Seq<char>, t: Seq<char>, i: int)
    requires
        0 <= i <= t.len(),
    ensures
        line_end(p + t, p.len() + i) == p.len() + line_end(t, i),
    decreases t.len() - i,
{
    if i < t.len() {
        assert((p + t)[p.len() + i] == t[i]);
        if t[i] != '\n' {
            lemma_line_end_shift(p, t, i + 1);
        }
    }
}

/// The lines that start after a prefix are the lines of the text without
/// the prefix.
proof fn lemma_lines_shift(p: Seq<char>, t: Seq<char>, i: int)
    requires
        0 <= i <= t.len(),
    ensures
        lines_from(p + t, p.len() + i) == lines_from(t, i),
    decreases t.len() - i,
{
    if i < t.len() {
        lemma_line_end_shift(p, t, i);
        lemma_line_end(t, i);
        let e = line_end(t, i);
        assert((p + t).subrange(p.len() + i, p.len() + e) == t.subrange(i, e));
        if e < t.len() {
            lemma_lines_shift(p, t, e + 1);
        } else {
            assert((p + t).subrange(p.len() + i, (p + t).len() as int) == t.subrange(
                i,
                t.len() as int,
            ));
        }
    }
}

/// A line without a line feed ends where it ends.
proof fn lemma_line_end_of_line(l: Seq<char>, t: Seq<char>, i: int)
    requires
        one_line(l),
        0 <= i <= l.len(),
    ensures
        line_end(l + seq!['\n'] + t, i) == l.len(),
    decreases l.len() - i,
{
    let x = l + seq!['\n'] + t;
    if i < l.len() {
        assert(x[i] == l[i]);
        lemma_line_end_of_line(l, t, i + 1);
    } else {
        assert(x[i] == '\n');
    }
}

/// Journal framing: the text of a journal splits into exactly the lines of
/// its records, in order, provided that no line holds a line feed or ends
/// with a carriage return.
pub proof fn lemma_journal_lines(records: Seq<JournalRecord>)
    requires
        forall|k: int|
            0 <= k < records.len() ==> one_line(#[trigger] encoded(records[k])) && strip_cr(
                encoded(records[k]),
            ) == encoded(records[k]),
    ensures
        lines(journal_text(records)) == encoded_lines(records),
    decreases records.len(),
{
    if records.len() > 0 {
        let l = encoded(records[0]);
        let rest = records.drop_first();
        let t = journal_text(rest);
        let x = l + seq!['\n'] + t;
        assert forall|k: int| 0 <= k < rest.len() implies one_line(#[trigger] encoded(rest[k]))
            && strip_cr(encoded(rest[k])) == encoded(rest[k]) by {
            assert(rest[k] == records[k + 1]);
        }
        lemma_journal_lines(rest);
        lemma_line_end_of_line(l, t, 0);
        assert(x.subrange(0, l.len() as int) == l);
        lemma_lines_shift(l + seq!['\n'], t, 0);
        assert(lines_from(x, (l.len() + 1) as int) == lines(t));
        assert(lines(x) == seq![l] + lines(t));
        assert(encoded_lines(records) =~= seq![l] + encoded_lines(rest));
    } else {
        assert(encoded_lines(records) =~= Seq::<Seq<char>>::empty());
    }
}

/// Records that all parsed are all kept, in order.
proof fn lemma_parsed_all(records: Seq<JournalRecord>)
    ensures
        parsed_records(Seq::new(records.len(), |k: int| Some(records[k]))) == records,
    decreases records.len(),
{
    let all = Seq::new(records.len(), |k: int| Some(records[k]));
    if records.len() > 0 {
        let front = records.drop_last();
        lemma_parsed_all(front);
        assert(all.drop_last() =~= Seq::new(front.len(), |k: int| Some(front[k])));
        assert(all.last() == Some(records.last()));
        assert(front.push(records.last()) =~= records);
    } else {
        assert(parsed_records(all) =~= records);
    }
}

/// Journal round trip, for any way of reading a line that reads the line of
/// each of `records` back as that record: reading the lines of the journal
/// of `records` and keeping what was read gives `records` again, each once
/// and in order. The lines of the journal are the lines that
/// `save_lock_data` promises its text to split into.
pub proof fn lemma_journal_round_trip(
    records: Seq<JournalRecord>,
    read: spec_fn(Seq<char>) -> Option<JournalRecord>,
)
    requires
        forall|k: int| 0 <= k < records.len() ==> read(#[trigger] encoded(records[k])) == Some(
            records[k],
        ),
    ensures
        parsed_records(
            Seq::new(encoded_lines(records).len(), |k: int| read(encoded_lines(records)[k])),
        ) == records,
{
    let outcomes = Seq::new(
        encoded_lines(records).len(),
        |k: int| read(encoded_lines(records)[k]),
    );
    lemma_parsed_all(records);
    assert(outcomes =~= Seq::new(records.len(), |k: int| Some(records[k])));
}

impl PathTransactionData {
    /// Makes a record from its parts.
    pub fn new(
        path: String,
        last_modified: u64,
        last_accessed: u64,
        created: u64,
        size: String,
        is_dir: bool,
    ) -> (r: Self)
        ensures
            r@ == (JournalRecord {
                path: path@,
                last_modified,
                last_accessed,
                created,
                size: size@,
                is_dir,
            }),
    {
        PathTransactionData { path, last_modified, last_accessed, created, size, is_dir }
    }

    /// The path relative to the root.
    pub fn get_path(&self) -> (r: &str)
        ensures
            r@ == self@.path,
    {
        self.path.as_str()
    }

    /// When the path was last changed, in seconds since the epoch.
    pub fn get_last_modified(&self) -> (r: u64)
        ensures
            r == self@.last_modified,
    {
        self.last_modified
    }

    /// When the path was last read, in seconds since the epoch.
    pub fn get_last_accessed(&self) -> (r: u64)
        ensures
            r == self@.last_accessed,
    {
        self.last_accessed
    }

    /// When the path was created, in seconds since the epoch.
    pub fn get_created(&self) -> (r: u64)
        ensures
            r == self@.created,
    {
        self.created
    }

    /// The size in bytes, in decimal.
    pub fn get_size(&self) -> (r: &str)
        ensures
            r@ == self@.size,
    {
        self.size.as_str()
    }

    /// Whether the path is a directory.
    pub fn get_is_dir(&self) -> (r: bool)
        ensures
            r == self@.is_dir,
    {
        self.is_dir
    }

    /// Writes the record as its line of the journal, without a line feed.
    pub fn to_json(&self) -> (r: String)
        ensures
            r@ == encoded(self@),
            one_line(r@),
            strip_cr(r@) == r@,
    {
        let path = json_text_of(self.path.as_str());
        let size = json_text_of(self.size.as_str());
        proof {
            lemma_encoded_shape(self@);
            reveal_strlit("}");
        }
        let mut line = chars_of("{\"path\":");
        push_all(&mut line, &chars_of(path.as_str()));
        push_all(&mut line, &chars_of(",\"last_modified\":"));
        push_all(&mut line, &decimal_of(self.last_modified));
        push_all(&mut line, &chars_of(",\"last_accessed\":"));
        push_all(&mut line, &decimal_of(self.last_accessed));
        push_all(&mut line, &chars_of(",\"created\":"));
        push_all(&mut line, &decimal_of(self.created));
        push_all(&mut line, &chars_of(",\"size\":"));
        push_all(&mut line, &chars_of(size.as_str()));
        push_all(&mut line, &chars_of(",\"is_dir\":"));
        if self.is_dir {
            push_all(&mut line, &chars_of("true"));
        } else {
            push_all(&mut line, &chars_of("false"));
        }
        push_all(&mut line, &chars_of("}"));
        string_of(&line)
    }
}

/// Writes the journal of `data`: the line of each record, each followed by a
/// line feed. Splitting the text into lines gives back exactly those lines.
pub fn save_lock_data(data: &Vec<PathTransactionData>) -> (r: String)
    ensures
        r@ == journal_text(journal_views(data@)),
        lines(r@) == encoded_lines(journal_views(data@)),
{
    let ghost records = journal_views(data@);
    let mut text: Vec<char> = Vec::new();
    let mut k: usize = 0;
    proof {
        assert(records.skip(0) == records);
    }
    while k < data.len()
        invariant
            k <= data.len(),
            records == journal_views(data@),
            text@ + journal_text(records.skip(k as int)) == journal_text(records),
            forall|j: int|
                0 <= j < k ==> one_line(#[trigger] encoded(records[j])) && strip_cr(
                    encoded(records[j]),
                ) == encoded(records[j]),
        decreases data.len() - k,
    {
        let line = data[k].to_json();
        let ghost before = text@;
        push_all(&mut text, &chars_of(line.as_str()));
        text.push('\n');
        proof {
            let rest = records.skip(k as int);
            assert(rest[0] == records[k as int]);
            assert(rest.drop_first() == records.skip(k + 1));
            assert(text@ + journal_text(records.skip(k + 1)) == before + journal_text(rest)) by {
                assert(text@ == before + encoded(records[k as int]) + seq!['\n']);
                assert(journal_text(rest) == encoded(records[k as int]) + seq!['\n']
                    + journal_text(records.skip(k + 1)));
                assert(text@ + journal_text(records.skip(k + 1)) =~= before + journal_text(rest));
            }
        }
        k += 1;
    }
    proof {
        assert(records.skip(data.len() as int) == Seq::<JournalRecord>::empty());
        assert(text@ + Seq::<char>::empty() == text@);
        lemma_journal_lines(records);
    }
    string_of(&text)
}

/// The lines of the text of a journal file.
pub fn journal_lines(content: &str) -> (r: Vec<String>)
    ensures
        texts(r@) == lines(content@),
{
    let found = split_lines(&chars_of(content));
    let mut r: Vec<String> = Vec::new();
    let mut k: usize = 0;
    assert(rows(found@).len() == found@.len());
    assert(texts(r@) == lines(content@).take(0));
    while k < found.len()
        invariant
            k <= found.len(),
            rows(found@) == lines(content@),
            texts(r@) == lines(content@).take(k as int),
        decreases found.len() - k,
    {
        let line = string_of(&found[k]);
        let ghost before = texts(r@);
        assert(line@ == rows(found@)[k as int]);
        r.push(line);
        assert(texts(r@) == before.push(line@));
        assert(lines(content@).take(k + 1) == lines(content@).take(k as int).push(line@));
        k += 1;
    }
    assert(lines(content@).take(found.len() as int) == lines(content@));
    r
}

/// Gathers the records of a journal from the outcome of parsing each of its
/// lines: the records of the lines that parsed, in order. A line that did
/// not parse is left out and spoils no other.
pub fn get_lock_data(parsed: Vec<Option<PathTransactionData>>) -> (r: Vec<PathTransactionData>)
    ensures
        journal_views(r@) == parsed_records(parse_views(parsed@)),
{
    let ghost all = parse_views(parsed@);
    let mut r: Vec<PathTransactionData> = Vec::new();
    let mut k: usize = 0;
    proof {
        assert(all.take(0) == Seq::<Option<JournalRecord>>::empty());
        assert(journal_views(r@) == parsed_records(all.take(0)));
    }
    while k < parsed.len()
        invariant
            k <= parsed.len(),
            all == parse_views(parsed@),
            journal_views(r@) == parsed_records(all.take(k as int)),
        decreases parsed.len() - k,
    {
        proof {
            assert(all.take(k + 1).drop_last() == all.take(k as int));
            assert(all.take(k + 1).last() == all[k as int]);
        }
        match &parsed[k] {
            Some(d) => {
                let ghost before = journal_views(r@);
                let copy = d.clone();
                r.push(copy);
                assert(journal_views(r@) == before.push(copy@));
            },
            None => {},
        }
        k += 1;
    }
    assert(all.take(parsed.len() as int) == all);
    r
}

/// What a `WalkEntry` holds, as the contracts see it.
pub struct WalkedPath {
    pub path: Seq<char>,
    pub last_modified: u64,
    pub last_accessed: u64,
    pub created: u64,
    pub size: u64,
    pub is_dir: bool,
}

impl View for WalkEntry {
    type V = WalkedPath;

    open spec fn view(&self) -> WalkedPath {
        WalkedPath {
            path: self.path@,
            last_modified: self.last_modified,
            last_accessed: self.last_accessed,
            created: self.created,
            size: self.size,
            is_dir: self.is_dir,
        }
    }
}

/// What a list of walked entries holds.
pub open spec fn walk_views(v: Seq<WalkEntry>) -> Seq<WalkedPath> {
    Seq::new(v.len(), |k: int| v[k]@)
}

/// The name of the directory under a root that holds its journal.
pub open spec fn journal_dir() -> Seq<char> {
    ".hard-sync"@
}

/// The name of the journal file.
pub open spec fn journal_file() -> Seq<char> {
    "hard-sync.lock"@
}

/// Whether `path` is left out of the journal of `root`: it is the root
/// itself, the journal directory or the journal file.
pub open spec fn is_own_entry(root: Seq<char>, path: Seq<char>) -> bool {
    ends_with(path, journal_dir()) || same_path(path, root) || ends_with(path, journal_file())
}

/// The record that the journal of `root` holds for a walked entry, if any:
/// none for the journal's own entries and for a path that does not lie under
/// the root; otherwise the path relative to the root, the timestamps, the
/// size in decimal and the kind.
pub open spec fn entry_record(root: Seq<char>, e: WalkedPath) -> Option<JournalRecord> {
    if is_own_entry(root, e.path) {
        None
    } else {
        match relative_path(root, e.path) {
            None => None,
            Some(rel) => Some(
                JournalRecord {
                    path: rel,
                    last_modified: e.last_modified,
                    last_accessed: e.last_accessed,
                    created: e.created,
                    size: decimal(e.size as nat),
                    is_dir: e.is_dir,
                },
            ),
        }
    }
}

/// The records of the journal of `root` for what a walk of its tree met, in
/// the order of the walk.
pub open spec fn journal_of(root: Seq<char>, entries: Seq<WalkedPath>) -> Seq<JournalRecord> {
    parsed_records(Seq::new(entries.len(), |k: int| entry_record(root, entries[k])))
}

/// Makes the record of one walked entry, if the journal holds one for it.
pub fn record_of_entry(root: &Vec<char>, entry: &WalkEntry) -> (r: Option<PathTransactionData>)
    ensures
        match r {
            Some(d) => entry_record(root@, entry@) == Some(d@),
            None => entry_record(root@, entry@) is None,
        },
{
    let path = chars_of(entry.path.as_str());
    if path_ends_with(&path, &chars_of(".hard-sync")) || is_same_path(&path, root)
        || path_ends_with(&path, &chars_of("hard-sync.lock")) {
        return None;
    }
    match relative_chars(root, &path) {
        None => None,
        Some(rel) => Some(
            PathTransactionData {
                path: string_of(&rel),
                last_modified: entry.last_modified,
                last_accessed: entry.last_accessed,
                created: entry.created,
                size: string_of(&decimal_of(entry.size)),
                is_dir: entry.is_dir,
            },
        ),
    }
}

/// Makes the journal of the tree at `root` from what a walk of it met: one
/// record for each entry but the root itself, the journal directory and the
/// journal file, in the order of the walk.
pub fn get_save_data_path_transaction_data(root: &str, entries: &Vec<WalkEntry>) -> (r: Vec<
    PathTransactionData,
>)
    ensures
        journal_views(r@) == journal_of(root@, walk_views(entries@)),
{
    let root_chars = chars_of(root);
    let ghost all = Seq::new(
        entries@.len(),
        |k: int| entry_record(root@, walk_views(entries@)[k]),
    );
    let mut r: Vec<PathTransactionData> = Vec::new();
    let mut k: usize = 0;
    proof {
        assert(all.take(0) == Seq::<Option<JournalRecord>>::empty());
        assert(journal_views(r@) == parsed_records(all.take(0)));
    }
    while k < entries.len()
        invariant
            k <= entries.len(),
            root_chars@ == root@,
            all == Seq::new(entries@.len(), |k: int| entry_record(root@, walk_views(entries@)[k])),
            journal_views(r@) == parsed_records(all.take(k as int)),
        decreases entries.len() - k,
    {
        proof {
            assert(all.take(k + 1).drop_last() == all.take(k as int));
            assert(all.take(k + 1).last() == all[k as int]);
            assert(walk_views(entries@)[k as int] == entries@[k as int]@);
        }
        match record_of_entry(&root_chars, &entries[k]) {
            Some(d) => {
                let ghost before = journal_views(r@);
                r.push(d);
                assert(journal_views(r@) == before.push(d@));
            },
            None => {},
        }
        k += 1;
    }
    assert(all.take(entries.len() as int) == all);
    r
}

} // verus!
