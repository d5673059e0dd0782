//! The stored form of a file record: a list of named fields, with names of
//! its own that do not follow the names inside the program.

use vstd::prelude::*;
use crate::file_tracker::FileRecord;
use crate::file_tracker::FileTracker;
use crate::text::chars_eq;
use crate::text::chars_of;

verus! {

/// The fields of a stored file record, in the order in which they are
/// written.
#[derive(Debug, Clone, Copy, PartialEq, Eq, Structural)]
pub enum FieldName {
    FilePath,
    FileSizeBytes,
    LastModified,
    Created,
    LastAccessed,
    Extension,
    PreviousHash,
    CurrentHash,
}

/// The value of a stored field.
#[derive(Debug)]
pub enum FieldValue {
    Text(String),
    Number(u64),
    /// Any value that is neither a string nor a number that fits.
    Other,
}

/// What a `FieldValue` holds, as the contracts see it.
pub enum FieldData {
    Text(Seq<char>),
    Number(u64),
    Other,
}

/// Why a list of fields is no file record.
#[derive(Debug, Clone, Copy, PartialEq, Eq, Structural)]
pub enum FieldError {
    /// The field occurs a second time.
    Duplicate(FieldName),
    /// The field does not occur.
    Missing(FieldName),
    /// The field holds a value of the wrong kind.
    WrongType(FieldName),
}

impl View for FieldValue {
    type V = FieldData;

    open spec fn view(&self) -> FieldData {
        match self {
            FieldValue::Text(t) => FieldData::Text(t@),
            FieldValue::Number(n) => FieldData::Number(*n),
            FieldValue::Other => FieldData::Other,
        }
    }
}

/// One stored field as the contracts see it: its name as written and its
/// value.
pub type Field = (Seq<char>, FieldData);

/// What a list of stored fields holds.
pub open spec fn field_views(v: Seq<(String, FieldValue)>) -> Seq<Field> {
    Seq::new(v.len(), |k: int| (v[k].0@, v[k].1@))
}

/// The name under which a field is written.
pub open spec fn label(n: FieldName) -> Seq<char> {
    match n {
        FieldName::FilePath => "file_path"@,
        FieldName::FileSizeBytes => "file_size_bytes"@,
        FieldName::LastModified => "last_modified_timestamp"@,
        FieldName::Created => "created_timestamp"@,
        FieldName::LastAccessed => "last_accessed_timestamp"@,
        FieldName::Extension => "file_extension"@,
        FieldName::PreviousHash => "previous_file_hash"@,
        FieldName::CurrentHash => "current_file_hash"@,
    }
}

/// The field that `key` names, if any.
pub open spec fn named(key: Seq<char>) -> Option<FieldName> {
    if key == label(FieldName::FilePath) {
        Some(FieldName::FilePath)
    } else if key == label(FieldName::FileSizeBytes) {
        Some(FieldName::FileSizeBytes)
    } else if key == label(FieldName::LastModified) {
        Some(FieldName::LastModified)
    } else if key == label(FieldName::Created) {
        Some(FieldName::Created)
    } else if key == label(FieldName::LastAccessed) {
        Some(FieldName::LastAccessed)
    } else if key == label(FieldName::Extension) {
        Some(FieldName::Extension)
    } else if key == label(FieldName::PreviousHash) {
        Some(FieldName::PreviousHash)
    } else if key == label(FieldName::CurrentHash) {
        Some(FieldName::CurrentHash)
    } else {
        None
    }
}

/// The fields read so far.
pub struct Draft {
    pub path: Option<Seq<char>>,
    pub size: Option<u64>,
    pub last_modified: Option<u64>,
    pub created: Option<u64>,
    pub last_accessed: Option<u64>,
    pub extension: Option<Seq<char>>,
    pub last_file_hash: Option<Seq<char>>,
    pub current_file_hash: Option<Seq<char>>,
}

/// The draft in which no field has been read.
pub open spec fn blank() -> Draft {
    Draft {
        path: None,
        size: None,
        last_modified: None,
        created: None,
        last_accessed: None,
        extension: None,
        last_file_hash: None,
        current_file_hash: None,
    }
}

/// Whether the field `n` has been read into `d`.
pub open spec fn is_set(d: Draft, n: FieldName) -> bool {
    match n {
        FieldName::FilePath => d.path is Some,
        FieldName::FileSizeBytes => d.size is Some,
        FieldName::LastModified => d.last_modified is Some,
        FieldName::Created => d.created is Some,
        FieldName::LastAccessed => d.last_accessed is Some,
        FieldName::Extension => d.extension is Some,
        FieldName::PreviousHash => d.last_file_hash is Some,
        FieldName::CurrentHash => d.current_file_hash is Some,
    }
}

/// `d` with the value of the field `n` read in, if the value is of the kind
/// that the field holds: text for the path, the extension and the hashes, a
/// number for the size and the timestamps.
pub open spec fn with_field(d: Draft, n: FieldName, value: FieldData) -> Option<Draft> {
    match (n, value) {
        (FieldName::FilePath, FieldData::Text(t)) => Some(Draft { path: Some(t), ..d }),
        (FieldName::FileSizeBytes, FieldData::Number(x)) => Some(Draft { size: Some(x), ..d }),
        (FieldName::LastModified, FieldData::Number(x)) => Some(
            Draft { last_modified: Some(x), ..d },
        ),
        (FieldName::Created, FieldData::Number(x)) => Some(Draft { created: Some(x), ..d }),
        (FieldName::LastAccessed, FieldData::Number(x)) => Some(
            Draft { last_accessed: Some(x), ..d },
        ),
        (FieldName::Extension, FieldData::Text(t)) => Some(Draft { extension: Some(t), ..d }),
        (FieldName::PreviousHash, FieldData::Text(t)) => Some(
            Draft { last_file_hash: Some(t), ..d },
        ),
        (FieldName::CurrentHash, FieldData::Text(t)) => Some(
            Draft { current_file_hash: Some(t), ..d },
        ),
        _ => None,
    }
}

/// `d` after one more stored field was read. A field of an unknown name is
/// passed over. A known field that was read before is an error, whatever it
/// holds now; then its value has to be of the right kind.
pub open spec fn absorb(d: Draft, field: Field) -> Result<Draft, FieldError> {
    match named(field.0) {
        None => Ok(d),
        Some(n) => if is_set(d, n) {
            Err(FieldError::Duplicate(n))
        } else {
            match with_field(d, n, field.1) {
                Some(next) => Ok(next),
                None => Err(FieldError::WrongType(n)),
            }
        },
    }
}

/// The draft after all of `fields` were read in order, or the first error.
pub open spec fn scan(fields: Seq<Field>) -> Result<Draft, FieldError>
    decreases fields.len(),
{
    if fields.len() == 0 {
        Ok(blank())
    } else {
        match scan(fields.drop_last()) {
            Err(e) => Err(e),
            Ok(d) => absorb(d, fields.last()),
        }
    }
}

/// The record that a draft makes, or the first field that is missing, in the
/// order in which the fields are written. The content is not stored and
/// comes back empty.
pub open spec fn finish(d: Draft) -> Result<FileRecord, FieldError> {
    if d.path is None {
        Err(FieldError::Missing(FieldName::FilePath))
    } else if d.size is None {
        Err(FieldError::Missing(FieldName::FileSizeBytes))
    } else if d.last_modified is None {
        Err(FieldError::Missing(FieldName::LastModified))
    } else if d.created is None {
        Err(FieldError::Missing(FieldName::Created))
    } else if d.last_accessed is None {
        Err(FieldError::Missing(FieldName::LastAccessed))
    } else if d.extension is None {
        Err(FieldError::Missing(FieldName::Extension))
    } else if d.last_file_hash is None {
        Err(FieldError::Missing(FieldName::PreviousHash))
    } else if d.current_file_hash is None {
        Err(FieldError::Missing(FieldName::CurrentHash))
    } else {
        Ok(
            FileRecord {
                path: d.path->0,
                size: d.size->0,
                content: Seq::empty(),
                last_modified: d.last_modified->0,
                created: d.created->0,
                last_accessed: d.last_accessed->0,
                extension: d.extension->0,
                last_file_hash: d.last_file_hash->0,
                current_file_hash: d.current_file_hash->0,
            },
        )
    }
}

/// The record that a list of stored fields stands for, or why it stands for
/// none.
pub open spec fn decoded(fields: Seq<Field>) -> Result<FileRecord, FieldError> {
    match scan(fields) {
        Err(e) => Err(e),
        Ok(d) => finish(d),
    }
}

/// The stored fields of a record, in the order in which they are written.
/// The content is not among them.
pub open spec fn fields_of(r: FileRecord) -> Seq<Field> {
    seq![
        (label(FieldName::FilePath), FieldData::Text(r.path)),
        (label(FieldName::FileSizeBytes), FieldData::Number(r.size)),
        (label(FieldName::LastModified), FieldData::Number(r.last_modified)),
        (label(FieldName::Created), FieldData::Number(r.created)),
        (label(FieldName::LastAccessed), FieldData::Number(r.last_accessed)),
        (label(FieldName::Extension), FieldData::Text(r.extension)),
        (label(FieldName::PreviousHash), FieldData::Text(r.last_file_hash)),
        (label(FieldName::CurrentHash), FieldData::Text(r.current_file_hash)),
    ]
}

/// Each label names its own field: no two fields are written under the same
/// name.
pub proof fn lemma_labels(n: FieldName)
    ensures
        named(label(n)) == Some(n),
{
    reveal_strlit("file_path");
    reveal_strlit("file_size_bytes");
    reveal_strlit("last_modified_timestamp");
    reveal_strlit("created_timestamp");
    reveal_strlit("last_accessed_timestamp");
    reveal_strlit("file_extension");
    reveal_strlit("previous_file_hash");
    reveal_strlit("current_file_hash");
    assert("file_path"@.len() == 9);
    assert("file_size_bytes"@.len() == 15);
    assert("last_modified_timestamp"@.len() == 23);
    assert("created_timestamp"@.len() == 17);
    assert("last_accessed_timestamp"@.len() == 23);
    assert("file_extension"@.len() == 14);
    assert("previous_file_hash"@.len() == 18);
    assert("current_file_hash"@.len() == 17);
    assert("last_modified_timestamp"@[5] == 'm');
    assert("last_accessed_timestamp"@[5] == 'a');
    assert("created_timestamp"@[1] == 'r');
    assert("current_file_hash"@[1] == 'u');
}

/// Round trip of the stored form: the fields of a record stand for that
/// record, but for its content, which is not stored.
pub proof fn lemma_fields_round_trip(r: FileRecord)
    ensures
        decoded(fields_of(r)) == Ok::<FileRecord, FieldError>(
            FileRecord { content: Seq::empty(), ..r },
        ),
{
    let f = fields_of(r);
    lemma_labels(FieldName::FilePath);
    lemma_labels(FieldName::FileSizeBytes);
    lemma_labels(FieldName::LastModified);
    lemma_labels(FieldName::Created);
    lemma_labels(FieldName::LastAccessed);
    lemma_labels(FieldName::Extension);
    lemma_labels(FieldName::PreviousHash);
    lemma_labels(FieldName::CurrentHash);
    let f0 = f.take(0);
    let f1 = f.take(1);
    let f2 = f.take(2);
    let f3 = f.take(3);
    let f4 = f.take(4);
    let f5 = f.take(5);
    let f6 = f.take(6);
    let f7 = f.take(7);
    assert(f1.drop_last() == f0 && f1.last() == f[0]);
    assert(f2.drop_last() == f1 && f2.last() == f[1]);
    assert(f3.drop_last() == f2 && f3.last() == f[2]);
    assert(f4.drop_last() == f3 && f4.last() == f[3]);
    assert(f5.drop_last() == f4 && f5.last() == f[4]);
    assert(f6.drop_last() == f5 && f6.last() == f[5]);
    assert(f7.drop_last() == f6 && f7.last() == f[6]);
    assert(f.drop_last() == f7 && f.last() == f[7]);
    assert(scan(f0) == Ok::<Draft, FieldError>(blank()));
    assert(scan(f1) is Ok);
    assert(scan(f2) is Ok);
    assert(scan(f3) is Ok);
    assert(scan(f4) is Ok);
    assert(scan(f5) is Ok);
    assert(scan(f6) is Ok);
    assert(scan(f7) is Ok);
    assert(scan(f) is Ok);
}

/// The fields read so far, in memory.
struct Partial {
    path: Option<String>,
    size: Option<u64>,
    last_modified: Option<u64>,
    created: Option<u64>,
    last_accessed: Option<u64>,
    extension: Option<String>,
    last_file_hash: Option<String>,
    current_file_hash: Option<String>,
}

/// The text that an optional string holds.
pub open spec fn text_of(s: Option<String>) -> Option<Seq<char>> {
    match s {
        Some(t) => Some(t@),
        None => None,
    }
}

impl View for Partial {
    type V = Draft;

    closed spec fn view(&self) -> Draft {
        Draft {
            path: text_of(self.path),
            size: self.size,
            last_modified: self.last_modified,
            created: self.created,
            last_accessed: self.last_accessed,
            extension: text_of(self.extension),
            last_file_hash: text_of(self.last_file_hash),
            current_file_hash: text_of(self.current_file_hash),
        }
    }
}

/// Finds the field that `key` names.
pub fn name_of(key: &str) -> (r: Option<FieldName>)
    ensures
        r == named(key@),
{
    let k = chars_of(key);
    if chars_eq(&k, &chars_of("file_path")) {
        Some(FieldName::FilePath)
    } else if chars_eq(&k, &chars_of("file_size_bytes")) {
        Some(FieldName::FileSizeBytes)
    } else if chars_eq(&k, &chars_of("last_modified_timestamp")) {
        Some(FieldName::LastModified)
    } else if chars_eq(&k, &chars_of("created_timestamp")) {
        Some(FieldName::Created)
    } else if chars_eq(&k, &chars_of("last_accessed_timestamp")) {
        Some(FieldName::LastAccessed)
    } else if chars_eq(&k, &chars_of("file_extension")) {
        Some(FieldName::Extension)
    } else if chars_eq(&k, &chars_of("previous_file_hash")) {
        Some(FieldName::PreviousHash)
    } else if chars_eq(&k, &chars_of("current_file_hash")) {
        Some(FieldName::CurrentHash)
    } else {
        None
    }
}

/// The name under which the field `n` is written.
pub fn label_of(n: FieldName) -> (r: String)
    ensures
        r@ == label(n),
{
    match n {
        FieldName::FilePath => "file_path".to_owned(),
        FieldName::FileSizeBytes => "file_size_bytes".to_owned(),
        FieldName::LastModified => "last_modified_timestamp".to_owned(),
        FieldName::Created => "created_timestamp".to_owned(),
        FieldName::LastAccessed => "last_accessed_timestamp".to_owned(),
        FieldName::Extension => "file_extension".to_owned(),
        FieldName::PreviousHash => "previous_file_hash".to_owned(),
        FieldName::CurrentHash => "current_file_hash".to_owned(),
    }
}

/// Whether the field `n` has been read into `d`.
fn has_field(d: &Partial, n: FieldName) -> (r: bool)
    ensures
        r == is_set(d@, n),
{
    match n {
        FieldName::FilePath => d.path.is_some(),
        FieldName::FileSizeBytes => d.size.is_some(),
        FieldName::LastModified => d.last_modified.is_some(),
        FieldName::Created => d.created.is_some(),
        FieldName::LastAccessed => d.last_accessed.is_some(),
        FieldName::Extension => d.extension.is_some(),
        FieldName::PreviousHash => d.last_file_hash.is_some(),
        FieldName::CurrentHash => d.current_file_hash.is_some(),
    }
}

/// Reads the value of the field `n` into `d`.
fn set_field(d: Partial, n: FieldName, value: &FieldValue) -> (r: Option<Partial>)
    ensures
        match r {
            Some(next) => with_field(d@, n, value@) == Some(next@),
            None => with_field(d@, n, value@) is None,
        },
{
    let mut d = d;
    match (n, value) {
        (FieldName::FilePath, FieldValue::Text(t)) => {
            d.path = Some(t.clone());
            Some(d)
        },
        (FieldName::FileSizeBytes, FieldValue::Number(x)) => {
            d.size = Some(*x);
            Some(d)
        },
        (FieldName::LastModified, FieldValue::Number(x)) => {
            d.last_modified = Some(*x);
            Some(d)
        },
        (FieldName::Created, FieldValue::Number(x)) => {
            d.created = Some(*x);
            Some(d)
        },
        (FieldName::LastAccessed, FieldValue::Number(x)) => {
            d.last_accessed = Some(*x);
            Some(d)
        },
        (FieldName::Extension, FieldValue::Text(t)) => {
            d.extension = Some(t.clone());
            Some(d)
        },
        (FieldName::PreviousHash, FieldValue::Text(t)) => {
            d.last_file_hash = Some(t.clone());
            Some(d)
        },
        (FieldName::CurrentHash, FieldValue::Text(t)) => {
            d.current_file_hash = Some(t.clone());
            Some(d)
        },
        _ => None,
    }
}

/// Makes the record of a draft, or names the first field that is missing.
fn complete(d: Partial) -> (r: Result<FileTracker, FieldError>)
    ensures
        match r {
            Ok(t) => finish(d@) == Ok::<FileRecord, FieldError>(t@),
            Err(e) => finish(d@) == Err::<FileRecord, FieldError>(e),
        },
{
    let path = match d.path {
        Some(v) => v,
        None => {
            return Err(FieldError::Missing(FieldName::FilePath));
        },
    };
    let size = match d.size {
        Some(v) => v,
        None => {
            return Err(FieldError::Missing(FieldName::FileSizeBytes));
        },
    };
    let last_modified = match d.last_modified {
        Some(v) => v,
        None => {
            return Err(FieldError::Missing(FieldName::LastModified));
        },
    };
    let created = match d.created {
        Some(v) => v,
        None => {
            return Err(FieldError::Missing(FieldName::Created));
        },
    };
    let last_accessed = match d.last_accessed {
        Some(v) => v,
        None => {
            return Err(FieldError::Missing(FieldName::LastAccessed));
        },
    };
    let extension = match d.extension {
        Some(v) => v,
        None => {
            return Err(FieldError::Missing(FieldName::Extension));
        },
    };
    let last_file_hash = match d.last_file_hash {
        Some(v) => v,
        None => {
            return Err(FieldError::Missing(FieldName::PreviousHash));
        },
    };
    let current_file_hash = match d.current_file_hash {
        Some(v) => v,
        None => {
            return Err(FieldError::Missing(FieldName::CurrentHash));
        },
    };
    Ok(
        FileTracker::from_stored(
            path,
            size,
            last_modified,
            created,
            last_accessed,
            extension,
            last_file_hash,
            current_file_hash,
        ),
    )
}

impl FileTracker {
    /// The stored fields of this record, in the order in which they are
    /// written. The content is not among them.
    pub fn to_fields(&self) -> (r: Vec<(String, FieldValue)>)
        ensures
            field_views(r@) == fields_of(self@),
    {
        let mut r: Vec<(String, FieldValue)> = Vec::new();
        r.push((label_of(FieldName::FilePath), FieldValue::Text(self.get_path().to_owned())));
        r.push((label_of(FieldName::FileSizeBytes), FieldValue::Number(self.get_size())));
        r.push((label_of(FieldName::LastModified), FieldValue::Number(self.get_last_modified())));
        r.push((label_of(FieldName::Created), FieldValue::Number(self.get_created())));
        r.push((label_of(FieldName::LastAccessed), FieldValue::Number(self.get_last_accessed())));
        r.push((label_of(FieldName::Extension), FieldValue::Text(self.get_extension().to_owned())));
        r.push(
            (
                label_of(FieldName::PreviousHash),
                FieldValue::Text(self.get_last_file_hash().to_owned()),
            ),
        );
        r.push(
            (
                label_of(FieldName::CurrentHash),
                FieldValue::Text(self.get_current_file_hash().to_owned()),
            ),
        );
        assert(field_views(r@) =~= fields_of(self@));
        r
    }

    /// Makes a record from its stored fields, read in the order given.
    ///
    /// A field of an unknown name is passed over. It is an error if a known
    /// field occurs twice, holds a value of the wrong kind, or does not
    /// occur; the first error met is returned, a missing field only after
    /// all fields were read.
    pub fn from_fields(fields: &Vec<(String, FieldValue)>) -> (r: Result<FileTracker, FieldError>)
        ensures
            match r {
                Ok(t) => decoded(field_views(fields@)) == Ok::<FileRecord, FieldError>(t@),
                Err(e) => decoded(field_views(fields@)) == Err::<FileRecord, FieldError>(e),
            },
    {
        let ghost all = field_views(fields@);
        let mut d = Partial {
            path: None,
            size: None,
            last_modified: None,
            created: None,
            last_accessed: None,
            extension: None,
            last_file_hash: None,
            current_file_hash: None,
        };
        let mut k: usize = 0;
        proof {
            assert(all.take(0) == Seq::<Field>::empty());
        }
        while k < fields.len()
            invariant
                k <= fields.len(),
                all == field_views(fields@),
                scan(all.take(k as int)) == Ok::<Draft, FieldError>(d@),
            decreases fields.len() - k,
        {
            proof {
                assert(all.take(k + 1).drop_last() == all.take(k as int));
                assert(all.take(k + 1).last() == all[k as int]);
                assert(all[k as int] == (fields@[k as int].0@, fields@[k as int].1@));
            }
            match name_of(fields[k].0.as_str()) {
                None => {},
                Some(n) => {
                    if has_field(&d, n) {
                        proof {
                            lemma_scan_error(all, k + 1);
                        }
                        return Err(FieldError::Duplicate(n));
                    }
                    match set_field(d, n, &fields[k].1) {
                        Some(next) => {
                            d = next;
                        },
                        None => {
                            proof {
                                lemma_scan_error(all, k + 1);
                            }
                            return Err(FieldError::WrongType(n));
                        },
                    }
                },
            }
            k += 1;
        }
        assert(all.take(fields.len() as int) == all);
        complete(d)
    }
}

/// An error met while reading the first `k` fields is the error of reading
/// them all.
proof fn lemma_scan_error(fields: Seq<Field>, k: int)
    requires
        0 <= k <= fields.len(),
        scan(fields.take(k)) is Err,
    ensures
        scan(fields) == scan(fields.take(k)),
    decreases fields.len(),
{
    if k < fields.len() {
        assert(fields.drop_last().take(k) == fields.take(k));
        lemma_scan_error(fields.drop_last(), k);
    } else {
        assert(fields.take(k) == fields);
    }
}

} // verus!
