//! The record of one tracked file: where it is, how large, when it was
//! touched, and the hash of its content.

use vstd::prelude::*;
use crate::hash::content_hash;
use crate::hash::sha256_of;
use crate::hash::to_hex_lower;
use crate::paths::components;
use crate::paths::components_of;
use crate::paths::strip_prefix;
use crate::paths::strip_prefix_of;
use crate::text::chars_of;
use crate::text::rows;
use crate::text::string_of;

verus! {

/// What a `FileTracker` holds, as the contracts see it.
pub struct FileRecord {
    pub path: Seq<char>,
    pub size: u64,
    pub content: Seq<u8>,
    pub last_modified: u64,
    pub created: u64,
    pub last_accessed: u64,
    pub extension: Seq<char>,
    pub last_file_hash: Seq<char>,
    pub current_file_hash: Seq<char>,
}

/// The identity of one file: its path, size, timestamps in seconds since the
/// epoch, extension, and the hashes of its content now and at the previous
/// update.
#[derive(Debug)]
pub struct FileTracker {
    path: String,
    size: u64,
    content: Vec<u8>,
    last_modified: u64,
    created: u64,
    last_accessed: u64,
    extension: String,
    last_file_hash: String,
    current_file_hash: String,
}

/// The index of the last occurrence of `c` in `s`, or -1.
pub open spec fn last_index_of(s: Seq<char>, c: char) -> int
    decreases s.len(),
{
    if s.len() == 0 {
        -1
    } else if s.last() == c {
        s.len() - 1
    } else {
        last_index_of(s.drop_last(), c)
    }
}

/// The file name of `p`: its last component, unless that is the root, `.` or
/// `..`.
pub open spec fn file_name(p: Seq<char>) -> Option<Seq<char>> {
    let c = components(p);
    if c.len() == 0 {
        None
    } else if c.last() == seq!['/'] || c.last() == seq!['.'] || c.last() == seq!['.', '.'] {
        None
    } else {
        Some(c.last())
    }
}

/// The extension of `p`: what follows the last dot of its file name. It is
/// empty where there is no file name, no dot, or no dot but a leading one.
pub open spec fn extension_of(p: Seq<char>) -> Seq<char> {
    match file_name(p) {
        None => Seq::empty(),
        Some(name) => {
            let d = last_index_of(name, '.');
            if d <= 0 {
                Seq::empty()
            } else {
                name.subrange(d + 1, name.len() as int)
            }
        },
    }
}

/// Computes the extension of the path `p`.
pub fn extension_chars(p: &Vec<char>) -> (r: Vec<char>)
    ensures
        r@ == extension_of(p@),
{
    let parts = components_of(p);
    assert(rows(parts@).len() == parts@.len());
    if parts.len() == 0 {
        return Vec::new();
    }
    let name = &parts[parts.len() - 1];
    assert(name@ == components(p@).last());
    let n = name.len();
    proof {
        if name@ == seq!['/'] || name@ == seq!['.'] {
            assert(name@.len() == 1);
        }
        if name@ == seq!['.', '.'] {
            assert(name@.len() == 2);
        }
    }
    if n == 1 && (name[0] == '/' || name[0] == '.') {
        assert(name@ =~= seq![name@[0]]);
        return Vec::new();
    }
    if n == 2 && name[0] == '.' && name[1] == '.' {
        assert(name@ =~= seq!['.', '.']);
        return Vec::new();
    }
    proof {
        assert(seq!['/'][0] == '/');
        assert(seq!['.'][0] == '.');
        assert(seq!['.', '.'][0] == '.');
        assert(seq!['.', '.'][1] == '.');
        assert(file_name(p@) == Some(name@));
    }
    let mut j: usize = n;
    assert(name@.take(n as int) == name@);
    while j > 0 && name[j - 1] != '.'
        invariant
            j <= n,
            n == name.len(),
            last_index_of(name@, '.') == last_index_of(name@.take(j as int), '.'),
        decreases j,
    {
        proof {
            assert(name@.take(j as int).drop_last() == name@.take(j - 1));
            if j == n {
                assert(name@.take(j as int) == name@);
            }
        }
        j -= 1;
    }
    proof {
        assert(name@.take(n as int) == name@);
        if j > 0 {
            assert(name@.take(j as int).last() == '.');
        }
        assert(last_index_of(name@, '.') == j - 1);
    }
    if j <= 1 {
        return Vec::new();
    }
    let mut r: Vec<char> = Vec::new();
    let mut k: usize = j;
    while k < n
        invariant
            j <= k <= n,
            n == name.len(),
            r@ == name@.subrange(j as int, k as int),
        decreases n - k,
    {
        r.push(name[k]);
        k += 1;
    }
    r
}

impl View for FileTracker {
    type V = FileRecord;

    closed spec fn view(&self) -> FileRecord {
        FileRecord {
            path: self.path@,
            size: self.size,
            content: self.content@,
            last_modified: self.last_modified,
            created: self.created,
            last_accessed: self.last_accessed,
            extension: self.extension@,
            last_file_hash: self.last_file_hash@,
            current_file_hash: self.current_file_hash@,
        }
    }
}

impl Clone for FileTracker {
    fn clone(&self) -> (r: Self)
        ensures
            r@ == self@,
    {
        FileTracker {
            path: self.path.clone(),
            size: self.size,
            content: self.content.clone(),
            last_modified: self.last_modified,
            created: self.created,
            last_accessed: self.last_accessed,
            extension: self.extension.clone(),
            last_file_hash: self.last_file_hash.clone(),
            current_file_hash: self.current_file_hash.clone(),
        }
    }
}

impl FileTracker {
    /// Makes the record of the file at `file_path` from its metadata and its
    /// bytes. The extension is taken from the path, the current hash is
    /// computed from `content`, and the previous hash starts out equal to it.
    pub fn new(
        file_path: &str,
        size: u64,
        content: Vec<u8>,
        last_modified: u64,
        created: u64,
        last_accessed: u64,
    ) -> (r: Self)
        ensures
            r@ == (FileRecord {
                path: file_path@,
                size,
                content: content@,
                last_modified,
                created,
                last_accessed,
                extension: extension_of(file_path@),
                last_file_hash: content_hash(content@),
                current_file_hash: content_hash(content@),
            }),
    {
        let path_chars = chars_of(file_path);
        let extension = string_of(&extension_chars(&path_chars));
        let current_file_hash = Self::calculate_hash(content.as_slice());
        let last_file_hash = current_file_hash.clone();
        FileTracker {
            path: file_path.to_owned(),
            size,
            content,
            last_modified,
            created,
            last_accessed,
            extension,
            last_file_hash,
            current_file_hash,
        }
    }

    /// Makes a record from the parts that are stored of it. The content is
    /// not stored and is left empty.
    pub(crate) fn from_stored(
        path: String,
        size: u64,
        last_modified: u64,
        created: u64,
        last_accessed: u64,
        extension: String,
        last_file_hash: String,
        current_file_hash: String,
    ) -> (r: Self)
        ensures
            r@ == (FileRecord {
                path: path@,
                size,
                content: Seq::empty(),
                last_modified,
                created,
                last_accessed,
                extension: extension@,
                last_file_hash: last_file_hash@,
                current_file_hash: current_file_hash@,
            }),
    {
        FileTracker {
            path,
            size,
            content: Vec::new(),
            last_modified,
            created,
            last_accessed,
            extension,
            last_file_hash,
            current_file_hash,
        }
    }

    /// The content hash of `content` as a string.
    pub fn calculate_hash(content: &[u8]) -> (r: String)
        ensures
            r@ == content_hash(content@),
    {
        let digest = sha256_of(content);
        string_of(&to_hex_lower(digest.as_slice()))
    }

    /// Moves the current hash to the previous one and computes the current
    /// hash anew from the content held in memory. Nothing else changes.
    pub fn update_hash(&mut self)
        ensures
            final(self)@ == (FileRecord {
                last_file_hash: old(self)@.current_file_hash,
                current_file_hash: content_hash(old(self)@.content),
                ..old(self)@
            }),
    {
        let fresh = Self::calculate_hash(self.content.as_slice());
        self.last_file_hash = self.current_file_hash.clone();
        self.current_file_hash = fresh;
    }

    /// Whether this record and `other` have the same current hash.
    pub fn has_hash_of(&self, other: &FileTracker) -> (r: bool)
        ensures
            r == (self@.current_file_hash == other@.current_file_hash),
    {
        self.current_file_hash == other.current_file_hash
    }

    /// The path of the file as it was given.
    pub fn get_path(&self) -> (r: &str)
        ensures
            r@ == self@.path,
    {
        self.path.as_str()
    }

    /// The path of this file relative to `base_path`, or `None` if the file
    /// does not lie under it.
    pub fn get_relative_path(&self, base_path: &str) -> (r: Option<String>)
        ensures
            match r {
                Some(s) => strip_prefix(self@.path, base_path@) == Some(s@),
                None => strip_prefix(self@.path, base_path@) is None,
            },
    {
        let child = chars_of(self.path.as_str());
        let base = chars_of(base_path);
        match strip_prefix_of(&child, &base) {
            Some(v) => Some(string_of(&v)),
            None => None,
        }
    }

    /// The size of the file in bytes.
    pub fn get_size(&self) -> (r: u64)
        ensures
            r == self@.size,
    {
        self.size
    }

    /// The bytes of the file as they were read.
    pub fn get_content(&self) -> (r: &[u8])
        ensures
            r@ == self@.content,
    {
        self.content.as_slice()
    }

    /// When the file was last changed, in seconds since the epoch.
    pub fn get_last_modified(&self) -> (r: u64)
        ensures
            r == self@.last_modified,
    {
        self.last_modified
    }

    /// When the file was created, in seconds since the epoch.
    pub fn get_created(&self) -> (r: u64)
        ensures
            r == self@.created,
    {
        self.created
    }

    /// When the file was last read, in seconds since the epoch.
    pub fn get_last_accessed(&self) -> (r: u64)
        ensures
            r == self@.last_accessed,
    {
        self.last_accessed
    }

    /// The extension of the file name, without the dot.
    pub fn get_extension(&self) -> (r: &str)
        ensures
            r@ == self@.extension,
    {
        self.extension.as_str()
    }

    /// The content hash before the last update.
    pub fn get_last_file_hash(&self) -> (r: &str)
        ensures
            r@ == self@.last_file_hash,
    {
        self.last_file_hash.as_str()
    }

    /// The content hash as of the last update.
    pub fn get_current_file_hash(&self) -> (r: &str)
        ensures
            r@ == self@.current_file_hash,
    {
        self.current_file_hash.as_str()
    }
}

} // verus!
