//! The decisions of one run of the synchroniser by content hash: whether the
//! two roots can be synchronised at all, and what is done with each file
//! that differs.

use vstd::prelude::*;
use crate::dir_tracker::diff_entries;
use crate::dir_tracker::entry_views;
use crate::dir_tracker::ignored;
use crate::dir_tracker::lookup;
use crate::dir_tracker::DirTracker;
use crate::dir_tracker::Entry;
use crate::paths::join_chars;
use crate::paths::joined;
use crate::text::chars_of;
use crate::text::string_of;

verus! {

/// Why a run cannot go on.
#[derive(Debug, Clone, Copy, PartialEq, Eq, Structural)]
pub enum SyncError {
    /// The source directory does not exist.
    SourceMissing,
    /// The destination directory does not exist.
    DestinationMissing,
    /// Source and destination are the same path.
    SamePath,
    /// The destination has not been adopted and adoption was not asked for.
    NotInitialized,
}

/// What a file of the diff is to the destination.
#[derive(Debug, Clone, Copy, PartialEq, Eq, Structural)]
pub enum Status {
    /// The destination has no file at this path.
    New,
    /// The destination has a file at this path with other content.
    Modified,
}

/// What is done with a file of the diff.
#[derive(Debug, Clone, Copy, PartialEq, Eq, Structural)]
pub enum Action {
    /// The file is copied to the destination.
    Copy,
    /// The file matches an ignore pattern and stays as it is.
    Ignore,
}

/// One file of the diff with what was decided for it.
#[derive(Debug)]
pub struct PlannedFile {
    /// The path of the file relative to the source root.
    pub relative_path: String,
    /// Where the file is read from.
    pub source: String,
    /// Where the file is written to, if it is copied.
    pub destination: String,
    pub status: Status,
    pub action: Action,
}

/// What a `PlannedFile` holds, as the contracts see it.
pub struct Decision {
    pub relative_path: Seq<char>,
    pub source: Seq<char>,
    pub destination: Seq<char>,
    pub status: Status,
    pub action: Action,
}

impl View for PlannedFile {
    type V = Decision;

    open spec fn view(&self) -> Decision {
        Decision {
            relative_path: self.relative_path@,
            source: self.source@,
            destination: self.destination@,
            status: self.status,
            action: self.action,
        }
    }
}

/// What a list of planned files holds.
pub open spec fn decisions(v: Seq<PlannedFile>) -> Seq<Decision> {
    Seq::new(v.len(), |k: int| v[k]@)
}

/// The roots in the order in which they are used: as given, or exchanged if
/// the run goes in reverse.
pub open spec fn ordered(src: Seq<char>, dest: Seq<char>, reverse: bool) -> (Seq<char>, Seq<char>) {
    if reverse {
        (dest, src)
    } else {
        (src, dest)
    }
}

/// What the checks of the two roots give. A missing source is reported
/// before a missing destination, and that before equal paths.
pub open spec fn roots_outcome(src_exists: bool, dest_exists: bool, same: bool) -> Result<
    (),
    SyncError,
> {
    if !src_exists {
        Err(SyncError::SourceMissing)
    } else if !dest_exists {
        Err(SyncError::DestinationMissing)
    } else if same {
        Err(SyncError::SamePath)
    } else {
        Ok(())
    }
}

/// What is decided for the entry `e` of the diff between the source and the
/// destination.
pub open spec fn decision(
    e: Entry,
    dest_root: Seq<char>,
    dest_entries: Seq<Entry>,
    ignore: Seq<Seq<char>>,
) -> Decision {
    Decision {
        relative_path: e.0,
        source: e.1.path,
        destination: joined(dest_root, e.0),
        status: if lookup(dest_entries, e.0) is Some {
            Status::Modified
        } else {
            Status::New
        },
        action: if ignored(ignore, e.0) {
            Action::Ignore
        } else {
            Action::Copy
        },
    }
}

/// What is decided for each entry of `changed`, in order.
pub open spec fn plan(
    changed: Seq<Entry>,
    dest_root: Seq<char>,
    dest_entries: Seq<Entry>,
    ignore: Seq<Seq<char>>,
) -> Seq<Decision> {
    Seq::new(changed.len(), |k: int| decision(changed[k], dest_root, dest_entries, ignore))
}

/// How many of `plan` have the action `action`.
pub open spec fn count(plan: Seq<Decision>, action: Action) -> nat
    decreases plan.len(),
{
    if plan.len() == 0 {
        0
    } else {
        count(plan.drop_last(), action) + if plan.last().action == action {
            1nat
        } else {
            0nat
        }
    }
}

/// Every planned file is either copied or ignored.
pub proof fn lemma_counts(plan: Seq<Decision>)
    ensures
        count(plan, Action::Copy) + count(plan, Action::Ignore) == plan.len(),
    decreases plan.len(),
{
    if plan.len() > 0 {
        lemma_counts(plan.drop_last());
    }
}

/// The message that reports `error`.
pub fn error_message(error: SyncError) -> (r: String)
    ensures
        r@ == match error {
            SyncError::SourceMissing => "Source directory does not exist"@,
            SyncError::DestinationMissing => "Destination directory does not exist"@,
            SyncError::SamePath => "Source and destination directories are same"@,
            SyncError::NotInitialized => "Dest directory is not initialized pass -i to initailise it."@,
        },
{
    match error {
        SyncError::SourceMissing => "Source directory does not exist".to_owned(),
        SyncError::DestinationMissing => "Destination directory does not exist".to_owned(),
        SyncError::SamePath => "Source and destination directories are same".to_owned(),
        SyncError::NotInitialized => "Dest directory is not initialized pass -i to initailise it.".to_owned(),
    }
}

/// Puts the two roots in the order in which they are used.
pub fn order_roots(src: String, dest: String, reverse: bool) -> (r: (String, String))
    ensures
        (r.0@, r.1@) == ordered(src@, dest@, reverse),
{
    if reverse {
        (dest, src)
    } else {
        (src, dest)
    }
}

/// Checks that both roots exist and differ.
pub fn check_roots(src_exists: bool, dest_exists: bool, same: bool) -> (r: Result<(), SyncError>)
    ensures
        r == roots_outcome(src_exists, dest_exists, same),
{
    if !src_exists {
        Err(SyncError::SourceMissing)
    } else if !dest_exists {
        Err(SyncError::DestinationMissing)
    } else if same {
        Err(SyncError::SamePath)
    } else {
        Ok(())
    }
}

/// Whether the destination has to be adopted before the run: it is not
/// adopted yet and adoption was asked for. Without the request the run
/// stops.
pub fn check_adoption(initialized: bool, init_requested: bool) -> (r: Result<bool, SyncError>)
    ensures
        r == if initialized {
            Ok::<bool, SyncError>(false)
        } else if init_requested {
            Ok::<bool, SyncError>(true)
        } else {
            Err::<bool, SyncError>(SyncError::NotInitialized)
        },
{
    if initialized {
        Ok(false)
    } else if init_requested {
        Ok(true)
    } else {
        Err(SyncError::NotInitialized)
    }
}

/// Decides what is done with each file of `src` that is new or changed with
/// respect to `dest`: it is copied to the place under the root of `dest`
/// that it has under the root of `src`, unless its relative path matches an
/// ignore pattern of `dest`. The files come in the order of the diff.
pub fn plan_sync(src: &DirTracker, dest: &DirTracker) -> (r: Vec<PlannedFile>)
    ensures
        decisions(r@) == plan(
            diff_entries(src@.entries, dest@.entries),
            dest@.path,
            dest@.entries,
            dest@.ignore,
        ),
{
    let files = src.get_file_hashmap();
    let dest_root = chars_of(dest.get_path());
    let ghost a = src@.entries;
    let ghost b = dest@.entries;
    let mut r: Vec<PlannedFile> = Vec::new();
    let mut k: usize = 0;
    proof {
        assert(a.take(0) == Seq::<Entry>::empty());
        assert(decisions(r@) == plan(diff_entries(a.take(0), b), dest@.path, b, dest@.ignore));
    }
    while k < files.len()
        invariant
            k <= files.len(),
            a == src@.entries,
            b == dest@.entries,
            entry_views(files@) == a,
            dest_root@ == dest@.path,
            decisions(r@) == plan(diff_entries(a.take(k as int), b), dest@.path, b, dest@.ignore),
        decreases files.len() - k,
    {
        let key = files[k].0.as_str();
        let file = &files[k].1;
        proof {
            assert(a.take(k + 1).drop_last() == a.take(k as int));
            assert(a.take(k + 1).last() == a[k as int]);
            assert(a[k as int] == (key@, file@));
        }
        let counterpart = dest.get_file(key);
        let changed = match counterpart {
            Some(other) => !file.has_hash_of(other),
            None => true,
        };
        if changed {
            let status = if counterpart.is_some() {
                Status::Modified
            } else {
                Status::New
            };
            let action = if dest.is_ignored(key) {
                Action::Ignore
            } else {
                Action::Copy
            };
            let item = PlannedFile {
                relative_path: key.to_owned(),
                source: file.get_path().to_owned(),
                destination: string_of(&join_chars(&dest_root, &chars_of(key))),
                status,
                action,
            };
            let ghost before = decisions(r@);
            let ghost earlier = diff_entries(a.take(k as int), b);
            r.push(item);
            proof {
                assert(item@ == decision(a[k as int], dest@.path, b, dest@.ignore));
                assert(decisions(r@) == before.push(item@));
                assert(plan(earlier.push(a[k as int]), dest@.path, b, dest@.ignore) == plan(
                    earlier,
                    dest@.path,
                    b,
                    dest@.ignore,
                ).push(item@));
            }
        }
        k += 1;
    }
    assert(a.take(files.len() as int) == a);
    r
}

/// Counts the files of `planned` that have the action `action`.
pub fn count_action(planned: &Vec<PlannedFile>, action: Action) -> (r: usize)
    ensures
        r == count(decisions(planned@), action),
{
    let ghost all = decisions(planned@);
    let mut r: usize = 0;
    let mut k: usize = 0;
    proof {
        assert(all.take(0) == Seq::<Decision>::empty());
    }
    while k < planned.len()
        invariant
            k <= planned.len(),
            all == decisions(planned@),
            r == count(all.take(k as int), action),
            r <= k,
        decreases planned.len() - k,
    {
        proof {
            assert(all.take(k + 1).drop_last() == all.take(k as int));
            assert(all.take(k + 1).last() == planned@[k as int]@);
        }
        if planned[k].action == action {
            r += 1;
        }
        k += 1;
    }
    assert(all.take(planned.len() as int) == all);
    r
}

} // verus!
