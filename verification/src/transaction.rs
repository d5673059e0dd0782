//! One synchronisation from a base tree to a target tree: the cached
//! journals of both, the rule that decides which paths are copied, and the
//! plan of copies.

use vstd::prelude::*;
use crate::journal::get_save_data_path_transaction_data;
use crate::journal::journal_of;
use crate::journal::journal_text;
use crate::journal::journal_views;
use crate::journal::save_lock_data;
use crate::journal::walk_views;
use crate::journal::JournalRecord;
use crate::journal::PathTransactionData;
use crate::journal::WalkEntry;
use crate::mapper::groups_view;
use crate::mapper::map_path_to_target;
use crate::mapper::mapping;
use crate::mapper::relative_or_self;
use crate::mapper::GroupView;
use crate::paths::join_chars;
use crate::paths::joined;
use crate::paths::relative_chars;
use crate::text::chars_of;
use crate::text::string_of;
use crate::text::texts;

verus! {

/// For how many seconds after its last refresh a cached journal counts as
/// fresh.
pub const FRESH_SECONDS: i64 = 5;

/// Whether a cache that was refreshed at `last` is stale at `now`: more than
/// `FRESH_SECONDS` seconds have passed.
pub open spec fn is_stale(last: i64, now: i64) -> bool {
    now - last > FRESH_SECONDS
}

/// The index of the first record of `path`, or -1.
pub open spec fn index_of_path(records: Seq<JournalRecord>, path: Seq<char>) -> int
    decreases records.len(),
{
    if records.len() == 0 {
        -1
    } else {
        let p = index_of_path(records.drop_last(), path);
        if p >= 0 {
            p
        } else if records.last().path == path {
            records.len() - 1
        } else {
            -1
        }
    }
}

/// The first record of `path`, if any.
pub open spec fn find(records: Seq<JournalRecord>, path: Seq<char>) -> Option<JournalRecord> {
    let k = index_of_path(records, path);
    if 0 <= k < records.len() {
        Some(records[k])
    } else {
        None
    }
}

/// `records` with `r` in place of the first record of the same path, or at
/// the end if there is none.
pub open spec fn put(records: Seq<JournalRecord>, r: JournalRecord) -> Seq<JournalRecord> {
    let k = index_of_path(records, r.path);
    if 0 <= k < records.len() {
        records.update(k, r)
    } else {
        records.push(r)
    }
}

/// The records of `data` as a map from path to record: one record for each
/// path, the last that `data` holds for it, in the order in which the paths
/// first occur.
pub open spec fn by_path(data: Seq<JournalRecord>) -> Seq<JournalRecord>
    decreases data.len(),
{
    if data.len() == 0 {
        Seq::empty()
    } else {
        put(by_path(data.drop_last()), data.last())
    }
}

/// No two records have the same path.
pub open spec fn distinct_paths(records: Seq<JournalRecord>) -> bool {
    forall|i: int, j: int| 0 <= i < j < records.len() ==> records[i].path != records[j].path
}

/// The last record of `path` in `data`, if any.
pub open spec fn last_record(data: Seq<JournalRecord>, path: Seq<char>) -> Option<JournalRecord>
    decreases data.len(),
{
    if data.len() == 0 {
        None
    } else if data.last().path == path {
        Some(data.last())
    } else {
        last_record(data.drop_last(), path)
    }
}

/// Whether the target's record `t` is older than the base's record `b`: by
/// the time of the last change, then by the time of the last access, then by
/// the time of creation.
pub open spec fn is_older(t: JournalRecord, b: JournalRecord) -> bool {
    t.last_modified < b.last_modified || (t.last_modified == b.last_modified && t.last_accessed
        < b.last_accessed) || (t.last_modified == b.last_modified && t.last_accessed
        == b.last_accessed && t.created < b.created)
}

/// Whether the path of the base's record `b` is copied, given the target's
/// record of the same path: always if the target has none, never if the
/// target's is a directory, and otherwise if the target's is older.
pub open spec fn needs_copy(b: JournalRecord, t: Option<JournalRecord>) -> bool {
    match t {
        None => true,
        Some(t) => !t.is_dir && is_older(t, b),
    }
}

/// The records of `base` whose paths are copied, in order.
pub open spec fn selected(base: Seq<JournalRecord>, target: Seq<JournalRecord>) -> Seq<
    JournalRecord,
>
    decreases base.len(),
{
    if base.len() == 0 {
        Seq::empty()
    } else if needs_copy(base.last(), find(target, base.last().path)) {
        selected(base.drop_last(), target).push(base.last())
    } else {
        selected(base.drop_last(), target)
    }
}

/// The path under which the file at `rel` below `base_root` is handed to the
/// copy: relative to the directory the caller works in where it lies under
/// it, else in full.
pub open spec fn copy_path(base_root: Seq<char>, calling: Seq<char>, rel: Seq<char>) -> Seq<char> {
    relative_or_self(calling, joined(base_root, rel))
}

/// The paths to copy for the records `chosen`.
pub open spec fn copy_paths(
    base_root: Seq<char>,
    calling: Seq<char>,
    chosen: Seq<JournalRecord>,
) -> Seq<Seq<char>> {
    Seq::new(chosen.len(), |k: int| copy_path(base_root, calling, chosen[k].path))
}

/// The files to copy from the tree at `base_root`, given the journals of
/// base and target.
pub open spec fn files_to_copy(
    base_root: Seq<char>,
    calling: Seq<char>,
    base: Seq<JournalRecord>,
    target: Seq<JournalRecord>,
) -> Seq<Seq<char>> {
    copy_paths(base_root, calling, selected(by_path(base), by_path(target)))
}

/// The plan of a synchronisation: the files to copy, grouped by the
/// directory under the target root that each goes to.
pub open spec fn sync_plan(
    base_root: Seq<char>,
    target_root: Seq<char>,
    calling: Seq<char>,
    base: Seq<JournalRecord>,
    target: Seq<JournalRecord>,
) -> Seq<GroupView> {
    mapping(files_to_copy(base_root, calling, base, target), target_root, base_root)
}

/// `index_of_path` finds a record of `path` if there is one, and the first.
pub proof fn lemma_index_of_path(records: Seq<JournalRecord>, path: Seq<char>)
    ensures
        -1 <= index_of_path(records, path) < records.len(),
        index_of_path(records, path) >= 0 ==> records[index_of_path(records, path)].path == path,
        forall|j: int|
            0 <= j < records.len() && (index_of_path(records, path) < 0 || j < index_of_path(
                records,
                path,
            )) ==> (#[trigger] records[j]).path != path,
    decreases records.len(),
{
    if records.len() > 0 {
        lemma_index_of_path(records.drop_last(), path);
        let p = index_of_path(records.drop_last(), path);
        assert forall|j: int|
            0 <= j < records.len() && (index_of_path(records, path) < 0 || j < index_of_path(
                records,
                path,
            )) implies (#[trigger] records[j]).path != path by {
            if j < records.len() - 1 {
                assert(records[j] == records.drop_last()[j]);
            }
        }
        if p >= 0 {
            assert(records[p] == records.drop_last()[p]);
        }
    }
}

/// Putting a record keeps the paths distinct, makes it the record of its
/// path, and leaves the records of other paths as they were.
pub proof fn lemma_put(records: Seq<JournalRecord>, r: JournalRecord, path: Seq<char>)
    requires
        distinct_paths(records),
    ensures
        distinct_paths(put(records, r)),
        find(put(records, r), r.path) == Some(r),
        path != r.path ==> find(put(records, r), path) == find(records, path),
{
    let after = put(records, r);
    let k = index_of_path(records, r.path);
    lemma_index_of_path(records, r.path);
    lemma_index_of_path(after, r.path);
    lemma_index_of_path(records, path);
    lemma_index_of_path(after, path);
    if k >= 0 {
        assert(after[k] == r);
        assert forall|j: int| 0 <= j < after.len() && j != k implies after[j] == records[j] by {}
    } else {
        assert(after[records.len() as int] == r);
        assert forall|j: int| 0 <= j < records.len() implies after[j] == records[j] by {}
    }
    let m = index_of_path(after, r.path);
    if k >= 0 {
        if m < 0 || m > k {
            assert(after[k].path == r.path);
        }
        if 0 <= m < k {
            assert(after[m] == records[m]);
        }
    } else {
        if m < 0 {
            assert(after[records.len() as int].path == r.path);
        }
        if 0 <= m < records.len() {
            assert(after[m] == records[m]);
        }
    }
    if path != r.path {
        let a = index_of_path(records, path);
        let b = index_of_path(after, path);
        if a >= 0 {
            assert(after[a] == records[a]);
            if b < 0 || b > a {
                assert(after[a].path == path);
            }
            if 0 <= b < a {
                assert(after[b] == records[b] || after[b] == r);
            }
        } else {
            if b >= 0 {
                assert(after[b] == r || after[b] == records[b]);
            }
        }
    }
}

/// In the map of `data` no path occurs twice, and the record of a path is
/// the last that `data` holds for it: the last write wins.
pub proof fn lemma_by_path(data: Seq<JournalRecord>, path: Seq<char>)
    ensures
        distinct_paths(by_path(data)),
        find(by_path(data), path) == last_record(data, path),
    decreases data.len(),
{
    if data.len() > 0 {
        lemma_by_path(data.drop_last(), path);
        lemma_put(by_path(data.drop_last()), data.last(), path);
    } else {
        lemma_index_of_path(by_path(data), path);
    }
}

/// Every selected record is a record of the base whose path is copied.
pub proof fn lemma_selected(base: Seq<JournalRecord>, target: Seq<JournalRecord>)
    ensures
        forall|j: int|
            0 <= j < selected(base, target).len() ==> base.contains(
                #[trigger] selected(base, target)[j],
            ) && needs_copy(selected(base, target)[j], find(target, selected(base, target)[j].path)),
    decreases base.len(),
{
    if base.len() > 0 {
        lemma_selected(base.drop_last(), target);
        let s = selected(base, target);
        let before = selected(base.drop_last(), target);
        assert forall|j: int| 0 <= j < s.len() implies base.contains(#[trigger] s[j])
            && needs_copy(s[j], find(target, s[j].path)) by {
            if j < before.len() {
                assert(s[j] == before[j]);
                let w = choose|w: int| 0 <= w < base.drop_last().len() && base.drop_last()[w]
                    == s[j];
                assert(base[w] == s[j]);
            } else {
                assert(s[j] == base[base.len() - 1]);
            }
        }
    }
}

/// Selection is complete: every record of the base whose path is copied is
/// selected.
pub proof fn lemma_selected_complete(base: Seq<JournalRecord>, target: Seq<JournalRecord>, k: int)
    requires
        0 <= k < base.len(),
        needs_copy(base[k], find(target, base[k].path)),
    ensures
        selected(base, target).contains(base[k]),
    decreases base.len(),
{
    let s = selected(base, target);
    if k == base.len() - 1 {
        assert(s[s.len() - 1] == base[k]);
    } else {
        lemma_selected_complete(base.drop_last(), target, k);
        let before = selected(base.drop_last(), target);
        let w = choose|w: int| 0 <= w < before.len() && before[w] == base.drop_last()[k];
        assert(s[w] == base[k]);
    }
}

/// Selection lists no path twice if the base holds none twice.
pub proof fn lemma_selected_distinct(base: Seq<JournalRecord>, target: Seq<JournalRecord>)
    requires
        distinct_paths(base),
    ensures
        distinct_paths(selected(base, target)),
    decreases base.len(),
{
    if base.len() > 0 {
        let front = base.drop_last();
        assert forall|i: int, j: int| 0 <= i < j < front.len() implies front[i].path
            != front[j].path by {
            assert(front[i] == base[i] && front[j] == base[j]);
        }
        lemma_selected_distinct(front, target);
        lemma_selected(front, target);
        let before = selected(front, target);
        let s = selected(base, target);
        assert forall|i: int, j: int| 0 <= i < j < s.len() implies s[i].path != s[j].path by {
            assert(s[i] == before[i]);
            if j < before.len() {
                assert(s[j] == before[j]);
            } else {
                let w = choose|w: int| 0 <= w < front.len() && front[w] == before[i];
                assert(base[w] == s[i]);
                assert(s[j] == base[base.len() - 1]);
            }
        }
    }
}

/// The files to copy are chosen once each: among the records selected from
/// the two journals no path occurs twice, and every path of the base whose
/// last record has to be copied is among them.
pub proof fn lemma_files_selected_once(
    base: Seq<JournalRecord>,
    target: Seq<JournalRecord>,
    path: Seq<char>,
)
    ensures
        distinct_paths(selected(by_path(base), by_path(target))),
        last_record(base, path) matches Some(b) && needs_copy(b, last_record(target, path))
            ==> selected(by_path(base), by_path(target)).contains(last_record(base, path)->0),
{
    lemma_by_path(base, path);
    lemma_by_path(target, path);
    lemma_selected_distinct(by_path(base), by_path(target));
    if last_record(base, path) matches Some(b) && needs_copy(b, last_record(target, path)) {
        let bm = by_path(base);
        lemma_index_of_path(bm, path);
        let k = index_of_path(bm, path);
        assert(bm[k] == last_record(base, path)->0);
        lemma_selected_complete(bm, by_path(target), k);
    }
}

/// Directory skip: no path is selected for copying whose record in the
/// target's journal is a directory.
pub proof fn lemma_directory_skip(base: Seq<JournalRecord>, target: Seq<JournalRecord>)
    ensures
        forall|j: int|
            0 <= j < selected(by_path(base), by_path(target)).len() ==> !(last_record(
                target,
                (#[trigger] selected(by_path(base), by_path(target))[j]).path,
            ) matches Some(t) && t.is_dir),
{
    let s = selected(by_path(base), by_path(target));
    lemma_selected(by_path(base), by_path(target));
    assert forall|j: int| 0 <= j < s.len() implies !(last_record(target, (#[trigger] s[j]).path)
        matches Some(t) && t.is_dir) by {
        lemma_by_path(target, s[j].path);
    }
}

/// How far a synchronisation has come. A run passes through the stages in
/// this order, one step at a time, and never goes back.
#[derive(Debug, Clone, Copy, PartialEq, Eq, Structural)]
pub enum Stage {
    /// The session exists; no journal has been loaded.
    Created,
    /// Both journals are loaded.
    Prepared,
    /// The plan of copies has been made.
    Diffed,
    /// Every group of the plan has been tried.
    Copied,
    /// Both journals have been written anew.
    Persisted,
}

/// What a `Transaction` holds, as the contracts see it.
pub struct Session {
    pub base: Seq<char>,
    pub target: Seq<char>,
    pub base_data: Seq<JournalRecord>,
    pub target_data: Seq<JournalRecord>,
    pub base_refreshed: i64,
    pub target_refreshed: i64,
    pub stage: Stage,
    pub failed_groups: usize,
}

/// One synchronisation: the two roots, the cached journal of each, the
/// second at which each cache was last refreshed, the stage that the run has
/// reached, and the number of groups whose copy failed.
#[derive(Debug)]
pub struct Transaction {
    base: String,
    target: String,
    base_data: Vec<PathTransactionData>,
    target_data: Vec<PathTransactionData>,
    base_refreshed: i64,
    target_refreshed: i64,
    stage: Stage,
    failed_groups: usize,
}

/// The place of a stage in the order of a run.
pub open spec fn rank(stage: Stage) -> int {
    match stage {
        Stage::Created => 0,
        Stage::Prepared => 1,
        Stage::Diffed => 2,
        Stage::Copied => 3,
        Stage::Persisted => 4,
    }
}

/// Whether a session can go from `before` to `after` in one call: it stays
/// where it is or takes the next stage.
pub open spec fn steps(before: Stage, after: Stage) -> bool {
    rank(after) == rank(before) || rank(after) == rank(before) + 1
}

impl View for Transaction {
    type V = Session;

    closed spec fn view(&self) -> Session {
        Session {
            base: self.base@,
            target: self.target@,
            base_data: journal_views(self.base_data@),
            target_data: journal_views(self.target_data@),
            base_refreshed: self.base_refreshed,
            target_refreshed: self.target_refreshed,
            stage: self.stage,
            failed_groups: self.failed_groups,
        }
    }
}

/// A copy of a list of records.
fn copy_records(data: &Vec<PathTransactionData>) -> (r: Vec<PathTransactionData>)
    ensures
        journal_views(r@) == journal_views(data@),
{
    let ghost wanted = journal_views(data@);
    let mut r: Vec<PathTransactionData> = Vec::new();
    let mut k: usize = 0;
    assert(journal_views(r@) == wanted.take(0));
    while k < data.len()
        invariant
            k <= data.len(),
            wanted == journal_views(data@),
            journal_views(r@) == wanted.take(k as int),
        decreases data.len() - k,
    {
        let ghost before = journal_views(r@);
        let copy = data[k].clone();
        r.push(copy);
        assert(journal_views(r@) == before.push(copy@));
        assert(wanted.take(k + 1) == wanted.take(k as int).push(wanted[k as int]));
        k += 1;
    }
    assert(wanted.take(data.len() as int) == wanted);
    r
}

impl Clone for Transaction {
    fn clone(&self) -> (r: Self)
        ensures
            r@ == self@,
    {
        Transaction {
            base: self.base.clone(),
            target: self.target.clone(),
            base_data: copy_records(&self.base_data),
            target_data: copy_records(&self.target_data),
            base_refreshed: self.base_refreshed,
            target_refreshed: self.target_refreshed,
            stage: self.stage,
            failed_groups: self.failed_groups,
        }
    }
}

/// What a read of a cache gives at `now`: the cached records while the
/// cache is fresh, and nothing once it is stale, which tells the reader to
/// load the journal again.
pub open spec fn read_cache(records: Seq<JournalRecord>, refreshed: i64, now: i64) -> Option<
    Seq<JournalRecord>,
> {
    if is_stale(refreshed, now) {
        None
    } else {
        Some(records)
    }
}

/// What a list of records holds, if there is one.
pub open spec fn cache_view(r: Option<&Vec<PathTransactionData>>) -> Option<Seq<JournalRecord>> {
    match r {
        Some(v) => Some(journal_views(v@)),
        None => None,
    }
}

/// The present time in whole seconds since the epoch; negative if the
/// system clock stands before it.
///
/// Trusted: reads `std::time::SystemTime::now`, converts it with chrono's
/// `From<SystemTime> for DateTime<Utc>`, which takes a time before the epoch
/// as a negative number of seconds and gives up only on a time outside the
/// years that chrono can hold, and calls `DateTime::timestamp`. The result is
/// whatever the system clock says; the contract claims nothing of it.
#[verifier::external_body]
fn now_seconds() -> i64 {
    chrono::DateTime::<chrono::Utc>::from(std::time::SystemTime::now()).timestamp()
}

/// Whether a cache that was refreshed at `last` is stale at `now`.
pub fn stale(last: i64, now: i64) -> (r: bool)
    ensures
        r == is_stale(last, now),
{
    now as i128 - last as i128 > FRESH_SECONDS as i128
}

/// Finds the first record of `path`.
fn find_record(records: &Vec<PathTransactionData>, path: &str) -> (r: Option<usize>)
    ensures
        match r {
            Some(k) => k == index_of_path(journal_views(records@), path@) && k < records.len(),
            None => index_of_path(journal_views(records@), path@) < 0,
        },
{
    let ghost all = journal_views(records@);
    let wanted = chars_of(path);
    let mut k: usize = 0;
    while k < records.len()
        invariant
            k <= records.len(),
            all == journal_views(records@),
            wanted@ == path@,
            index_of_path(all.take(k as int), path@) < 0,
        decreases records.len() - k,
    {
        proof {
            assert(all.take(k + 1).drop_last() == all.take(k as int));
            assert(all.take(k + 1).last() == all[k as int]);
        }
        let here = chars_of(records[k].get_path());
        if crate::text::chars_eq(&here, &wanted) {
            proof {
                lemma_index_extends(all, k as int, path@);
            }
            return Some(k);
        }
        k += 1;
    }
    assert(all.take(records.len() as int) == all);
    None
}

/// An index found among the first `k + 1` records is the index among all.
proof fn lemma_index_extends(records: Seq<JournalRecord>, k: int, path: Seq<char>)
    requires
        0 <= k < records.len(),
        index_of_path(records.take(k + 1), path) == k,
    ensures
        index_of_path(records, path) == k,
    decreases records.len(),
{
    if records.len() > k + 1 {
        assert(records.drop_last().take(k + 1) == records.take(k + 1));
        lemma_index_extends(records.drop_last(), k, path);
    } else {
        assert(records.take(k + 1) == records);
    }
}

/// Whether the target's record is older than the base's.
pub fn older(t: &PathTransactionData, b: &PathTransactionData) -> (r: bool)
    ensures
        r == is_older(t@, b@),
{
    t.get_last_modified() < b.get_last_modified() || (t.get_last_modified()
        == b.get_last_modified() && t.get_last_accessed() < b.get_last_accessed()) || (
    t.get_last_modified() == b.get_last_modified() && t.get_last_accessed()
        == b.get_last_accessed() && t.get_created() < b.get_created())
}

/// Whether the path of the base's record `b` is copied, given the target's
/// record of the same path.
pub fn should_copy(b: &PathTransactionData, t: Option<&PathTransactionData>) -> (r: bool)
    ensures
        r == needs_copy(
            b@,
            match t {
                Some(t) => Some(t@),
                None => None,
            },
        ),
{
    match t {
        None => true,
        Some(t) => !t.get_is_dir() && older(t, b),
    }
}

/// Decides which files of the tree at `base_root` are copied, given the
/// journals of base and target, and names each as the copy wants it: below
/// `base_root`, and relative to `calling_path` where it lies under it.
pub fn select_files(
    base_root: &str,
    calling_path: &str,
    base: &Vec<PathTransactionData>,
    target: &Vec<PathTransactionData>,
) -> (r: Vec<String>)
    ensures
        texts(r@) == files_to_copy(
            base_root@,
            calling_path@,
            journal_views(base@),
            journal_views(target@),
        ),
{
    let base_map = Transaction::path_transaction_vec_to_hash_map(base);
    let target_map = Transaction::path_transaction_vec_to_hash_map(target);
    let root = chars_of(base_root);
    let calling = chars_of(calling_path);
    let ghost bm = journal_views(base_map@);
    let ghost tm = journal_views(target_map@);
    let mut r: Vec<String> = Vec::new();
    let mut k: usize = 0;
    proof {
        assert(bm.take(0) == Seq::<JournalRecord>::empty());
        assert(texts(r@) == copy_paths(base_root@, calling_path@, selected(bm.take(0), tm)));
    }
    while k < base_map.len()
        invariant
            k <= base_map.len(),
            bm == journal_views(base_map@),
            tm == journal_views(target_map@),
            root@ == base_root@,
            calling@ == calling_path@,
            texts(r@) == copy_paths(base_root@, calling_path@, selected(bm.take(k as int), tm)),
        decreases base_map.len() - k,
    {
        let record = &base_map[k];
        proof {
            assert(bm.take(k + 1).drop_last() == bm.take(k as int));
            assert(bm.take(k + 1).last() == record@);
            lemma_index_of_path(tm, record@.path);
        }
        let counterpart = match find_record(&target_map, record.get_path()) {
            Some(j) => Some(&target_map[j]),
            None => None,
        };
        if should_copy(record, counterpart) {
            let full = join_chars(&root, &chars_of(record.get_path()));
            let name = match relative_chars(&calling, &full) {
                Some(rel) => rel,
                None => full,
            };
            let ghost before = texts(r@);
            let ghost chosen = selected(bm.take(k as int), tm);
            let item = string_of(&name);
            r.push(item);
            proof {
                assert(item@ == copy_path(base_root@, calling_path@, record@.path));
                assert(texts(r@) == before.push(item@));
                assert(copy_paths(base_root@, calling_path@, chosen.push(record@))
                    == copy_paths(base_root@, calling_path@, chosen).push(item@));
            }
        }
        k += 1;
    }
    assert(bm.take(base_map.len() as int) == bm);
    r
}

impl Transaction {
    /// Makes the session of a synchronisation from `base` to `target` at the
    /// second `now`, with empty caches that count as refreshed at `now`.
    pub fn new_at(base: String, target: String, now: i64) -> (r: Transaction)
        ensures
            r@ == (Session {
                base: base@,
                target: target@,
                base_data: Seq::empty(),
                target_data: Seq::empty(),
                base_refreshed: now,
                target_refreshed: now,
                stage: Stage::Created,
                failed_groups: 0,
            }),
    {
        let r = Transaction {
            base,
            target,
            base_data: Vec::new(),
            target_data: Vec::new(),
            base_refreshed: now,
            target_refreshed: now,
            stage: Stage::Created,
            failed_groups: 0,
        };
        assert(journal_views(r.base_data@) == Seq::<JournalRecord>::empty());
        assert(journal_views(r.target_data@) == Seq::<JournalRecord>::empty());
        r
    }

    /// Makes the session of a synchronisation from `base` to `target`, with
    /// empty caches that count as refreshed at the present time.
    pub fn new(base: String, target: String) -> (r: Transaction)
        ensures
            r@.base == base@,
            r@.target == target@,
            r@.base_data == Seq::<JournalRecord>::empty(),
            r@.target_data == Seq::<JournalRecord>::empty(),
            r@.base_refreshed == r@.target_refreshed,
            r@.stage == Stage::Created,
            r@.failed_groups == 0,
    {
        Transaction::new_at(base, target, now_seconds())
    }

    /// The stage that the run has reached.
    pub fn get_stage(&self) -> (r: Stage)
        ensures
            r == self@.stage,
    {
        self.stage
    }

    /// The number of groups of the plan whose copy failed.
    pub fn get_failed_groups(&self) -> (r: usize)
        ensures
            r == self@.failed_groups,
    {
        self.failed_groups
    }

    /// The root of the base.
    pub fn get_base(&self) -> (r: &str)
        ensures
            r@ == self@.base,
    {
        self.base.as_str()
    }

    /// The root of the target.
    pub fn get_target(&self) -> (r: &str)
        ensures
            r@ == self@.target,
    {
        self.target.as_str()
    }

    /// The cached journals of base and target as they stand, fresh or not.
    pub(crate) fn caches(&self) -> (r: (&Vec<PathTransactionData>, &Vec<PathTransactionData>))
        ensures
            journal_views(r.0@) == self@.base_data,
            journal_views(r.1@) == self@.target_data,
    {
        (&self.base_data, &self.target_data)
    }

    /// The cached journal of the base, or `None` if the cache is stale at
    /// `now` and has to be loaded again before it is read.
    pub fn get_base_data_at(&self, now: i64) -> (r: Option<&Vec<PathTransactionData>>)
        ensures
            cache_view(r) == read_cache(self@.base_data, self@.base_refreshed, now),
    {
        if stale(self.base_refreshed, now) {
            None
        } else {
            Some(&self.base_data)
        }
    }

    /// The cached journal of the target, or `None` if the cache is stale at
    /// `now` and has to be loaded again before it is read.
    pub fn get_target_data_at(&self, now: i64) -> (r: Option<&Vec<PathTransactionData>>)
        ensures
            cache_view(r) == read_cache(self@.target_data, self@.target_refreshed, now),
    {
        if stale(self.target_refreshed, now) {
            None
        } else {
            Some(&self.target_data)
        }
    }

    /// What `get_base_data_at` gives at the instant that the clock shows:
    /// the cached journal of the base, or `None` if the cache is stale then.
    pub fn get_base_data(&self) -> (r: Option<&Vec<PathTransactionData>>)
        ensures
            read_at_some_instant(cache_view(r), self@.base_data, self@.base_refreshed),
    {
        self.get_base_data_at(now_seconds())
    }

    /// What `get_target_data_at` gives at the instant that the clock shows:
    /// the cached journal of the target, or `None` if the cache is stale then.
    pub fn get_target_data(&self) -> (r: Option<&Vec<PathTransactionData>>)
        ensures
            read_at_some_instant(cache_view(r), self@.target_data, self@.target_refreshed),
    {
        self.get_target_data_at(now_seconds())
    }

    /// Replaces the cached journal of the base by `records`, loaded at the
    /// second `now`.
    pub fn load_base_data_at(&mut self, records: Vec<PathTransactionData>, now: i64)
        ensures
            steps(old(self)@.stage, final(self)@.stage),
            final(self)@ == (Session {
                base_data: journal_views(records@),
                base_refreshed: now,
                ..old(self)@
            }),
    {
        self.base_data = records;
        self.base_refreshed = now;
    }

    /// Replaces the cached journal of the target by `records`, loaded at the
    /// second `now`.
    pub fn load_target_data_at(&mut self, records: Vec<PathTransactionData>, now: i64)
        ensures
            steps(old(self)@.stage, final(self)@.stage),
            final(self)@ == (Session {
                target_data: journal_views(records@),
                target_refreshed: now,
                ..old(self)@
            }),
    {
        self.target_data = records;
        self.target_refreshed = now;
    }

    /// Replaces the cached journal of the base by `records`, loaded just
    /// now.
    pub fn load_base_data(&mut self, records: Vec<PathTransactionData>)
        ensures
            steps(old(self)@.stage, final(self)@.stage),
            final(self)@ == (Session {
                base_data: journal_views(records@),
                base_refreshed: final(self)@.base_refreshed,
                ..old(self)@
            }),
    {
        self.load_base_data_at(records, now_seconds());
    }

    /// Replaces the cached journal of the target by `records`, loaded just
    /// now.
    pub fn load_target_data(&mut self, records: Vec<PathTransactionData>)
        ensures
            steps(old(self)@.stage, final(self)@.stage),
            final(self)@ == (Session {
                target_data: journal_views(records@),
                target_refreshed: final(self)@.target_refreshed,
                ..old(self)@
            }),
    {
        self.load_target_data_at(records, now_seconds());
    }

    /// Takes in both journals as they were loaded at the second `now`, after
    /// the base's journal was written anew. This is the first step of a run:
    /// it is taken only by a session that has just been made, and refused,
    /// with nothing changed, by any other.
    pub fn prepare_at(
        &mut self,
        base_records: Vec<PathTransactionData>,
        target_records: Vec<PathTransactionData>,
        now: i64,
    ) -> (r: bool)
        ensures
            steps(old(self)@.stage, final(self)@.stage),
            r == (old(self)@.stage == Stage::Created),
            r ==> final(self)@ == (Session {
                base_data: journal_views(base_records@),
                target_data: journal_views(target_records@),
                base_refreshed: now,
                target_refreshed: now,
                stage: Stage::Prepared,
                ..old(self)@
            }),
            !r ==> final(self)@ == old(self)@,
    {
        if self.stage != Stage::Created {
            return false;
        }
        self.load_base_data_at(base_records, now);
        self.load_target_data_at(target_records, now);
        self.stage = Stage::Prepared;
        true
    }

    /// Takes in both journals as they were loaded just now, as `prepare_at`
    /// does.
    pub fn prepare(
        &mut self,
        base_records: Vec<PathTransactionData>,
        target_records: Vec<PathTransactionData>,
    ) -> (r: bool)
        ensures
            steps(old(self)@.stage, final(self)@.stage),
            r == (old(self)@.stage == Stage::Created),
            r ==> final(self)@ == (Session {
                base_data: journal_views(base_records@),
                target_data: journal_views(target_records@),
                base_refreshed: final(self)@.base_refreshed,
                target_refreshed: final(self)@.target_refreshed,
                stage: Stage::Prepared,
                ..old(self)@
            }),
            r ==> final(self)@.base_refreshed == final(self)@.target_refreshed,
            !r ==> final(self)@ == old(self)@,
    {
        self.prepare_at(base_records, target_records, now_seconds())
    }

    /// The journal directory of the tree at `path`.
    pub fn get_hard_sync_path(path: &str) -> (r: String)
        ensures
            r@ == joined(path@, ".hard-sync"@),
    {
        proof {
            reveal_strlit(".hard-sync");
        }
        string_of(&join_chars(&chars_of(path), &chars_of(".hard-sync")))
    }

    /// The journal directory of the base.
    pub fn get_base_hard_sync_path(&self) -> (r: String)
        ensures
            r@ == joined(self@.base, ".hard-sync"@),
    {
        Transaction::get_hard_sync_path(self.base.as_str())
    }

    /// The journal directory of the target.
    pub fn get_target_hard_sync_path(&self) -> (r: String)
        ensures
            r@ == joined(self@.target, ".hard-sync"@),
    {
        Transaction::get_hard_sync_path(self.target.as_str())
    }

    /// The journal file of the tree at `path`.
    pub fn get_lock_path(path: &str) -> (r: String)
        ensures
            r@ == joined(path@, ".hard-sync/hard-sync.lock"@),
    {
        proof {
            reveal_strlit(".hard-sync/hard-sync.lock");
        }
        string_of(&join_chars(&chars_of(path), &chars_of(".hard-sync/hard-sync.lock")))
    }

    /// The journal of the base for what a walk of its tree met.
    pub fn get_base_save_data(&self, entries: &Vec<WalkEntry>) -> (r: Vec<PathTransactionData>)
        ensures
            journal_views(r@) == journal_of(self@.base, walk_views(entries@)),
    {
        get_save_data_path_transaction_data(self.base.as_str(), entries)
    }

    /// The journal of the target for what a walk of its tree met.
    pub fn get_target_save_data(&self, entries: &Vec<WalkEntry>) -> (r: Vec<PathTransactionData>)
        ensures
            journal_views(r@) == journal_of(self@.target, walk_views(entries@)),
    {
        get_save_data_path_transaction_data(self.target.as_str(), entries)
    }

    /// The text of the journal file of the base for what a walk of its tree
    /// met.
    pub fn save_base_lock_data(&self, entries: &Vec<WalkEntry>) -> (r: String)
        ensures
            r@ == journal_text(journal_of(self@.base, walk_views(entries@))),
    {
        save_lock_data(&self.get_base_save_data(entries))
    }

    /// The text of the journal file of the target for what a walk of its
    /// tree met.
    pub fn save_target_lock_data(&self, entries: &Vec<WalkEntry>) -> (r: String)
        ensures
            r@ == journal_text(journal_of(self@.target, walk_views(entries@))),
    {
        save_lock_data(&self.get_target_save_data(entries))
    }

    /// The records of `data` as a map from path to record: one record for
    /// each path, the last that `data` holds for it.
    pub fn path_transaction_vec_to_hash_map(data: &Vec<PathTransactionData>) -> (r: Vec<
        PathTransactionData,
    >)
        ensures
            journal_views(r@) == by_path(journal_views(data@)),
    {
        let ghost all = journal_views(data@);
        let mut r: Vec<PathTransactionData> = Vec::new();
        let mut k: usize = 0;
        proof {
            assert(all.take(0) == Seq::<JournalRecord>::empty());
            assert(journal_views(r@) == by_path(all.take(0)));
        }
        while k < data.len()
            invariant
                k <= data.len(),
                all == journal_views(data@),
                journal_views(r@) == by_path(all.take(k as int)),
            decreases data.len() - k,
        {
            proof {
                assert(all.take(k + 1).drop_last() == all.take(k as int));
                assert(all.take(k + 1).last() == data@[k as int]@);
                lemma_index_of_path(journal_views(r@), data@[k as int]@.path);
            }
            let ghost before = journal_views(r@);
            let copy = data[k].clone();
            match find_record(&r, data[k].get_path()) {
                Some(j) => {
                    r[j] = copy;
                    assert(journal_views(r@) == before.update(j as int, copy@));
                },
                None => {
                    r.push(copy);
                    assert(journal_views(r@) == before.push(copy@));
                },
            }
            k += 1;
        }
        assert(all.take(data.len() as int) == all);
        r
    }

    /// Plans the synchronisation at the second `now`: decides from the two
    /// cached journals which files of the base are copied and groups them by
    /// the directory under the target that each goes to. This is the second
    /// step of a run.
    ///
    /// The answer is `None`, and nothing changes, if the session is not at
    /// the stage `Prepared` or if one of the caches is stale at `now`; in the
    /// second case the caller loads the stale journal again and asks once
    /// more.
    pub fn sync_at(&mut self, now: i64, calling_path: &str) -> (r: Option<
        Vec<(Vec<String>, String)>,
    >)
        ensures
            steps(old(self)@.stage, final(self)@.stage),
            r is Some <==> old(self)@.stage == Stage::Prepared && !is_stale(
                old(self)@.base_refreshed,
                now,
            ) && !is_stale(old(self)@.target_refreshed, now),
            r matches Some(plan) ==> groups_view(plan@) == sync_plan(
                old(self)@.base,
                old(self)@.target,
                calling_path@,
                old(self)@.base_data,
                old(self)@.target_data,
            ) && final(self)@ == (Session { stage: Stage::Diffed, ..old(self)@ }),
            r is None ==> final(self)@ == old(self)@,
    {
        if self.stage != Stage::Prepared {
            return None;
        }
        let base_data = match self.get_base_data_at(now) {
            Some(d) => d,
            None => {
                return None;
            },
        };
        let target_data = match self.get_target_data_at(now) {
            Some(d) => d,
            None => {
                return None;
            },
        };
        let files = select_files(self.base.as_str(), calling_path, base_data, target_data);
        let plan = map_path_to_target(files, self.target.clone(), self.base.clone());
        self.stage = Stage::Diffed;
        Some(plan)
    }

    /// What `sync_at` gives at the instant that the clock shows: the plan if
    /// the session is at the stage `Prepared` and both caches are fresh then,
    /// and else `None`, with nothing changed.
    pub fn sync(&mut self, calling_path: &str) -> (r: Option<Vec<(Vec<String>, String)>>)
        ensures
            steps(old(self)@.stage, final(self)@.stage),
            plans_at_some_instant(old(self)@, r is Some),
            r matches Some(plan) ==> groups_view(plan@) == sync_plan(
                old(self)@.base,
                old(self)@.target,
                calling_path@,
                old(self)@.base_data,
                old(self)@.target_data,
            ) && final(self)@ == (Session { stage: Stage::Diffed, ..old(self)@ }),
            r is None ==> final(self)@ == old(self)@,
    {
        let now = now_seconds();
        let r = self.sync_at(now, calling_path);
        assert((r is Some) == plans_at(old(self)@, now));
        r
    }

    /// Notes that every group of the plan has been tried, and how many of
    /// them failed. A failed copy does not stop the run. This is the third
    /// step of a run; it is refused, with nothing changed, unless the plan
    /// has just been made.
    pub fn record_copies(&mut self, failed_groups: usize) -> (r: bool)
        ensures
            steps(old(self)@.stage, final(self)@.stage),
            r == (old(self)@.stage == Stage::Diffed),
            r ==> final(self)@ == (Session {
                stage: Stage::Copied,
                failed_groups,
                ..old(self)@
            }),
            !r ==> final(self)@ == old(self)@,
    {
        if self.stage != Stage::Diffed {
            return false;
        }
        self.failed_groups = failed_groups;
        self.stage = Stage::Copied;
        true
    }

    /// Takes in the journals of both trees as they were made and written
    /// anew at the second `now`, whether or not every copy succeeded. This is
    /// the last step of a run; it is refused, with nothing changed, unless
    /// the copies have just been tried.
    pub fn persist_at(
        &mut self,
        base_records: Vec<PathTransactionData>,
        target_records: Vec<PathTransactionData>,
        now: i64,
    ) -> (r: bool)
        ensures
            steps(old(self)@.stage, final(self)@.stage),
            r == (old(self)@.stage == Stage::Copied),
            r ==> final(self)@ == (Session {
                base_data: journal_views(base_records@),
                target_data: journal_views(target_records@),
                base_refreshed: now,
                target_refreshed: now,
                stage: Stage::Persisted,
                ..old(self)@
            }),
            !r ==> final(self)@ == old(self)@,
    {
        if self.stage != Stage::Copied {
            return false;
        }
        self.load_base_data_at(base_records, now);
        self.load_target_data_at(target_records, now);
        self.stage = Stage::Persisted;
        true
    }

    /// Takes in the journals of both trees as they were made and written
    /// anew just now, as `persist_at` does.
    pub fn persist(
        &mut self,
        base_records: Vec<PathTransactionData>,
        target_records: Vec<PathTransactionData>,
    ) -> (r: bool)
        ensures
            steps(old(self)@.stage, final(self)@.stage),
            r == (old(self)@.stage == Stage::Copied),
            r ==> final(self)@ == (Session {
                base_data: journal_views(base_records@),
                target_data: journal_views(target_records@),
                base_refreshed: final(self)@.base_refreshed,
                target_refreshed: final(self)@.target_refreshed,
                stage: Stage::Persisted,
                ..old(self)@
            }),
            !r ==> final(self)@ == old(self)@,
    {
        self.persist_at(base_records, target_records, now_seconds())
    }
}

/// Makes the session of a synchronisation from `base` to `target`, as
/// `Transaction::new` does.
pub fn get_transaction(base: String, target: String) -> (r: Transaction)
    ensures
        r@.base == base@,
        r@.target == target@,
        r@.base_data == Seq::<JournalRecord>::empty(),
        r@.target_data == Seq::<JournalRecord>::empty(),
        r@.base_refreshed == r@.target_refreshed,
        r@.stage == Stage::Created,
        r@.failed_groups == 0,
{
    Transaction::new(base, target)
}

/// Staleness cache: after a journal was loaded at the second `loaded`, every
/// read up to five seconds later gives the records that were loaded, so that
/// two such reads agree and none asks for the journal file; every later read
/// gives nothing and thereby asks for a reload.
pub proof fn lemma_staleness_cache(records: Seq<JournalRecord>, loaded: i64, first: i64, second: i64)
    ensures
        loaded <= first <= loaded + FRESH_SECONDS ==> read_cache(records, loaded, first) == Some(
            records,
        ),
        loaded <= first <= loaded + FRESH_SECONDS && loaded <= second <= loaded + FRESH_SECONDS
            ==> read_cache(records, loaded, first) == read_cache(records, loaded, second),
        first > loaded + FRESH_SECONDS ==> read_cache(records, loaded, first) is None,
{
}

/// Whether `read` is what a read of a cache gives at some instant. The
/// instant is the one at which the clock was asked, which no contract can
/// name; the cache decides the rest. A read that gives records gives the
/// cached ones, and a cache that can be stale at no instant is always read.
pub open spec fn read_at_some_instant(
    read: Option<Seq<JournalRecord>>,
    records: Seq<JournalRecord>,
    refreshed: i64,
) -> bool {
    exists|now: i64| read == #[trigger] read_cache(records, refreshed, now)
}

/// Whether a session in the state `s` gets a plan when it asks at `now`: it
/// is at the stage `Prepared` and both of its caches are fresh.
pub open spec fn plans_at(s: Session, now: i64) -> bool {
    s.stage == Stage::Prepared && !is_stale(s.base_refreshed, now) && !is_stale(
        s.target_refreshed,
        now,
    )
}

/// Whether `planned` tells rightly, for some instant, if a session in the
/// state `s` gets a plan. A session at another stage never gets one, and a
/// prepared session whose caches can be stale at no instant always does.
pub open spec fn plans_at_some_instant(s: Session, planned: bool) -> bool {
    exists|now: i64| planned == #[trigger] plans_at(s, now)
}

} // verus!
