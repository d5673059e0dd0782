//! Batching of the files to copy by destination directory.
//!
//! Each file is placed under the target root at the directory it has below
//! the base root. Files that land in the same directory form one group, and
//! the groups come out in the order in which their directories were first
//! seen.

use vstd::prelude::*;
use crate::paths::SEPARATOR;
use crate::paths::components;
use crate::paths::components_of;
use crate::paths::relative_chars;
use crate::paths::relative_path;
use crate::text::chars_of;
use crate::text::push_all;
use crate::text::rows;
use crate::text::string_of;
use crate::text::texts;

verus! {

/// One batch as the contracts see it: the identifiers of its files and the
/// directory they go to.
pub type GroupView = (Seq<Seq<char>>, Seq<char>);

/// A component that names nothing: the empty one, a bare separator of either
/// kind, and `.`.
pub open spec fn is_noise(c: Seq<char>) -> bool {
    c.len() == 0 || c == seq!['/'] || c == seq!['/', '/'] || c == seq!['.'] || c == seq!['\\']
}

/// `dir` with `part` appended below it. A separator goes in between unless
/// `dir` already ends with one; a noise component changes nothing.
pub open spec fn append_component(dir: Seq<char>, part: Seq<char>) -> Seq<char> {
    if is_noise(part) {
        dir
    } else if dir.len() > 0 && dir.last() == SEPARATOR {
        dir + part
    } else {
        dir + seq![SEPARATOR] + part
    }
}

/// `dir` with each of `parts` appended in turn.
pub open spec fn extend_dir(dir: Seq<char>, parts: Seq<Seq<char>>) -> Seq<char>
    decreases parts.len(),
{
    if parts.len() == 0 {
        dir
    } else {
        append_component(extend_dir(dir, parts.drop_last()), parts.last())
    }
}

/// The components of a path without the last one, the file name.
pub open spec fn parent_components(c: Seq<Seq<char>>) -> Seq<Seq<char>> {
    if c.len() == 0 {
        c
    } else {
        c.drop_last()
    }
}

/// `file` relative to `base`, or `file` itself where it does not lie under
/// `base`.
pub open spec fn relative_or_self(base: Seq<char>, file: Seq<char>) -> Seq<char> {
    match relative_path(base, file) {
        Some(r) => r,
        None => file,
    }
}

/// The directory under `target` that `file` is copied to.
pub open spec fn destination_dir(target: Seq<char>, base: Seq<char>, file: Seq<char>) -> Seq<
    char,
> {
    extend_dir(target, parent_components(components(relative_or_self(base, file))))
}

/// The components of `parts` that are no noise, joined by single separators.
pub open spec fn join_kept(parts: Seq<Seq<char>>) -> Seq<char>
    decreases parts.len(),
{
    if parts.len() == 0 {
        Seq::empty()
    } else {
        let head = join_kept(parts.drop_last());
        if is_noise(parts.last()) {
            head
        } else if head.len() == 0 {
            parts.last()
        } else {
            head + seq![SEPARATOR] + parts.last()
        }
    }
}

/// The identifier under which `file` is listed in its group: its path with
/// noise components removed.
pub open spec fn identifier(file: Seq<char>) -> Seq<char> {
    join_kept(components(file))
}

/// The index of the first group of `groups` that goes to `dir`, or -1.
pub open spec fn position(groups: Seq<GroupView>, dir: Seq<char>) -> int
    decreases groups.len(),
{
    if groups.len() == 0 {
        -1
    } else {
        let p = position(groups.drop_last(), dir);
        if p >= 0 {
            p
        } else if groups.last().1 == dir {
            groups.len() - 1
        } else {
            -1
        }
    }
}

/// `groups` with `id` added to the group of `dir`, which is opened at the end
/// if there is none yet.
pub open spec fn insert(groups: Seq<GroupView>, id: Seq<char>, dir: Seq<char>) -> Seq<GroupView> {
    let k = position(groups, dir);
    if 0 <= k < groups.len() {
        groups.update(k, (groups[k].0.push(id), dir))
    } else {
        groups.push((seq![id], dir))
    }
}

/// The groups that `files` fall into, taken in order.
pub open spec fn mapping(files: Seq<Seq<char>>, target: Seq<char>, base: Seq<char>) -> Seq<
    GroupView,
>
    decreases files.len(),
{
    if files.len() == 0 {
        Seq::empty()
    } else {
        insert(
            mapping(files.drop_last(), target, base),
            identifier(files.last()),
            destination_dir(target, base, files.last()),
        )
    }
}

/// The groups that a list of batches holds.
pub open spec fn groups_view(v: Seq<(Vec<String>, String)>) -> Seq<GroupView> {
    Seq::new(v.len(), |k: int| (texts(v[k].0@), v[k].1@))
}

/// `position` finds a group of `dir` if there is one, and the first such.
pub proof fn lemma_position(groups: Seq<GroupView>, dir: Seq<char>)
    ensures
        -1 <= position(groups, dir) < groups.len(),
        position(groups, dir) >= 0 ==> groups[position(groups, dir)].1 == dir,
        forall|j: int|
            0 <= j < groups.len() && (position(groups, dir) < 0 || j < position(groups, dir))
                ==> (#[trigger] groups[j]).1 != dir,
    decreases groups.len(),
{
    if groups.len() > 0 {
        lemma_position(groups.drop_last(), dir);
        let p = position(groups.drop_last(), dir);
        assert forall|j: int|
            0 <= j < groups.len() && (position(groups, dir) < 0 || j < position(
                groups,
                dir,
            )) implies (#[trigger] groups[j]).1 != dir by {
            if j < groups.len() - 1 {
                assert(groups[j] == groups.drop_last()[j]);
            }
        }
        if p >= 0 {
            assert(groups[p] == groups.drop_last()[p]);
        }
    }
}

/// No two groups go to the same directory.
pub open spec fn distinct_dirs(groups: Seq<GroupView>) -> bool {
    forall|i: int, j: int| 0 <= i < j < groups.len() ==> groups[i].1 != groups[j].1
}

/// Whether some group of `groups` goes to `dir` and lists `id`.
pub open spec fn places(groups: Seq<GroupView>, id: Seq<char>, dir: Seq<char>) -> bool {
    exists|g: int| 0 <= g < groups.len() && (#[trigger] groups[g]).1 == dir && groups[g].0.contains(id)
}

/// Inserting keeps the directories distinct, places what is inserted, and
/// keeps in place what was placed before.
pub proof fn lemma_insert(groups: Seq<GroupView>, id: Seq<char>, dir: Seq<char>)
    requires
        distinct_dirs(groups),
    ensures
        distinct_dirs(insert(groups, id, dir)),
        places(insert(groups, id, dir), id, dir),
        forall|x: Seq<char>, d: Seq<char>|
            places(groups, x, d) ==> #[trigger] places(insert(groups, id, dir), x, d),
{
    lemma_position(groups, dir);
    let after = insert(groups, id, dir);
    let k = position(groups, dir);
    if k >= 0 {
        assert(after[k].0.last() == id);
        assert(after[k].1 == dir && after[k].0.contains(id));
        assert forall|i: int, j: int| 0 <= i < j < after.len() implies after[i].1 != after[j].1 by {
            assert(after[i].1 == groups[i].1);
            assert(after[j].1 == groups[j].1);
        }
    } else {
        let n = groups.len() as int;
        assert(after[n].0[0] == id);
        assert(after[n].1 == dir && after[n].0.contains(id));
        assert forall|i: int, j: int| 0 <= i < j < after.len() implies after[i].1 != after[j].1 by {
            assert(after[i] == groups[i]);
            if j < n {
                assert(after[j] == groups[j]);
            }
        }
    }
    assert forall|x: Seq<char>, d: Seq<char>| places(groups, x, d) implies #[trigger] places(
        after,
        x,
        d,
    ) by {
        let g = choose|g: int|
            0 <= g < groups.len() && (#[trigger] groups[g]).1 == d && groups[g].0.contains(x);
        if g == k {
            let w = choose|w: int| 0 <= w < groups[g].0.len() && groups[g].0[w] == x;
            assert(after[g].0[w] == x);
            assert(after[g].1 == d && after[g].0.contains(x));
        } else {
            assert(after[g] == groups[g]);
        }
    }
}

/// The groups of a mapping go to different directories: each destination
/// directory has one group, opened when the directory is first seen.
pub proof fn lemma_mapping_distinct(files: Seq<Seq<char>>, target: Seq<char>, base: Seq<char>)
    ensures
        distinct_dirs(mapping(files, target, base)),
    decreases files.len(),
{
    if files.len() > 0 {
        lemma_mapping_distinct(files.drop_last(), target, base);
        lemma_insert(
            mapping(files.drop_last(), target, base),
            identifier(files.last()),
            destination_dir(target, base, files.last()),
        );
    }
}

/// Every file is listed, under its identifier, in the group of its
/// destination directory.
pub proof fn lemma_mapping_places(
    files: Seq<Seq<char>>,
    target: Seq<char>,
    base: Seq<char>,
    k: int,
)
    requires
        0 <= k < files.len(),
    ensures
        places(
            mapping(files, target, base),
            identifier(files[k]),
            destination_dir(target, base, files[k]),
        ),
    decreases files.len(),
{
    lemma_mapping_distinct(files.drop_last(), target, base);
    lemma_insert(
        mapping(files.drop_last(), target, base),
        identifier(files.last()),
        destination_dir(target, base, files.last()),
    );
    if k < files.len() - 1 {
        lemma_mapping_places(files.drop_last(), target, base, k);
        assert(files.drop_last()[k] == files[k]);
    }
}

/// How many files the groups list in all.
pub open spec fn listed(groups: Seq<GroupView>) -> nat
    decreases groups.len(),
{
    if groups.len() == 0 {
        0
    } else {
        listed(groups.drop_last()) + groups.last().0.len()
    }
}

/// No group is without a file.
pub open spec fn no_empty_group(groups: Seq<GroupView>) -> bool {
    forall|g: int| 0 <= g < groups.len() ==> (#[trigger] groups[g]).0.len() > 0
}

/// One more file in a group is one more file in all.
proof fn lemma_listed_grows(groups: Seq<GroupView>, k: int, id: Seq<char>, dir: Seq<char>)
    requires
        0 <= k < groups.len(),
    ensures
        listed(groups.update(k, (groups[k].0.push(id), dir))) == listed(groups) + 1,
    decreases groups.len(),
{
    let after = groups.update(k, (groups[k].0.push(id), dir));
    if k == groups.len() - 1 {
        assert(after.drop_last() == groups.drop_last());
    } else {
        lemma_listed_grows(groups.drop_last(), k, id, dir);
        assert(after.drop_last() == groups.drop_last().update(
            k,
            (groups.drop_last()[k].0.push(id), dir),
        ));
        assert(after.last() == groups.last());
    }
}

/// Nothing is lost and nothing is made up: the groups list as many files as
/// were given, and no group is empty.
pub proof fn lemma_mapping_counts(files: Seq<Seq<char>>, target: Seq<char>, base: Seq<char>)
    ensures
        listed(mapping(files, target, base)) == files.len(),
        no_empty_group(mapping(files, target, base)),
    decreases files.len(),
{
    if files.len() > 0 {
        lemma_mapping_counts(files.drop_last(), target, base);
        let before = mapping(files.drop_last(), target, base);
        let id = identifier(files.last());
        let dir = destination_dir(target, base, files.last());
        let after = insert(before, id, dir);
        lemma_position(before, dir);
        let k = position(before, dir);
        if k >= 0 {
            lemma_listed_grows(before, k, id, dir);
            assert forall|g: int| 0 <= g < after.len() implies (#[trigger] after[g]).0.len()
                > 0 by {
                if g != k {
                    assert(after[g] == before[g]);
                }
            }
        } else {
            assert(after.drop_last() == before);
            assert forall|g: int| 0 <= g < after.len() implies (#[trigger] after[g]).0.len()
                > 0 by {
                if g < before.len() {
                    assert(after[g] == before[g]);
                }
            }
        }
    }
}

/// A file directly under the base goes to the target root itself.
pub proof fn lemma_direct_child(target: Seq<char>, base: Seq<char>, file: Seq<char>)
    requires
        components(relative_or_self(base, file)).len() <= 1,
    ensures
        destination_dir(target, base, file) == target,
{
}

/// Whether `c` is a noise component.
fn noise(c: &Vec<char>) -> (r: bool)
    ensures
        r == is_noise(c@),
{
    let n = c.len();
    proof {
        if c@ == seq!['/'] || c@ == seq!['.'] || c@ == seq!['\\'] {
            assert(c@.len() == 1);
        }
        if c@ == seq!['/', '/'] {
            assert(c@.len() == 2);
        }
    }
    if n == 0 {
        true
    } else if n == 1 {
        let r = c[0] == '/' || c[0] == '.' || c[0] == '\\';
        proof {
            if r {
                assert(c@ =~= seq![c@[0]]);
            } else {
                assert(seq!['/'][0] == '/');
                assert(seq!['.'][0] == '.');
                assert(seq!['\\'][0] == '\\');
            }
        }
        r
    } else if n == 2 {
        let r = c[0] == '/' && c[1] == '/';
        proof {
            if r {
                assert(c@ =~= seq!['/', '/']);
            } else {
                assert(seq!['/', '/'][0] == '/');
                assert(seq!['/', '/'][1] == '/');
            }
        }
        r
    } else {
        false
    }
}

/// Appends `part` below `dir`.
fn append_to(dir: &mut Vec<char>, part: &Vec<char>)
    ensures
        final(dir)@ == append_component(old(dir)@, part@),
{
    if noise(part) {
        return ;
    }
    if dir.len() == 0 || dir[dir.len() - 1] != SEPARATOR {
        dir.push(SEPARATOR);
    }
    push_all(dir, part);
}

/// Computes the directory under `target` that `file` is copied to.
pub fn destination_of(target: &Vec<char>, base: &Vec<char>, file: &Vec<char>) -> (dir: Vec<char>)
    ensures
        dir@ == destination_dir(target@, base@, file@),
{
    let rel = match relative_chars(base, file) {
        Some(r) => r,
        None => file.clone(),
    };
    assert(rel@ == relative_or_self(base@, file@));
    let parts = components_of(&rel);
    let mut dir = target.clone();
    let count: usize = if parts.len() == 0 {
        0
    } else {
        parts.len() - 1
    };
    let ghost wanted = parent_components(components(rel@));
    proof {
        assert(rows(parts@).len() == parts@.len());
        assert(wanted == rows(parts@).take(count as int));
    }
    let mut k: usize = 0;
    while k < count
        invariant
            k <= count <= parts.len(),
            wanted == rows(parts@).take(count as int),
            dir@ == extend_dir(target@, wanted.take(k as int)),
        decreases count - k,
    {
        append_to(&mut dir, &parts[k]);
        proof {
            let next = wanted.take(k + 1);
            assert(next.drop_last() == wanted.take(k as int));
            assert(next.last() == parts@[k as int]@);
        }
        k += 1;
    }
    assert(wanted.take(count as int) == wanted);
    dir
}

/// Computes the identifier of `file`.
pub fn identifier_of(file: &Vec<char>) -> (id: Vec<char>)
    ensures
        id@ == identifier(file@),
{
    let parts = components_of(file);
    let mut id: Vec<char> = Vec::new();
    let mut k: usize = 0;
    proof {
        assert(rows(parts@).len() == parts@.len());
    }
    while k < parts.len()
        invariant
            k <= parts.len(),
            rows(parts@) == components(file@),
            id@ == join_kept(rows(parts@).take(k as int)),
        decreases parts.len() - k,
    {
        proof {
            let next = rows(parts@).take(k + 1);
            assert(next.drop_last() == rows(parts@).take(k as int));
            assert(next.last() == parts@[k as int]@);
        }
        if !noise(&parts[k]) {
            if id.len() > 0 {
                id.push(SEPARATOR);
            }
            push_all(&mut id, &parts[k]);
        }
        k += 1;
    }
    assert(rows(parts@).take(parts.len() as int) == rows(parts@));
    id
}

/// Finds the first group that goes to `dir`.
fn find_group(groups: &Vec<(Vec<String>, String)>, dir: &String) -> (r: Option<usize>)
    ensures
        match r {
            Some(k) => k == position(groups_view(groups@), dir@),
            None => position(groups_view(groups@), dir@) < 0,
        },
{
    let mut k: usize = 0;
    let ghost gv = groups_view(groups@);
    while k < groups.len()
        invariant
            k <= groups.len(),
            gv == groups_view(groups@),
            position(gv.take(k as int), dir@) < 0,
        decreases groups.len() - k,
    {
        proof {
            assert(gv.take(k + 1).drop_last() == gv.take(k as int));
            assert(gv.take(k + 1).last() == gv[k as int]);
        }
        if groups[k].1 == *dir {
            proof {
                lemma_position_extends(gv, k as int, dir@);
            }
            return Some(k);
        }
        k += 1;
    }
    assert(gv.take(groups.len() as int) == gv);
    None
}

/// A position found in the first `k + 1` groups is the position in all.
proof fn lemma_position_extends(groups: Seq<GroupView>, k: int, dir: Seq<char>)
    requires
        0 <= k < groups.len(),
        position(groups.take(k + 1), dir) == k,
    ensures
        position(groups, dir) == k,
    decreases groups.len(),
{
    if groups.len() > k + 1 {
        assert(groups.drop_last().take(k + 1) == groups.take(k + 1));
        lemma_position_extends(groups.drop_last(), k, dir);
    } else {
        assert(groups.take(k + 1) == groups);
    }
}

/// Groups `files_to_copy` by the directory under `target` that each goes to.
///
/// A file's directory is `target` followed by the directories that the file
/// has below `base`; a file that does not lie under `base` keeps the
/// directories of its whole path. The groups are in the order in which their
/// directories first occur, and within a group the files are in the order
/// given.
pub fn map_path_to_target(files_to_copy: Vec<String>, target: String, base: String) -> (r: Vec<
    (Vec<String>, String),
>)
    ensures
        groups_view(r@) == mapping(texts(files_to_copy@), target@, base@),
{
    let target_chars = chars_of(target.as_str());
    let base_chars = chars_of(base.as_str());
    let mut r: Vec<(Vec<String>, String)> = Vec::new();
    let ghost files = texts(files_to_copy@);
    let mut i: usize = 0;
    proof {
        assert(groups_view(r@) == Seq::<GroupView>::empty());
        assert(files.take(0) == Seq::<Seq<char>>::empty());
    }
    while i < files_to_copy.len()
        invariant
            i <= files_to_copy.len(),
            files == texts(files_to_copy@),
            target_chars@ == target@,
            base_chars@ == base@,
            groups_view(r@) == mapping(files.take(i as int), target@, base@),
        decreases files_to_copy.len() - i,
    {
        let file = chars_of(files_to_copy[i].as_str());
        let dir = string_of(&destination_of(&target_chars, &base_chars, &file));
        let id = string_of(&identifier_of(&file));
        let ghost before = groups_view(r@);
        proof {
            let next = files.take(i + 1);
            assert(next.drop_last() == files.take(i as int));
            assert(next.last() == file@);
            lemma_position(before, dir@);
        }
        match find_group(&r, &dir) {
            Some(k) => {
                let ghost earlier = r@;
                r[k].0.push(id);
                proof {
                    let wanted = before.update(k as int, (before[k as int].0.push(id@), dir@));
                    assert(r@.len() == earlier.len());
                    assert(r@[k as int].0@ == earlier[k as int].0@.push(id));
                    assert(r@[k as int].1 == earlier[k as int].1);
                    assert(texts(r@[k as int].0@) == texts(earlier[k as int].0@).push(id@));
                    assert forall|j: int| 0 <= j < r@.len() implies groups_view(r@)[j]
                        == wanted[j] by {
                        if j != k {
                            assert(r@[j] == earlier[j]);
                        }
                    }
                    assert(groups_view(r@) == wanted);
                }
            },
            None => {
                let mut ids: Vec<String> = Vec::new();
                ids.push(id);
                assert(texts(ids@) == seq![id@]);
                r.push((ids, dir));
                assert(groups_view(r@) == before.push((seq![id@], dir@)));
            },
        }
        i += 1;
    }
    assert(files.take(files_to_copy.len() as int) == files);
    r
}

} // verus!
