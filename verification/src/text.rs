//! Conversions between strings and character vectors, and small helpers on
//! character sequences that the path and journal code share.

use vstd::prelude::*;

verus! {

/// The characters of `s`, in order.
pub(crate) fn chars_of(s: &str) -> (v: Vec<char>)
    ensures
        v@ == s@,
{
    let mut v: Vec<char> = Vec::new();
    for c in it: s.chars()
        invariant
            v@ == it.seq().take(it.index()),
            it.seq() == s@,
    {
        v.push(c);
    }
    v
}

/// The string made of the characters of `v`, in order.
///
/// Trusted: collects an iterator of `char` into a `String`, which appends each
/// character in turn.
#[verifier::external_body]
pub(crate) fn string_of(v: &Vec<char>) -> (s: String)
    ensures
        s@ == v@,
{
    v.iter().collect()
}

/// Whether two character vectors hold the same characters.
pub(crate) fn chars_eq(a: &Vec<char>, b: &Vec<char>) -> (r: bool)
    ensures
        r == (a@ == b@),
{
    if a.len() != b.len() {
        return false;
    }
    let mut i: usize = 0;
    while i < a.len()
        invariant
            a.len() == b.len(),
            i <= a.len(),
            a@.subrange(0, i as int) == b@.subrange(0, i as int),
        decreases a.len() - i,
    {
        if a[i] != b[i] {
            return false;
        }
        assert(a@.subrange(0, i + 1) == a@.subrange(0, i as int).push(a@[i as int]));
        assert(b@.subrange(0, i + 1) == b@.subrange(0, i as int).push(b@[i as int]));
        i += 1;
    }
    assert(a@ == a@.subrange(0, a.len() as int));
    assert(b@ == b@.subrange(0, b.len() as int));
    true
}

/// The first index at or after `i` that holds a line feed, or the length of
/// `t` if there is none.
pub open spec fn line_end(t: Seq<char>, i: int) -> int
    decreases t.len() - i,
{
    if i >= t.len() {
        t.len() as int
    } else if t[i] == '\n' {
        i
    } else {
        line_end(t, i + 1)
    }
}

/// `line` without one carriage return at its end, if it has one.
pub open spec fn strip_cr(line: Seq<char>) -> Seq<char> {
    if line.len() > 0 && line.last() == '\r' {
        line.drop_last()
    } else {
        line
    }
}

/// The lines of `t` from index `i` on, where `i` starts a line.
///
/// A line ends at a line feed, which is not part of it, and loses a carriage
/// return that stands right before the line feed. Text after the last line
/// feed is a line of its own if it is not empty.
pub open spec fn lines_from(t: Seq<char>, i: int) -> Seq<Seq<char>>
    decreases t.len() - i,
{
    if i >= t.len() || i < 0 {
        seq![]
    } else {
        let e = line_end(t, i);
        if i <= e < t.len() {
            seq![strip_cr(t.subrange(i, e))] + lines_from(t, e + 1)
        } else {
            seq![t.subrange(i, t.len() as int)]
        }
    }
}

/// The lines of `t`.
pub open spec fn lines(t: Seq<char>) -> Seq<Seq<char>> {
    lines_from(t, 0)
}

/// `line_end` stays between its start and the end of the text, stops on a
/// line feed, and passes none.
pub proof fn lemma_line_end(t: Seq<char>, i: int)
    requires
        0 <= i <= t.len(),
    ensures
        i <= line_end(t, i) <= t.len(),
        line_end(t, i) < t.len() ==> t[line_end(t, i)] == '\n',
        forall|j: int| i <= j < line_end(t, i) ==> t[j] != '\n',
    decreases t.len() - i,
{
    if i < t.len() && t[i] != '\n' {
        lemma_line_end(t, i + 1);
    }
}

/// The character sequences that a list of character vectors holds.
pub open spec fn rows(v: Seq<Vec<char>>) -> Seq<Seq<char>> {
    Seq::new(v.len(), |k: int| v[k]@)
}

/// Splits `t` into its lines.
pub fn split_lines(t: &Vec<char>) -> (r: Vec<Vec<char>>)
    ensures
        rows(r@) == lines(t@),
{
    let n = t.len();
    let mut r: Vec<Vec<char>> = Vec::new();
    let mut i: usize = 0;
    assert(rows(r@) == Seq::<Seq<char>>::empty());
    while i < n
        invariant
            n == t.len(),
            i <= n,
            lines(t@) == rows(r@) + lines_from(t@, i as int),
        decreases n - i,
    {
        let mut e: usize = i;
        while e < n && t[e] != '\n'
            invariant
                i <= e <= n,
                n == t.len(),
                line_end(t@, i as int) == line_end(t@, e as int),
            decreases n - e,
        {
            e += 1;
        }
        let mut stop: usize = e;
        if e < n && e > i && t[e - 1] == '\r' {
            stop = e - 1;
        }
        let mut line: Vec<char> = Vec::new();
        let mut j: usize = i;
        while j < stop
            invariant
                i <= j <= stop <= n,
                n == t.len(),
                line@ == t@.subrange(i as int, j as int),
            decreases stop - j,
        {
            line.push(t[j]);
            j += 1;
        }
        proof {
            let whole = t@.subrange(i as int, e as int);
            if e < n {
                if e > i && t@[e - 1] == '\r' {
                    assert(whole.last() == '\r');
                    assert(whole.drop_last() == t@.subrange(i as int, e - 1));
                } else if e > i {
                    assert(whole.last() == t@[e - 1]);
                }
                assert(line@ == strip_cr(whole));
            }
        }
        let ghost before = rows(r@);
        r.push(line);
        assert(rows(r@) == before.push(line@));
        if e < n {
            i = e + 1;
        } else {
            i = n;
        }
    }
    r
}

/// Appends the characters of `more` to `text`.
pub(crate) fn push_all(text: &mut Vec<char>, more: &Vec<char>)
    ensures
        final(text)@ == old(text)@ + more@,
{
    let mut j: usize = 0;
    while j < more.len()
        invariant
            j <= more.len(),
            text@ == old(text)@ + more@.take(j as int),
        decreases more.len() - j,
    {
        text.push(more[j]);
        assert(more@.take(j + 1) == more@.take(j as int).push(more@[j as int]));
        j += 1;
    }
    assert(more@.take(more.len() as int) == more@);
}

/// The character sequences that a list of strings holds.
pub open spec fn texts(v: Seq<String>) -> Seq<Seq<char>> {
    Seq::new(v.len(), |k: int| v[k]@)
}

} // verus!
