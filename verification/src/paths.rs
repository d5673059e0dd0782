//! A model of slash-separated paths and the operations the synchroniser needs
//! on them: splitting into components, stripping a prefix, joining.
//!
//! A path is a sequence of characters. Its components are the root `/` if it
//! starts with one, a leading `.` if it starts with `./` or is `.` alone, and
//! every other non-empty segment between separators that is not `.`. Repeated
//! and trailing separators therefore never show up as components.

use vstd::prelude::*;
use crate::text::chars_of;
use crate::text::string_of;
use crate::text::chars_eq;
use crate::text::push_all;
use crate::text::rows;

verus! {

/// The character that separates the components of a path.
pub const SEPARATOR: char = '/';

/// The first index at or after `i` that holds a separator, or the length of
/// `p` if there is none.
pub open spec fn segment_end(p: Seq<char>, i: int) -> int
    decreases p.len() - i,
{
    if i >= p.len() {
        p.len() as int
    } else if p[i] == SEPARATOR {
        i
    } else {
        segment_end(p, i + 1)
    }
}

/// A segment that is no component: the empty one, left by a doubled or
/// trailing separator, and `.`.
pub open spec fn is_skipped(seg: Seq<char>) -> bool {
    seg.len() == 0 || seg == seq!['.']
}

/// Whether `p` starts at the root.
pub open spec fn has_root(p: Seq<char>) -> bool {
    p.len() > 0 && p[0] == SEPARATOR
}

/// Whether `p` is `.` or starts with `./`.
pub open spec fn has_leading_cur_dir(p: Seq<char>) -> bool {
    p.len() > 0 && p[0] == '.' && (p.len() == 1 || p[1] == SEPARATOR)
}

/// 1 if `p` opens with a root or a leading `.`, which is a component of one
/// character, else 0.
pub open spec fn lead_len(p: Seq<char>) -> int {
    if has_root(p) || has_leading_cur_dir(p) {
        1
    } else {
        0
    }
}

/// The spans `(start, end)` of the components that begin at or after `i`,
/// where `i` is the start of a segment.
pub open spec fn body_spans(p: Seq<char>, i: int) -> Seq<(int, int)>
    decreases p.len() - i,
{
    if i >= p.len() || i < 0 {
        seq![]
    } else {
        let e = segment_end(p, i);
        let rest = if i <= e < p.len() {
            body_spans(p, e + 1)
        } else {
            seq![]
        };
        if is_skipped(p.subrange(i, e)) {
            rest
        } else {
            seq![(i, e)] + rest
        }
    }
}

/// The spans of all components of `p`, in order.
pub open spec fn spans(p: Seq<char>) -> Seq<(int, int)> {
    if lead_len(p) == 1 {
        seq![(0int, 1int)] + body_spans(p, 1)
    } else {
        body_spans(p, 0)
    }
}

/// The components of `p`, in order.
pub open spec fn components(p: Seq<char>) -> Seq<Seq<char>> {
    Seq::new(spans(p).len(), |k: int| p.subrange(spans(p)[k].0, spans(p)[k].1))
}

/// Whether a segment can end at `e`: at a separator or at the end of `p`.
pub open spec fn is_boundary(p: Seq<char>, e: int) -> bool {
    e == p.len() || (0 <= e < p.len() && p[e] == SEPARATOR)
}

/// `sp` with every span moved by `d`.
pub open spec fn shifted(sp: Seq<(int, int)>, d: int) -> Seq<(int, int)> {
    Seq::new(sp.len(), |k: int| (sp[k].0 + d, sp[k].1 + d))
}

/// The spans of an executable span list as pairs of integers.
pub open spec fn int_spans(r: Seq<(usize, usize)>) -> Seq<(int, int)> {
    Seq::new(r.len(), |k: int| (r[k].0 as int, r[k].1 as int))
}

/// What is left of `p` once its first `n` components are taken away: the
/// text from the start of the next component to the end of the last one, so
/// that separators in between stay as they were written and trailing ones
/// are dropped. With `n == 0` the text starts at the start of `p`.
pub open spec fn remainder(p: Seq<char>, n: int) -> Seq<char> {
    let sp = spans(p);
    if n >= sp.len() {
        Seq::empty()
    } else {
        p.subrange(
            if n <= 0 {
                0
            } else {
                sp[n].0
            },
            sp[sp.len() - 1].1,
        )
    }
}

/// Whether the components `a` open the components `b`.
pub open spec fn opens(a: Seq<Seq<char>>, b: Seq<Seq<char>>) -> bool {
    a.len() <= b.len() && forall|k: int| 0 <= k < a.len() ==> a[k] == b[k]
}

/// `child` without the components of `base` in front, if the components of
/// `base` open those of `child`.
pub open spec fn strip_prefix(child: Seq<char>, base: Seq<char>) -> Option<Seq<char>> {
    if opens(components(base), components(child)) {
        Some(remainder(child, components(base).len() as int))
    } else {
        None
    }
}

/// The path of `child` relative to `parent`.
///
/// If `parent` opens `child`, this is `child` without it. Otherwise, if
/// `parent` has more than one component, its last component is tried in its
/// place, which finds a child that is written relative to the directory
/// above `parent`.
pub open spec fn relative_path(parent: Seq<char>, child: Seq<char>) -> Option<Seq<char>> {
    match strip_prefix(child, parent) {
        Some(r) => Some(r),
        None => if components(parent).len() <= 1 {
            None
        } else {
            strip_prefix(child, components(parent).last())
        },
    }
}

/// Whether the components `a` close the components `b`.
pub open spec fn closes(a: Seq<Seq<char>>, b: Seq<Seq<char>>) -> bool {
    a.len() <= b.len() && forall|k: int| 0 <= k < a.len() ==> a[k] == b[b.len() - a.len() + k]
}

/// Whether the path `p` ends with the path `suffix`, component for
/// component.
pub open spec fn ends_with(p: Seq<char>, suffix: Seq<char>) -> bool {
    closes(components(suffix), components(p))
}

/// Whether `a` and `b` name the same path: their components are the same.
pub open spec fn same_path(a: Seq<char>, b: Seq<char>) -> bool {
    components(a) == components(b)
}

/// The path `rel` taken below `base`. A rooted `rel` stands for itself;
/// otherwise it follows `base`, after a separator unless `base` is empty or
/// ends with one.
pub open spec fn joined(base: Seq<char>, rel: Seq<char>) -> Seq<char> {
    if has_root(rel) {
        rel
    } else if base.len() > 0 && base.last() != SEPARATOR {
        base + seq![SEPARATOR] + rel
    } else {
        base + rel
    }
}

/// Whether `r` is a tidy relative path: the empty path, or one that starts
/// with a component other than the root and a leading `.`, and ends with a
/// component. Separators may be doubled in between.
pub open spec fn is_tidy(r: Seq<char>) -> bool {
    r.len() == 0 || (lead_len(r) == 0 && body_spans(r, 0).len() > 0 && body_spans(r, 0)[body_spans(
        r,
        0,
    ).len() - 1].1 == r.len())
}

/// `segment_end` stays between its start and the end of the path, stops on a
/// separator, and passes none.
pub proof fn lemma_segment_end(p: Seq<char>, i: int)
    requires
        0 <= i <= p.len(),
    ensures
        i <= segment_end(p, i) <= p.len(),
        segment_end(p, i) < p.len() ==> p[segment_end(p, i)] == SEPARATOR,
        forall|j: int| i <= j < segment_end(p, i) ==> p[j] != SEPARATOR,
    decreases p.len() - i,
{
    if i < p.len() && p[i] != SEPARATOR {
        lemma_segment_end(p, i + 1);
    }
}

/// Every span of `body_spans` lies inside the path and is not empty; the
/// spans follow one another, with at least one character in between.
pub proof fn lemma_body_spans_bounds(p: Seq<char>, i: int)
    requires
        0 <= i,
    ensures
        forall|k: int|
            0 <= k < body_spans(p, i).len() ==> {
                &&& i <= (#[trigger] body_spans(p, i)[k]).0 < body_spans(p, i)[k].1 <= p.len()
            },
        forall|k: int, l: int|
            0 <= k < l < body_spans(p, i).len() ==> (#[trigger] body_spans(p, i)[k]).1 < (
            #[trigger] body_spans(p, i)[l]).0,
    decreases p.len() - i,
{
    if i < p.len() {
        lemma_segment_end(p, i);
        let e = segment_end(p, i);
        if e < p.len() {
            lemma_body_spans_bounds(p, e + 1);
        }
        let rest: Seq<(int, int)> = if e < p.len() {
            body_spans(p, e + 1)
        } else {
            seq![]
        };
        if !is_skipped(p.subrange(i, e)) {
            let all = body_spans(p, i);
            assert(all == seq![(i, e)] + rest);
            assert forall|k: int| 0 <= k < all.len() implies i <= (#[trigger] all[k]).0 < all[k].1
                <= p.len() by {
                if k > 0 {
                    assert(all[k] == rest[k - 1]);
                }
            }
            assert forall|k: int, l: int| 0 <= k < l < all.len() implies (#[trigger] all[k]).1 < (
            #[trigger] all[l]).0 by {
                assert(all[l] == rest[l - 1]);
                if k > 0 {
                    assert(all[k] == rest[k - 1]);
                }
            }
        }
    }
}

/// Every span of `spans` lies inside the path and is not empty; the spans
/// follow one another.
pub proof fn lemma_spans_bounds(p: Seq<char>)
    ensures
        forall|k: int|
            0 <= k < spans(p).len() ==> 0 <= (#[trigger] spans(p)[k]).0 < spans(p)[k].1 <= p.len(),
        forall|k: int, l: int|
            0 <= k < l < spans(p).len() ==> (#[trigger] spans(p)[k]).1 <= (#[trigger] spans(
                p,
            )[l]).0,
        components(p).len() == spans(p).len(),
{
    if lead_len(p) == 1 {
        lemma_body_spans_bounds(p, 1);
        let rest = body_spans(p, 1);
        let all = spans(p);
        assert(all == seq![(0int, 1int)] + rest);
        assert forall|k: int| 0 <= k < all.len() implies 0 <= (#[trigger] all[k]).0 < all[k].1
            <= p.len() by {
            if k > 0 {
                assert(all[k] == rest[k - 1]);
            }
        }
        assert forall|k: int, l: int| 0 <= k < l < all.len() implies (#[trigger] all[k]).1 <= (
        #[trigger] all[l]).0 by {
            assert(all[l] == rest[l - 1]);
            if k > 0 {
                assert(all[k] == rest[k - 1]);
            }
        }
    } else {
        lemma_body_spans_bounds(p, 0);
    }
}

/// A segment ends at the same place whether it is looked for in `p` or in a
/// window of `p` that ends at a boundary.
proof fn lemma_segment_end_window(p: Seq<char>, s: int, e: int, i: int)
    requires
        0 <= s,
        0 <= i,
        s + i <= e <= p.len(),
        is_boundary(p, e),
    ensures
        segment_end(p.subrange(s, e), i) + s == segment_end(p, s + i),
    decreases e - s - i,
{
    let q = p.subrange(s, e);
    if s + i < e {
        assert(q[i] == p[s + i]);
        if q[i] != SEPARATOR {
            lemma_segment_end_window(p, s, e, i + 1);
        }
    }
}

/// The spans of a window of `p` that ends at a boundary behind which no
/// component follows are the spans of `p` from the start of the window on,
/// moved to the window.
proof fn lemma_body_spans_window(p: Seq<char>, s: int, e: int, i: int)
    requires
        0 <= s,
        0 <= i,
        s + i <= e <= p.len(),
        is_boundary(p, e),
        e < p.len() ==> body_spans(p, e + 1) == Seq::<(int, int)>::empty(),
    ensures
        body_spans(p.subrange(s, e), i) == shifted(body_spans(p, s + i), -s),
    decreases e - s - i,
{
    let q = p.subrange(s, e);
    if s + i >= e {
        assert(body_spans(q, i) == Seq::<(int, int)>::empty());
        if e < p.len() {
            assert(segment_end(p, e) == e);
            assert(p.subrange(e, e).len() == 0);
        }
        assert(body_spans(p, s + i) == Seq::<(int, int)>::empty());
        assert(shifted(body_spans(p, s + i), -s) == Seq::<(int, int)>::empty());
    } else {
        lemma_segment_end_window(p, s, e, i);
        lemma_segment_end(p, s + i);
        lemma_segment_end(q, i);
        let eq = segment_end(q, i);
        let ep = segment_end(p, s + i);
        assert(q.subrange(i, eq) == p.subrange(s + i, ep));
        let rest_q: Seq<(int, int)> = if eq < q.len() {
            body_spans(q, eq + 1)
        } else {
            seq![]
        };
        let rest_p: Seq<(int, int)> = if ep < p.len() {
            body_spans(p, ep + 1)
        } else {
            seq![]
        };
        if eq < q.len() {
            lemma_body_spans_window(p, s, e, eq + 1);
        }
        assert(rest_q == shifted(rest_p, -s));
        if !is_skipped(q.subrange(i, eq)) {
            assert(body_spans(q, i) == seq![(i, eq)] + rest_q);
            assert(body_spans(p, s + i) == seq![(s + i, ep)] + rest_p);
            assert(shifted(seq![(s + i, ep)] + rest_p, -s) =~= seq![(i, eq)] + shifted(
                rest_p,
                -s,
            ));
        }
    }
}

/// What follows a component: the spans from the start of the `k`-th
/// component on are the spans from the `k`-th on, and the spans behind its
/// end are the spans after it. A component is no skipped segment and ends at
/// a boundary.
proof fn lemma_body_spans_suffix(p: Seq<char>, i: int, k: int)
    requires
        0 <= i,
        0 <= k < body_spans(p, i).len(),
    ensures
        body_spans(p, body_spans(p, i)[k].0) == body_spans(p, i).skip(k),
        segment_end(p, body_spans(p, i)[k].0) == body_spans(p, i)[k].1,
        !is_skipped(p.subrange(body_spans(p, i)[k].0, body_spans(p, i)[k].1)),
        is_boundary(p, body_spans(p, i)[k].1),
        body_spans(p, i)[k].1 < p.len() ==> body_spans(p, body_spans(p, i)[k].1 + 1)
            == body_spans(p, i).skip(k + 1),
        body_spans(p, i)[k].1 >= p.len() ==> body_spans(p, i).len() == k + 1,
    decreases p.len() - i,
{
    let b = body_spans(p, i);
    lemma_segment_end(p, i);
    let e = segment_end(p, i);
    let rest: Seq<(int, int)> = if e < p.len() {
        body_spans(p, e + 1)
    } else {
        seq![]
    };
    if is_skipped(p.subrange(i, e)) {
        assert(b == rest);
        lemma_body_spans_suffix(p, e + 1, k);
    } else {
        assert(b == seq![(i, e)] + rest);
        if k == 0 {
            assert(b.skip(0) == b);
            assert(b.skip(1) == rest);
        } else {
            assert(b[k] == rest[k - 1]);
            lemma_body_spans_suffix(p, e + 1, k - 1);
            assert(b.skip(k) == rest.skip(k - 1));
            assert(b.skip(k + 1) == rest.skip(k));
        }
    }
}

/// Without a root or a leading `.`, a path that has components starts with
/// one.
proof fn lemma_first_span(p: Seq<char>)
    requires
        lead_len(p) == 0,
        body_spans(p, 0).len() > 0,
    ensures
        body_spans(p, 0)[0].0 == 0,
{
    lemma_segment_end(p, 0);
    let e = segment_end(p, 0);
    let seg = p.subrange(0, e);
    if is_skipped(seg) {
        if seg.len() == 0 {
            assert(p.len() > 0);
            assert(p[0] == SEPARATOR);
        } else {
            assert(seg[0] == '.');
            assert(seg.len() == 1);
            assert(p[0] == '.');
        }
    }
}

/// The case of `lemma_remainder_components` in which nothing is taken from
/// a path that opens with a root or a leading `.`.
proof fn lemma_remainder_whole(p: Seq<char>)
    requires
        lead_len(p) == 1,
    ensures
        components(remainder(p, 0)) == components(p),
{
    let sp = spans(p);
    let b = body_spans(p, 1);
    lemma_body_spans_bounds(p, 1);
    assert(sp == seq![(0int, 1int)] + b);
    let e = sp[sp.len() - 1].1;
    let r = p.subrange(0, e);
    assert(remainder(p, 0) == r);
    if b.len() == 0 {
        assert(e == 1);
        assert(r[0] == p[0]);
        assert(lead_len(r) == 1);
        assert(body_spans(r, 1) == Seq::<(int, int)>::empty());
        assert(spans(r) == sp);
    } else {
        assert(sp[sp.len() - 1] == b[b.len() - 1]);
        lemma_body_spans_suffix(p, 1, b.len() - 1);
        assert(b.skip(b.len() as int) == Seq::<(int, int)>::empty());
        assert(b[b.len() - 1].0 >= 1);
        assert(e >= 2);
        assert(r[0] == p[0]);
        assert(r[1] == p[1]);
        assert(lead_len(r) == 1);
        lemma_body_spans_window(p, 0, e, 1);
        assert(shifted(b, 0) =~= b);
        assert(spans(r) == sp);
    }
    assert forall|k: int| 0 <= k < sp.len() implies r.subrange(sp[k].0, sp[k].1) == p.subrange(
        sp[k].0,
        sp[k].1,
    ) by {
        if k > 0 {
            assert(sp[k] == b[k - 1]);
            if k - 1 < b.len() - 1 {
                assert(b[k - 1].1 < b[b.len() - 1].0);
            }
        }
        assert(sp[k].1 <= e);
    }
    assert(components(r) =~= components(p));
}

/// The case of `lemma_remainder_components` in which what is left starts at
/// the `k`-th of the components that follow the root or the leading `.`.
proof fn lemma_remainder_from_body(p: Seq<char>, k: int)
    requires
        0 <= k < body_spans(p, lead_len(p)).len(),
    ensures
        components(p.subrange(
            body_spans(p, lead_len(p))[k].0,
            body_spans(p, lead_len(p))[body_spans(p, lead_len(p)).len() - 1].1,
        )) == Seq::new(
            (body_spans(p, lead_len(p)).len() - k) as nat,
            |j: int|
                p.subrange(
                    body_spans(p, lead_len(p))[k + j].0,
                    body_spans(p, lead_len(p))[k + j].1,
                ),
        ),
{
    let lead = lead_len(p);
    let b = body_spans(p, lead);
    lemma_body_spans_bounds(p, lead);
    let s = b[k].0;
    let e = b[b.len() - 1].1;
    let first_end = b[k].1;
    let r = p.subrange(s, e);
    lemma_body_spans_suffix(p, lead, k);
    lemma_body_spans_suffix(p, lead, b.len() - 1);
    assert(b.skip(b.len() as int) == Seq::<(int, int)>::empty());
    lemma_segment_end(p, s);
    if k < b.len() - 1 {
        assert(b[k].1 < b[b.len() - 1].0);
    }
    assert(first_end <= e);
    assert(r.len() > 0);
    assert(r[0] == p[s]);
    assert(r[0] != SEPARATOR);
    if r[0] == '.' && (r.len() == 1 || r[1] == SEPARATOR) {
        if r.len() > 1 {
            assert(r[1] == p[s + 1]);
        }
        assert(first_end == s + 1);
        assert(p.subrange(s, first_end) =~= seq!['.']);
    }
    assert(lead_len(r) == 0);
    lemma_body_spans_window(p, s, e, 0);
    let tail = b.skip(k);
    assert(spans(r) == shifted(tail, -s));
    let wanted = Seq::new((b.len() - k) as nat, |j: int| p.subrange(b[k + j].0, b[k + j].1));
    assert forall|j: int| 0 <= j < tail.len() implies components(r)[j] == wanted[j] by {
        assert(tail[j] == b[k + j]);
        if j > 0 {
            assert(b[k].1 < b[k + j].0);
        }
        if k + j < b.len() - 1 {
            assert(b[k + j].1 < b[b.len() - 1].0);
        }
        assert(s <= tail[j].0 && tail[j].1 <= e);
        assert(r.subrange(tail[j].0 - s, tail[j].1 - s) == p.subrange(tail[j].0, tail[j].1));
    }
    assert(components(r) =~= wanted);
}

/// Stripping and splitting: what is left of a path after its first `n`
/// components has the other components of the path as its components.
pub proof fn lemma_remainder_components(p: Seq<char>, n: int)
    requires
        0 <= n <= components(p).len(),
    ensures
        components(remainder(p, n)) == components(p).skip(n),
{
    let sp = spans(p);
    let lead = lead_len(p);
    let b = body_spans(p, lead);
    let r = remainder(p, n);
    if n >= sp.len() {
        assert(r.len() == 0);
        assert(spans(r) == Seq::<(int, int)>::empty());
        assert(components(r) =~= components(p).skip(n));
    } else if lead == 1 && n == 0 {
        lemma_remainder_whole(p);
        assert(components(p).skip(0) =~= components(p));
    } else {
        let k = n - lead;
        if lead == 0 {
            lemma_first_span(p);
            assert(sp == b);
        } else {
            assert(sp == seq![(0int, 1int)] + b);
        }
        assert(sp[n] == b[k]);
        assert(sp[sp.len() - 1] == b[b.len() - 1]);
        assert(r == p.subrange(b[k].0, b[b.len() - 1].1));
        lemma_remainder_from_body(p, k);
        let rest = components(p).skip(n);
        assert(components(r).len() == rest.len());
        assert forall|j: int| 0 <= j < rest.len() implies components(r)[j] == #[trigger] rest[j] by {
            assert(sp[n + j] == b[k + j]);
        }
        assert(components(r) =~= rest);
    }
}

/// A path that is not empty has a component.
proof fn lemma_has_component(p: Seq<char>)
    requires
        p.len() > 0,
    ensures
        spans(p).len() > 0,
{
    if lead_len(p) == 0 {
        lemma_segment_end(p, 0);
        let e = segment_end(p, 0);
        let seg = p.subrange(0, e);
        if is_skipped(seg) {
            if seg.len() == 0 {
                assert(p[0] == SEPARATOR);
            } else {
                assert(seg.len() == 1);
                assert(seg[0] == '.');
                assert(p[0] == '.');
            }
        }
    }
}

/// A segment that ends inside `q` ends at the same place when more text
/// follows `q`.
proof fn lemma_segment_end_prefix(q: Seq<char>, r: Seq<char>, i: int)
    requires
        0 <= i <= q.len(),
        segment_end(q, i) < q.len(),
    ensures
        segment_end(q + r, i) == segment_end(q, i),
    decreases q.len() - i,
{
    if i < q.len() {
        assert((q + r)[i] == q[i]);
        if q[i] != SEPARATOR {
            lemma_segment_end_prefix(q, r, i + 1);
        }
    }
}

/// Behind a text that ends with a separator, what follows is split on its
/// own: the spans of the whole are the spans of the text and then the spans
/// from its end on.
proof fn lemma_body_spans_prefix(q: Seq<char>, r: Seq<char>, i: int)
    requires
        0 <= i <= q.len(),
        q.len() > 0,
        q[q.len() - 1] == SEPARATOR,
    ensures
        body_spans(q + r, i) == body_spans(q, i) + body_spans(q + r, q.len() as int),
    decreases q.len() - i,
{
    let x = q + r;
    if i < q.len() {
        lemma_segment_end(q, i);
        let e = segment_end(q, i);
        assert(e < q.len());
        lemma_segment_end_prefix(q, r, i);
        assert(x.subrange(i, e) == q.subrange(i, e));
        lemma_body_spans_prefix(q, r, e + 1);
        let rest_q = body_spans(q, e + 1);
        let tail = body_spans(x, q.len() as int);
        if !is_skipped(q.subrange(i, e)) {
            assert(body_spans(q, i) == seq![(i, e)] + rest_q);
            assert(body_spans(x, i) == seq![(i, e)] + (rest_q + tail));
            assert(seq![(i, e)] + (rest_q + tail) =~= (seq![(i, e)] + rest_q) + tail);
        }
    } else {
        assert(body_spans(q, i) == Seq::<(int, int)>::empty());
        assert(Seq::<(int, int)>::empty() + body_spans(x, i) =~= body_spans(x, i));
    }
}

/// A separator at the end of a path adds no component and moves none.
proof fn lemma_trailing_separator(p: Seq<char>)
    requires
        p.len() > 0,
    ensures
        spans(p + seq![SEPARATOR]) == spans(p),
{
    let q = p + seq![SEPARATOR];
    let lead = lead_len(p);
    assert(q[0] == p[0]);
    if p.len() > 1 {
        assert(q[1] == p[1]);
    } else {
        assert(q[1] == SEPARATOR);
    }
    assert(lead_len(q) == lead);
    assert(q[p.len() as int] == SEPARATOR);
    assert(body_spans(q, (p.len() + 1) as int) == Seq::<(int, int)>::empty());
    lemma_body_spans_window(q, 0, p.len() as int, lead);
    assert(q.subrange(0, p.len() as int) == p);
    assert(shifted(body_spans(q, lead), 0) =~= body_spans(q, lead));
}

/// Joining and stripping: a tidy relative path that is taken below `parent`
/// is found again when `parent` is stripped, character for character.
pub proof fn lemma_relative_of_joined(parent: Seq<char>, r: Seq<char>)
    requires
        is_tidy(r),
    ensures
        strip_prefix(joined(parent, r), parent) == Some(r),
        relative_path(parent, joined(parent, r)) == Some(r),
{
    let x = joined(parent, r);
    let br = body_spans(r, 0);
    assert(!has_root(r));
    if r.len() > 0 {
        lemma_first_span(r);
        assert(spans(r) == br);
    } else {
        assert(br == Seq::<(int, int)>::empty());
    }
    if parent.len() == 0 {
        assert(x =~= r);
        assert(spans(parent) == Seq::<(int, int)>::empty());
        assert(components(parent).len() == 0);
        if r.len() > 0 {
            assert(remainder(r, 0) =~= r);
        } else {
            assert(spans(r) == Seq::<(int, int)>::empty());
            assert(remainder(r, 0) =~= r);
        }
    } else {
        let q = if parent[parent.len() - 1] == SEPARATOR {
            parent
        } else {
            parent + seq![SEPARATOR]
        };
        assert(x =~= q + r);
        if parent[parent.len() - 1] != SEPARATOR {
            lemma_trailing_separator(parent);
        }
        assert(spans(q) == spans(parent));
        let lead = lead_len(q);
        let n = spans(parent).len() as int;
        lemma_has_component(parent);
        lemma_spans_bounds(parent);
        // The lead of the joined path is the lead of `q`.
        assert(x[0] == q[0]);
        if q.len() > 1 {
            assert(x[1] == q[1]);
        } else {
            assert(q[0] == SEPARATOR);
        }
        assert(lead_len(x) == lead);
        lemma_body_spans_prefix(q, r, lead);
        lemma_body_spans_window(x, q.len() as int, x.len() as int, 0);
        assert(x.subrange(q.len() as int, x.len() as int) =~= r);
        let tail = body_spans(x, q.len() as int);
        assert(br == shifted(tail, -q.len()));
        assert(tail =~= shifted(br, q.len() as int)) by {
            assert(tail.len() == br.len());
            assert forall|k: int| 0 <= k < tail.len() implies tail[k] == shifted(
                br,
                q.len() as int,
            )[k] by {
                assert(br[k] == shifted(tail, -q.len())[k]);
            }
        }
        assert(spans(x) =~= spans(q) + tail) by {
            if lead == 1 {
                assert(spans(x) == seq![(0int, 1int)] + (body_spans(q, 1) + tail));
                assert(spans(q) == seq![(0int, 1int)] + body_spans(q, 1));
            }
        }
        assert forall|k: int| 0 <= k < n implies components(parent)[k] == components(x)[k] by {
            assert(spans(x)[k] == spans(parent)[k]);
            assert(spans(parent)[k].1 <= parent.len());
            assert(x.subrange(spans(parent)[k].0, spans(parent)[k].1) =~= parent.subrange(
                spans(parent)[k].0,
                spans(parent)[k].1,
            ));
        }
        assert(opens(components(parent), components(x)));
        if r.len() == 0 {
            assert(spans(x).len() == n);
            assert(remainder(x, n) =~= r);
        } else {
            assert(spans(x)[n] == tail[0]);
            assert(spans(x)[spans(x).len() - 1] == tail[tail.len() - 1]);
            assert(tail[0].0 == q.len());
            assert(tail[tail.len() - 1].1 == q.len() + r.len());
            assert(remainder(x, n) =~= r);
        }
    }
}

/// Stripping a prefix takes components off the front and nothing else: the
/// components of the prefix followed by the components of what is left are
/// the components of the path.
pub proof fn lemma_strip_prefix_components(child: Seq<char>, base: Seq<char>)
    requires
        strip_prefix(child, base) is Some,
    ensures
        components(base) + components(strip_prefix(child, base)->0) == components(child),
{
    let n = components(base).len() as int;
    lemma_remainder_components(child, n);
    assert(components(child).subrange(0, n) =~= components(base));
    assert(components(child).subrange(0, n) + components(child).skip(n) =~= components(child));
}

/// Finds the end of the segment that starts at `i`.
fn segment_end_at(p: &Vec<char>, i: usize) -> (e: usize)
    requires
        i <= p.len(),
    ensures
        e == segment_end(p@, i as int),
        i <= e <= p.len(),
{
    let mut j: usize = i;
    while j < p.len() && p[j] != SEPARATOR
        invariant
            i <= j <= p.len(),
            segment_end(p@, i as int) == segment_end(p@, j as int),
        decreases p.len() - j,
    {
        j += 1;
    }
    j
}

/// A copy of the characters of `p` from `a` up to `b`.
fn slice_of(p: &Vec<char>, a: usize, b: usize) -> (r: Vec<char>)
    requires
        a <= b <= p.len(),
    ensures
        r@ == p@.subrange(a as int, b as int),
{
    let mut r: Vec<char> = Vec::new();
    let mut j: usize = a;
    while j < b
        invariant
            a <= j <= b <= p.len(),
            r@ == p@.subrange(a as int, j as int),
        decreases b - j,
    {
        r.push(p[j]);
        j += 1;
    }
    r
}

/// Computes the spans of the components of `p`.
fn spans_of(p: &Vec<char>) -> (r: Vec<(usize, usize)>)
    ensures
        int_spans(r@) == spans(p@),
        forall|k: int| 0 <= k < r@.len() ==> (#[trigger] r@[k]).0 < r@[k].1 <= p.len(),
{
    let n = p.len();
    let mut r: Vec<(usize, usize)> = Vec::new();
    let mut i: usize = 0;
    if n > 0 && (p[0] == SEPARATOR || (p[0] == '.' && (n == 1 || p[1] == SEPARATOR))) {
        r.push((0, 1));
        i = 1;
        assert(int_spans(r@) == seq![(0int, 1int)]);
    } else {
        assert(int_spans(r@) == Seq::<(int, int)>::empty());
    }
    while i < n
        invariant
            n == p.len(),
            i <= n,
            spans(p@) == int_spans(r@) + body_spans(p@, i as int),
            forall|k: int| 0 <= k < r@.len() ==> (#[trigger] r@[k]).0 < r@[k].1 <= p.len(),
        decreases n - i,
    {
        let e = segment_end_at(p, i);
        let skipped = e == i || (e == i + 1 && p[i] == '.');
        proof {
            let seg = p@.subrange(i as int, e as int);
            if e == i + 1 && p[i as int] == '.' {
                assert(seg == seq!['.']);
            }
            if seg == seq!['.'] {
                assert(seg.len() == 1);
                assert(seg[0] == '.');
            }
            assert(skipped == is_skipped(seg));
        }
        let ghost before = int_spans(r@);
        if !skipped {
            r.push((i, e));
            assert(int_spans(r@) == before + seq![(i as int, e as int)]);
        }
        if e < n {
            i = e + 1;
        } else {
            i = n;
        }
    }
    r
}

/// Splits `p` into its components.
pub fn components_of(p: &Vec<char>) -> (r: Vec<Vec<char>>)
    ensures
        rows(r@) == components(p@),
{
    let sp = spans_of(p);
    let mut r: Vec<Vec<char>> = Vec::new();
    let mut k: usize = 0;
    proof {
        assert(int_spans(sp@).len() == sp@.len());
        assert(rows(r@) == components(p@).take(0));
    }
    while k < sp.len()
        invariant
            k <= sp.len(),
            int_spans(sp@) == spans(p@),
            sp@.len() == spans(p@).len(),
            forall|j: int| 0 <= j < sp@.len() ==> (#[trigger] sp@[j]).0 < sp@[j].1 <= p.len(),
            rows(r@) == components(p@).take(k as int),
        decreases sp.len() - k,
    {
        let (a, b) = sp[k];
        let c = slice_of(p, a, b);
        let ghost before = rows(r@);
        r.push(c);
        proof {
            assert(int_spans(sp@)[k as int] == (a as int, b as int));
            assert(rows(r@) == before.push(c@));
            assert(components(p@).take(k + 1) == components(p@).take(k as int).push(
                components(p@)[k as int],
            ));
        }
        k += 1;
    }
    assert(components(p@).take(sp.len() as int) == components(p@));
    r
}

/// Whether the first `a.len()` rows of `b` equal those of `a`.
fn rows_open(a: &Vec<Vec<char>>, b: &Vec<Vec<char>>) -> (r: bool)
    ensures
        r == opens(rows(a@), rows(b@)),
{
    if a.len() > b.len() {
        return false;
    }
    let mut k: usize = 0;
    while k < a.len()
        invariant
            k <= a.len() <= b.len(),
            forall|j: int| 0 <= j < k ==> rows(a@)[j] == rows(b@)[j],
        decreases a.len() - k,
    {
        if !chars_eq(&a[k], &b[k]) {
            assert(rows(a@)[k as int] != rows(b@)[k as int]);
            return false;
        }
        k += 1;
    }
    true
}

/// Strips the components of `base` from the front of `child`.
pub fn strip_prefix_of(child: &Vec<char>, base: &Vec<char>) -> (r: Option<Vec<char>>)
    ensures
        match r {
            Some(v) => strip_prefix(child@, base@) == Some(v@),
            None => strip_prefix(child@, base@) is None,
        },
{
    let cb = components_of(base);
    let cc = components_of(child);
    if !rows_open(&cb, &cc) {
        return None;
    }
    let sp = spans_of(child);
    let n = cb.len();
    proof {
        lemma_spans_bounds(child@);
        assert(int_spans(sp@).len() == sp@.len());
        assert(rows(cb@).len() == cb@.len());
        assert(rows(cc@).len() == cc@.len());
    }
    if n >= sp.len() {
        let v: Vec<char> = Vec::new();
        assert(v@ == remainder(child@, n as int));
        return Some(v);
    }
    let start = if n == 0 {
        0
    } else {
        sp[n].0
    };
    let end = sp[sp.len() - 1].1;
    proof {
        assert(int_spans(sp@)[n as int] == (sp@[n as int].0 as int, sp@[n as int].1 as int));
        assert(int_spans(sp@)[sp@.len() - 1] == (
            sp@[sp@.len() - 1].0 as int,
            sp@[sp@.len() - 1].1 as int,
        ));
    }
    Some(slice_of(child, start, end))
}

/// The last row of a non-empty list of rows, copied.
fn last_row(v: &Vec<Vec<char>>) -> (r: Vec<char>)
    requires
        v.len() > 0,
    ensures
        r@ == rows(v@).last(),
{
    slice_of(&v[v.len() - 1], 0, v[v.len() - 1].len())
}

/// Computes the path of `child` relative to `parent` on character vectors.
pub fn relative_chars(parent: &Vec<char>, child: &Vec<char>) -> (r: Option<Vec<char>>)
    ensures
        match r {
            Some(v) => relative_path(parent@, child@) == Some(v@),
            None => relative_path(parent@, child@) is None,
        },
{
    match strip_prefix_of(child, parent) {
        Some(v) => Some(v),
        None => {
            let cp = components_of(parent);
            assert(rows(cp@).len() == cp@.len());
            if cp.len() <= 1 {
                None
            } else {
                let last = last_row(&cp);
                strip_prefix_of(child, &last)
            }
        },
    }
}

/// Computes the path of `child_path` relative to `parent_path`, or `None` if
/// neither `parent_path` nor its last component opens `child_path`.
pub fn get_relative_path(parent_path: &str, child_path: &str) -> (r: Option<String>)
    ensures
        match r {
            Some(s) => relative_path(parent_path@, child_path@) == Some(s@),
            None => relative_path(parent_path@, child_path@) is None,
        },
{
    let parent = chars_of(parent_path);
    let child = chars_of(child_path);
    match relative_chars(&parent, &child) {
        Some(v) => Some(string_of(&v)),
        None => None,
    }
}

/// Whether the path `p` ends with the path `suffix`.
pub fn path_ends_with(p: &Vec<char>, suffix: &Vec<char>) -> (r: bool)
    ensures
        r == ends_with(p@, suffix@),
{
    let cs = components_of(suffix);
    let cp = components_of(p);
    assert(rows(cs@).len() == cs@.len());
    assert(rows(cp@).len() == cp@.len());
    if cs.len() > cp.len() {
        return false;
    }
    let shift = cp.len() - cs.len();
    let mut k: usize = 0;
    while k < cs.len()
        invariant
            k <= cs.len() <= cp.len(),
            shift == cp.len() - cs.len(),
            rows(cs@) == components(suffix@),
            rows(cp@) == components(p@),
            forall|j: int| 0 <= j < k ==> rows(cs@)[j] == rows(cp@)[shift + j],
        decreases cs.len() - k,
    {
        if !chars_eq(&cs[k], &cp[shift + k]) {
            proof {
                let a = components(suffix@);
                let b = components(p@);
                assert(a[k as int] == cs@[k as int]@);
                assert(b[b.len() - a.len() + k] == cp@[shift + k]@);
                assert(!closes(a, b));
            }
            return false;
        }
        k += 1;
    }
    true
}

/// Whether `a` and `b` name the same path.
pub fn is_same_path(a: &Vec<char>, b: &Vec<char>) -> (r: bool)
    ensures
        r == same_path(a@, b@),
{
    let ca = components_of(a);
    let cb = components_of(b);
    assert(rows(ca@).len() == ca@.len());
    assert(rows(cb@).len() == cb@.len());
    if ca.len() != cb.len() {
        return false;
    }
    let r = rows_open(&ca, &cb);
    proof {
        if r {
            assert(rows(ca@) =~= rows(cb@));
        }
    }
    r
}

/// Takes the path `rel` below `base`.
pub fn join_chars(base: &Vec<char>, rel: &Vec<char>) -> (r: Vec<char>)
    ensures
        r@ == joined(base@, rel@),
{
    if rel.len() > 0 && rel[0] == SEPARATOR {
        return rel.clone();
    }
    let mut r = base.clone();
    if base.len() > 0 && base[base.len() - 1] != SEPARATOR {
        r.push(SEPARATOR);
    }
    push_all(&mut r, rel);
    r
}

/// Resolves `path` against the directory that the caller works in: a rooted
/// path stands for itself, any other is taken below `calling_path`.
pub fn resolve_path(path: &str, calling_path: &str) -> (r: String)
    ensures
        r@ == joined(calling_path@, path@),
{
    string_of(&join_chars(&chars_of(calling_path), &chars_of(path)))
}

} // verus!
