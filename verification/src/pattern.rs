//! Matching of paths against ignore patterns.

use vstd::prelude::*;

verus! {

/// Whether the regular expression `pattern` matches somewhere in `text`;
/// `None` where `pattern` is no valid regular expression.
pub uninterp spec fn regex_match(pattern: Seq<char>, text: Seq<char>) -> Option<bool>;

/// Compiles `pattern` and searches `text` for a match.
///
/// Trusted: calls `regex::Regex::new`, which fails on a pattern that does not
/// parse or is too large, and `regex::Regex::is_match`, which is true if and
/// only if the expression matches anywhere in the text. Both depend on the two
/// strings alone; the contract names the outcome.
#[verifier::external_body]
pub(crate) fn match_pattern(pattern: &str, text: &str) -> (r: Option<bool>)
    ensures
        r == regex_match(pattern@, text@),
{
    match regex::Regex::new(pattern) {
        Ok(re) => Some(re.is_match(text)),
        Err(_) => None,
    }
}

/// Whether `pattern` is a valid expression that matches somewhere in `text`.
pub open spec fn hits(pattern: Seq<char>, text: Seq<char>) -> bool {
    regex_match(pattern, text) == Some(true)
}

/// Whether `needle` occurs in `text` as a run of consecutive characters.
pub open spec fn occurs_in(needle: Seq<char>, text: Seq<char>) -> bool {
    exists|k: int| occurs_at(needle, text, k)
}

/// Whether `needle` occurs in `text` at index `k`.
pub open spec fn occurs_at(needle: Seq<char>, text: Seq<char>, k: int) -> bool {
    0 <= k && k + needle.len() <= text.len() && text.subrange(k, k + needle.len()) == needle
}

/// Whether `needle` occurs in `text` at index `k`.
fn found_at(needle: &Vec<char>, text: &Vec<char>, k: usize) -> (r: bool)
    requires
        k + needle.len() <= text.len(),
    ensures
        r == occurs_at(needle@, text@, k as int),
{
    let mut j: usize = 0;
    while j < needle.len()
        invariant
            j <= needle.len(),
            k + needle.len() <= text.len(),
            text@.subrange(k as int, k + j) == needle@.take(j as int),
        decreases needle.len() - j,
    {
        if text[k + j] != needle[j] {
            assert(text@.subrange(k as int, k + needle.len())[j as int] != needle@[j as int]);
            return false;
        }
        proof {
            assert(text@.subrange(k as int, k + j + 1) == text@.subrange(k as int, k + j).push(
                text@[k + j],
            ));
            assert(needle@.take(j + 1) == needle@.take(j as int).push(needle@[j as int]));
        }
        j += 1;
    }
    assert(needle@.take(needle.len() as int) == needle@);
    true
}

/// Whether `needle` occurs in `text`.
pub fn contains_chars(text: &Vec<char>, needle: &Vec<char>) -> (r: bool)
    ensures
        r == occurs_in(needle@, text@),
{
    if needle.len() > text.len() {
        return false;
    }
    if needle.len() == 0 {
        assert(text@.subrange(0, 0) =~= needle@);
        assert(occurs_at(needle@, text@, 0));
        return true;
    }
    let last = text.len() - needle.len();
    let mut k: usize = 0;
    while k <= last
        invariant
            k <= last + 1,
            last < text.len(),
            last == text.len() - needle.len(),
            forall|j: int| 0 <= j < k ==> !occurs_at(needle@, text@, j),
        decreases last + 1 - k,
    {
        if found_at(needle, text, k) {
            return true;
        }
        k += 1;
    }
    false
}

} // verus!
