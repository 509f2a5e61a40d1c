//! Characters and their classes, as the standard library defines them.

use vstd::prelude::*;

verus! {

/// Whether `c` is a letter or a digit in the sense of `char::is_alphanumeric`.
pub uninterp spec fn alphanumeric(c: char) -> bool;

/// Whether `c` is white space in the sense of `char::is_whitespace`.
pub uninterp spec fn whitespace(c: char) -> bool;

/// The lowercase form of `s` that `str::to_lowercase` returns.
pub uninterp spec fn lowercased(s: Seq<char>) -> Seq<char>;

/// `char::is_alphanumeric` depends on its argument alone; its result is
/// named `alphanumeric` and nothing more is claimed of it.
pub assume_specification[ char::is_alphanumeric ](c: char) -> (r: bool)
    ensures
        r == alphanumeric(c),
;

/// `char::is_whitespace` depends on its argument alone; its result is
/// named `whitespace` and nothing more is claimed of it.
pub assume_specification[ char::is_whitespace ](c: char) -> (r: bool)
    ensures
        r == whitespace(c),
;

/// `str::to_lowercase` depends on the characters of its argument alone; its
/// result is named `lowercased` and nothing more is claimed of it.
pub assume_specification[ str::to_lowercase ](s: &str) -> (r: String)
    ensures
        r@ == lowercased(s@),
;

/// Collects characters into a `String` with `String::from_iter`: the string
/// holds exactly the given characters, in order.
#[verifier::external_body]
pub(crate) fn string_from_chars(chars: &Vec<char>) -> (s: String)
    ensures
        s@ == chars@,
{
    String::from_iter(chars.iter())
}

/// Each character of `text` paired with whether it is alphanumeric.
pub open spec fn alphanumeric_marks(text: Seq<char>) -> Seq<(char, bool)> {
    Seq::new(text.len(), |i: int| (text[i], alphanumeric(text[i])))
}

/// Each character of `text` paired with whether it is white space.
pub open spec fn whitespace_marks(text: Seq<char>) -> Seq<(char, bool)> {
    Seq::new(text.len(), |i: int| (text[i], whitespace(text[i])))
}

/// The characters of a marked text, without their marks.
pub open spec fn chars_of(marked: Seq<(char, bool)>) -> Seq<char> {
    Seq::new(marked.len(), |i: int| marked[i].0)
}

/// The predicate that holds of a marked character.
pub open spec fn is_marked() -> spec_fn((char, bool)) -> bool {
    |m: (char, bool)| m.1
}

/// Number of elements at the start of `s`, up to the first of which `holds`
/// is false.
pub open spec fn prefix_len<T>(s: Seq<T>, holds: spec_fn(T) -> bool) -> nat
    decreases s.len(),
{
    if s.len() > 0 && holds(s[0]) {
        1 + prefix_len(s.drop_first(), holds)
    } else {
        0
    }
}

/// Number of elements at the end of `s`, back to the last of which `holds`
/// is false.
pub open spec fn suffix_len<T>(s: Seq<T>, holds: spec_fn(T) -> bool) -> nat
    decreases s.len(),
{
    if s.len() > 0 && holds(s.last()) {
        1 + suffix_len(s.drop_last(), holds)
    } else {
        0
    }
}

/// A prefix is no longer than the sequence, and is not empty where `holds`
/// is true of the first element.
pub proof fn lemma_prefix_len_bounds<T>(s: Seq<T>, holds: spec_fn(T) -> bool)
    ensures
        prefix_len(s, holds) <= s.len(),
        s.len() > 0 && holds(s[0]) ==> prefix_len(s, holds) >= 1,
    decreases s.len(),
{
    if s.len() > 0 && holds(s[0]) {
        lemma_prefix_len_bounds(s.drop_first(), holds);
    }
}

/// The prefix ends exactly at the first element of which `holds` is false,
/// or at the end of the sequence.
pub proof fn lemma_prefix_len_ends<T>(s: Seq<T>, holds: spec_fn(T) -> bool, n: int)
    requires
        0 <= n <= s.len(),
        forall|k: int| 0 <= k < n ==> holds(#[trigger] s[k]),
        n == s.len() || !holds(s[n]),
    ensures
        prefix_len(s, holds) == n,
    decreases n,
{
    if n > 0 {
        let rest = s.drop_first();
        assert(holds(s[0]));
        assert forall|k: int| 0 <= k < n - 1 implies holds(#[trigger] rest[k]) by {
            assert(rest[k] == s[k + 1]);
        }
        lemma_prefix_len_ends(rest, holds, n - 1);
    }
}

/// The suffix begins exactly behind the last element of which `holds` is
/// false, or at the start of the sequence.
pub proof fn lemma_suffix_len_ends<T>(s: Seq<T>, holds: spec_fn(T) -> bool, n: int)
    requires
        0 <= n <= s.len(),
        forall|k: int| s.len() - n <= k < s.len() ==> holds(#[trigger] s[k]),
        n == s.len() || !holds(s[s.len() - n - 1]),
    ensures
        suffix_len(s, holds) == n,
    decreases n,
{
    if n > 0 {
        let rest = s.drop_last();
        assert(holds(s[s.len() - 1]));
        assert forall|k: int| rest.len() - (n - 1) <= k < rest.len() implies holds(
            #[trigger] rest[k],
        ) by {
            assert(rest[k] == s[k]);
        }
        lemma_suffix_len_ends(rest, holds, n - 1);
    }
}

/// Pairs each character of `text` with whether it is alphanumeric.
pub fn mark_alphanumeric(text: &str) -> (marked: Vec<(char, bool)>)
    ensures
        marked@ == alphanumeric_marks(text@),
{
    let mut marked: Vec<(char, bool)> = Vec::new();
    for c in it: text.chars()
        invariant
            it.seq() == text@,
            marked@ == alphanumeric_marks(text@.take(it.index())),
    {
        marked.push((c, c.is_alphanumeric()));
    }
    marked
}

/// Pairs each character of `text` with whether it is white space.
pub fn mark_whitespace(text: &str) -> (marked: Vec<(char, bool)>)
    ensures
        marked@ == whitespace_marks(text@),
{
    let mut marked: Vec<(char, bool)> = Vec::new();
    for c in it: text.chars()
        invariant
            it.seq() == text@,
            marked@ == whitespace_marks(text@.take(it.index())),
    {
        marked.push((c, c.is_whitespace()));
    }
    marked
}

} // verus!
