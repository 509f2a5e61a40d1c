//! Splitting text into normalized word tokens.

use crate::text::{
    alphanumeric_marks, chars_of, is_marked, lemma_prefix_len_bounds, lemma_prefix_len_ends,
    lowercased, mark_alphanumeric, prefix_len, string_from_chars,
};
use vstd::prelude::*;

verus! {

/// The maximal runs of marked characters of `marked`, in the order in which
/// they occur. Unmarked characters separate runs and belong to none.
pub open spec fn runs_of(marked: Seq<(char, bool)>) -> Seq<Seq<char>>
    decreases marked.len(),
    via runs_of_decreases
{
    if marked.len() == 0 {
        Seq::empty()
    } else if !marked[0].1 {
        runs_of(marked.drop_first())
    } else {
        let n = prefix_len(marked, is_marked()) as int;
        seq![chars_of(marked.take(n))] + runs_of(marked.skip(n))
    }
}

#[via_fn]
proof fn runs_of_decreases(marked: Seq<(char, bool)>) {
    lemma_prefix_len_bounds(marked, is_marked());
}

/// The tokens of `text`: its maximal runs of alphanumeric characters, in
/// order and with repetitions, each in lowercase.
pub open spec fn tokens_of(text: Seq<char>) -> Seq<Seq<char>> {
    runs_of(alphanumeric_marks(text)).map_values(|word: Seq<char>| lowercased(word))
}

/// Every run is made of at least one character.
pub proof fn lemma_runs_are_nonempty(marked: Seq<(char, bool)>)
    ensures
        forall|k: int| 0 <= k < runs_of(marked).len() ==> (#[trigger] runs_of(marked)[k]).len() > 0,
    decreases marked.len(),
{
    if marked.len() == 0 {
        assert(runs_of(marked).len() == 0);
    } else if !marked[0].1 {
        lemma_runs_are_nonempty(marked.drop_first());
        assert(runs_of(marked) == runs_of(marked.drop_first()));
    } else {
        lemma_prefix_len_bounds(marked, is_marked());
        let n = prefix_len(marked, is_marked()) as int;
        assert(runs_of(marked) == seq![chars_of(marked.take(n))] + runs_of(marked.skip(n)));
        let head = seq![chars_of(marked.take(n))];
        let tail = runs_of(marked.skip(n));
        lemma_runs_are_nonempty(marked.skip(n));
        assert forall|k: int| 0 <= k < runs_of(marked).len() implies (#[trigger] runs_of(
            marked,
        )[k]).len() > 0 by {
            if k == 0 {
                assert((head + tail)[0] == head[0]);
            } else {
                assert((head + tail)[k] == tail[k - 1]);
            }
        }
    }
}

/// Splits a marked text into its maximal runs of marked characters.
pub fn split_words(marked: &Vec<(char, bool)>) -> (words: Vec<String>)
    ensures
        words.deep_view() == runs_of(marked@),
{
    let mut words: Vec<String> = Vec::new();
    let mut current: Vec<char> = Vec::new();
    let ghost mut start: int = 0;
    let mut i: usize = 0;
    proof {
        assert(marked@.skip(0) =~= marked@);
        assert(words.deep_view() =~= Seq::<Seq<char>>::empty());
        assert(current@ =~= chars_of(marked@.subrange(start, i as int)));
    }
    while i < marked.len()
        invariant
            0 <= start <= i <= marked.len(),
            current@ == chars_of(marked@.subrange(start, i as int)),
            forall|k: int| start <= k < i ==> marked@[k].1,
            words.deep_view() + runs_of(marked@.skip(start)) == runs_of(marked@),
        decreases marked.len() - i,
    {
        let (c, keep) = marked[i];
        if keep {
            current.push(c);
            proof {
                assert(current@ =~= chars_of(marked@.subrange(start, i + 1)));
            }
        } else {
            if current.len() > 0 {
                proof {
                    lemma_run_found(marked@, start, i as int);
                }
                let ghost before = words.deep_view();
                let word = string_from_chars(&current);
                words.push(word);
                current = Vec::new();
                proof {
                    assert(words.deep_view() =~= before.push(word@));
                    assert(before.push(word@) + runs_of(marked@.skip(i as int)) =~= before + (
                    seq![word@] + runs_of(marked@.skip(i as int))));
                }
            }
            proof {
                let tail = marked@.skip(i as int);
                assert(!tail[0].1);
                assert(tail.drop_first() =~= marked@.skip(i + 1));
                assert(runs_of(tail) == runs_of(marked@.skip(i + 1)));
                start = i + 1;
                assert(current@ =~= chars_of(marked@.subrange(start, i + 1)));
            }
        }
        i += 1;
    }
    if current.len() > 0 {
        proof {
            lemma_run_found(marked@, start, i as int);
            assert(runs_of(marked@.skip(i as int)) =~= Seq::<Seq<char>>::empty());
        }
        let ghost before = words.deep_view();
        let word = string_from_chars(&current);
        words.push(word);
        proof {
            assert(words.deep_view() =~= before.push(word@));
            assert(before.push(word@) =~= before + (seq![word@] + Seq::<Seq<char>>::empty()));
        }
    } else {
        proof {
            assert(runs_of(marked@.skip(start)) =~= Seq::<Seq<char>>::empty());
            assert(words.deep_view() + Seq::<Seq<char>>::empty() =~= words.deep_view());
        }
    }
    words
}

/// Where the characters from `start` up to `end` are marked and the run
/// stops at `end`, those characters are the first run of the text from
/// `start` on, and the other runs are those of the text from `end` on.
proof fn lemma_run_found(marked: Seq<(char, bool)>, start: int, end: int)
    requires
        0 <= start < end <= marked.len(),
        forall|k: int| start <= k < end ==> marked[k].1,
        end == marked.len() || !marked[end].1,
    ensures
        runs_of(marked.skip(start)) == seq![chars_of(marked.subrange(start, end))] + runs_of(
            marked.skip(end),
        ),
{
    let rest = marked.skip(start);
    let n = end - start;
    assert forall|k: int| 0 <= k < n implies is_marked()(#[trigger] rest[k]) by {
        assert(rest[k] == marked[start + k]);
    }
    assert(rest[0].1);
    lemma_prefix_len_ends(rest, is_marked(), n);
    assert(rest.take(n) =~= marked.subrange(start, end));
    assert(rest.skip(n) =~= marked.skip(end));
}

/// Splits `text` into its tokens: the maximal runs of letters and digits,
/// in order, each in lowercase. Every other character separates tokens.
pub fn tokenize(text: &str) -> (tokens: Vec<String>)
    ensures
        tokens.deep_view() == tokens_of(text@),
{
    let marked = mark_alphanumeric(text);
    let words = split_words(&marked);
    let mut tokens: Vec<String> = Vec::new();
    let mut k: usize = 0;
    while k < words.len()
        invariant
            k <= words.len(),
            tokens.len() == k,
            forall|j: int| 0 <= j < k ==> (#[trigger] tokens@[j])@ == lowercased(words@[j]@),
        decreases words.len() - k,
    {
        tokens.push(words[k].as_str().to_lowercase());
        k += 1;
    }
    proof {
        assert(words.deep_view().len() == words.len());
        assert forall|j: int| 0 <= j < tokens.len() implies tokens.deep_view()[j] == tokens_of(
            text@,
        )[j] by {
            assert(words.deep_view()[j] == words@[j]@);
            assert(tokens.deep_view()[j] == tokens@[j]@);
        }
        assert(tokens.deep_view() =~= tokens_of(text@));
    }
    tokens
}

} // verus!
