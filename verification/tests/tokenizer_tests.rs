use bm25_search::text::{mark_alphanumeric, mark_whitespace};
use bm25_search::tokenizer::{split_words, tokenize};

fn strings(words: &[&str]) -> Vec<String> {
    words.iter().map(|w| w.to_string()).collect()
}

#[test]
fn tokenize_splits_lowercases_and_keeps_digits() {
    assert_eq!(tokenize("Hello, World! 123"), strings(&["hello", "world", "123"]));
}

#[test]
fn tokenize_empty_text_has_no_tokens() {
    assert_eq!(tokenize(""), Vec::<String>::new());
}

#[test]
fn tokenize_separators_alone_have_no_tokens() {
    assert_eq!(tokenize("___"), Vec::<String>::new());
    assert_eq!(tokenize(" \t\n.,;!?-"), Vec::<String>::new());
}

#[test]
fn tokenize_keeps_order_and_repetitions() {
    assert_eq!(tokenize("dog cat dog dog"), strings(&["dog", "cat", "dog", "dog"]));
}

#[test]
fn tokenize_every_other_character_separates() {
    assert_eq!(tokenize("a-b_c d/e"), strings(&["a", "b", "c", "d", "e"]));
    assert_eq!(tokenize("--left"), strings(&["left"]));
    assert_eq!(tokenize("right--"), strings(&["right"]));
    assert_eq!(tokenize("x"), strings(&["x"]));
}

#[test]
fn tokenize_letters_and_digits_form_one_token() {
    assert_eq!(tokenize("bm25 R2D2"), strings(&["bm25", "r2d2"]));
}

#[test]
fn tokenize_knows_letters_beyond_ascii() {
    assert_eq!(
        tokenize("\u{c9}lan na\u{ef}ve \u{c7}A"),
        strings(&["\u{e9}lan", "na\u{ef}ve", "\u{e7}a"])
    );
}

#[test]
fn tokenize_lowercases_a_word_as_a_whole() {
    // A capital sigma at the end of a word becomes a final sigma.
    assert_eq!(
        tokenize("\u{1f48}\u{394}\u{3a5}\u{3a3}\u{3a3}\u{395}\u{38e}\u{3a3}"),
        strings(&["\u{1f40}\u{3b4}\u{3c5}\u{3c3}\u{3c3}\u{3b5}\u{3cd}\u{3c2}"])
    );
    // A capital I with a dot above becomes two characters.
    assert_eq!(tokenize("\u{130}"), strings(&["i\u{307}"]));
}

#[test]
fn tokenize_twice_gives_the_same_tokens() {
    let text = "The quick brown fox; the LAZY dog.";
    assert_eq!(tokenize(text), tokenize(text));
}

#[test]
fn mark_alphanumeric_marks_letters_and_digits() {
    assert_eq!(
        mark_alphanumeric("a_1 \u{e9}"),
        vec![('a', true), ('_', false), ('1', true), (' ', false), ('\u{e9}', true)]
    );
    assert_eq!(mark_alphanumeric(""), Vec::<(char, bool)>::new());
}

#[test]
fn mark_whitespace_marks_blanks() {
    assert_eq!(
        mark_whitespace("a \t\n\r\u{a0}_"),
        vec![
            ('a', false),
            (' ', true),
            ('\t', true),
            ('\n', true),
            ('\r', true),
            ('\u{a0}', true),
            ('_', false)
        ]
    );
}

#[test]
fn split_words_gives_the_maximal_marked_runs() {
    let marked = vec![('a', true), ('b', false), ('c', true), ('d', true)];
    assert_eq!(split_words(&marked), strings(&["a", "cd"]));
}

#[test]
fn split_words_goes_by_the_marks_alone() {
    let marked = vec![('-', true), ('-', true), ('x', false), ('Y', true), ('z', false)];
    assert_eq!(split_words(&marked), strings(&["--", "Y"]));
}

#[test]
fn split_words_without_marked_characters_is_empty() {
    assert_eq!(split_words(&vec![('a', false), ('b', false)]), Vec::<String>::new());
    assert_eq!(split_words(&Vec::new()), Vec::<String>::new());
}

#[test]
fn split_words_one_run_to_the_end() {
    let marked = vec![('a', false), ('b', true), ('c', true)];
    assert_eq!(split_words(&marked), strings(&["bc"]));
}
