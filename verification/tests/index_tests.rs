use bm25_search::corpus::Document;
use bm25_search::index::{
    add_occurrence, compute_term_frequencies, count_of, count_tokens, TermFrequency,
};

fn document(id: &str, text: &str) -> Document {
    Document { id: id.to_string(), text: text.to_string() }
}

fn entry(token: &str, count: usize) -> TermFrequency {
    TermFrequency { token: token.to_string(), count }
}

fn strings(words: &[&str]) -> Vec<String> {
    words.iter().map(|w| w.to_string()).collect()
}

#[test]
fn term_frequencies_count_each_token() {
    let table = compute_term_frequencies(&document("b", "the cat sat on the mat"));
    assert_eq!(
        table,
        vec![entry("cat", 1), entry("mat", 1), entry("on", 1), entry("sat", 1), entry("the", 2)]
    );
}

#[test]
fn term_frequencies_of_text_without_tokens() {
    assert_eq!(compute_term_frequencies(&document("e", "")), Vec::<TermFrequency>::new());
    assert_eq!(compute_term_frequencies(&document("e", "?!")), Vec::<TermFrequency>::new());
}

#[test]
fn term_frequencies_fold_case() {
    let table = compute_term_frequencies(&document("d", "Dog dog DOG"));
    assert_eq!(table, vec![entry("dog", 3)]);
}

#[test]
fn term_frequencies_sum_to_token_count() {
    let table = compute_term_frequencies(&document("d", "a b a c b a d"));
    let sum: usize = table.iter().map(|e| e.count).sum();
    assert_eq!(sum, 7);
}

#[test]
fn count_tokens_orders_by_code_point() {
    let tokens = strings(&["b", "ab", "abc", "a", "\u{e9}", "z", "B", "10", "9"]);
    let table = count_tokens(&tokens);
    let order: Vec<&str> = table.iter().map(|e| e.token.as_str()).collect();
    assert_eq!(order, vec!["10", "9", "B", "a", "ab", "abc", "b", "z", "\u{e9}"]);
}

#[test]
fn count_tokens_of_nothing() {
    assert_eq!(count_tokens(&Vec::new()), Vec::<TermFrequency>::new());
}

#[test]
fn count_tokens_counts_repetitions() {
    let table = count_tokens(&strings(&["x", "y", "x", "x", "y"]));
    assert_eq!(table, vec![entry("x", 3), entry("y", 2)]);
}

#[test]
fn count_of_finds_entries() {
    let table = vec![entry("cat", 1), entry("mat", 4), entry("the", 2)];
    assert_eq!(count_of(&table, &"cat".to_string()), 1);
    assert_eq!(count_of(&table, &"mat".to_string()), 4);
    assert_eq!(count_of(&table, &"the".to_string()), 2);
}

#[test]
fn count_of_absent_token_is_zero() {
    let table = vec![entry("cat", 1), entry("mat", 4), entry("the", 2)];
    assert_eq!(count_of(&table, &"a".to_string()), 0);
    assert_eq!(count_of(&table, &"dog".to_string()), 0);
    assert_eq!(count_of(&table, &"zebra".to_string()), 0);
    assert_eq!(count_of(&table, &"ca".to_string()), 0);
    assert_eq!(count_of(&table, &"cats".to_string()), 0);
    assert_eq!(count_of(&Vec::new(), &"cat".to_string()), 0);
}

#[test]
fn add_occurrence_puts_new_tokens_in_order() {
    let mut table: Vec<TermFrequency> = Vec::new();
    add_occurrence(&mut table, "m".to_string());
    add_occurrence(&mut table, "z".to_string());
    add_occurrence(&mut table, "a".to_string());
    add_occurrence(&mut table, "n".to_string());
    assert_eq!(table, vec![entry("a", 1), entry("m", 1), entry("n", 1), entry("z", 1)]);
}

#[test]
fn add_occurrence_counts_up() {
    let mut table = vec![entry("a", 1), entry("m", 7)];
    add_occurrence(&mut table, "m".to_string());
    add_occurrence(&mut table, "a".to_string());
    add_occurrence(&mut table, "m".to_string());
    assert_eq!(table, vec![entry("a", 2), entry("m", 9)]);
}
