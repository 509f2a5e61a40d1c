use bm25_search::corpus::Document;
use bm25_search::scorer::{
    score, score_documents, score_tokens, truncate_query, DegenerateCorpusError, Score,
    ScoreTerm, MAX_QUERY_LENGTH,
};
use bm25_search::statistics::CorpusStatistics;

fn document(id: &str, text: &str) -> Document {
    Document { id: id.to_string(), text: text.to_string() }
}

fn two_documents() -> CorpusStatistics {
    let documents = vec![document("a", "the cat sat"), document("b", "the cat sat on the mat")];
    CorpusStatistics::build(&documents).ok().unwrap()
}

fn term(term_frequency: usize, document_frequency: usize) -> ScoreTerm {
    ScoreTerm { term_frequency, document_frequency }
}

#[test]
fn score_holds_the_numbers_of_the_sum() {
    let statistics = two_documents();
    assert_eq!(
        score("cat", 0, &statistics),
        Ok(Score { document_length: 3, total_length: 9, document_count: 2, terms: vec![term(1, 2)] })
    );
    assert_eq!(
        score("cat", 1, &statistics),
        Ok(Score { document_length: 6, total_length: 9, document_count: 2, terms: vec![term(1, 2)] })
    );
}

#[test]
fn score_has_a_term_for_each_known_token_in_query_order() {
    let statistics = two_documents();
    let result = score("The mat, the zebra and the CAT", 1, &statistics).ok().unwrap();
    assert_eq!(result.terms, vec![term(2, 2), term(1, 1), term(2, 2), term(2, 2), term(1, 2)]);
}

#[test]
fn score_counts_a_repeated_token_each_time() {
    let statistics = two_documents();
    let result = score("cat cat cat", 0, &statistics).ok().unwrap();
    assert_eq!(result.terms, vec![term(1, 2), term(1, 2), term(1, 2)]);
}

#[test]
fn score_keeps_a_term_for_a_token_absent_from_the_document() {
    let statistics = two_documents();
    let result = score("mat", 0, &statistics).ok().unwrap();
    assert_eq!(result.terms, vec![term(0, 1)]);
}

#[test]
fn score_of_unknown_tokens_has_no_terms() {
    let statistics = two_documents();
    for index in 0..2 {
        let result = score("zebra unicorn", index, &statistics).ok().unwrap();
        assert_eq!(result.terms, Vec::<ScoreTerm>::new());
    }
}

#[test]
fn score_of_query_without_tokens_has_no_terms() {
    let statistics = two_documents();
    assert_eq!(score("", 0, &statistics).ok().unwrap().terms, Vec::<ScoreTerm>::new());
    assert_eq!(score("?!", 1, &statistics).ok().unwrap().terms, Vec::<ScoreTerm>::new());
}

#[test]
fn score_fails_where_no_document_has_a_token() {
    let documents = vec![document("a", ""), document("b", "..."), document("c", " - ")];
    let statistics = CorpusStatistics::build(&documents).ok().unwrap();
    assert_eq!(score("cat", 0, &statistics), Err(DegenerateCorpusError));
    assert_eq!(score("", 2, &statistics), Err(DegenerateCorpusError));
    assert_eq!(score_tokens(&Vec::new(), 1, &statistics), Err(DegenerateCorpusError));
    assert_eq!(score_documents("cat", &statistics), Err(DegenerateCorpusError));
}

#[test]
fn score_succeeds_where_one_document_has_a_token() {
    let documents = vec![document("a", ""), document("b", "x")];
    let statistics = CorpusStatistics::build(&documents).ok().unwrap();
    assert_eq!(
        score("x", 0, &statistics),
        Ok(Score { document_length: 0, total_length: 1, document_count: 2, terms: vec![term(0, 1)] })
    );
}

#[test]
fn score_tokens_takes_tokens_as_they_are() {
    let statistics = two_documents();
    let tokens = vec!["sat".to_string(), "SAT".to_string(), "on".to_string()];
    let result = score_tokens(&tokens, 1, &statistics).ok().unwrap();
    assert_eq!(result.terms, vec![term(1, 2), term(1, 1)]);
}

#[test]
fn score_documents_scores_each_document_in_corpus_order() {
    let statistics = two_documents();
    let scores = score_documents("the mat", &statistics).ok().unwrap();
    assert_eq!(
        scores,
        vec![
            Score {
                document_length: 3,
                total_length: 9,
                document_count: 2,
                terms: vec![term(1, 2), term(0, 1)]
            },
            Score {
                document_length: 6,
                total_length: 9,
                document_count: 2,
                terms: vec![term(2, 2), term(1, 1)]
            },
        ]
    );
}

#[test]
fn score_documents_twice_gives_the_same_scores() {
    let statistics = two_documents();
    assert_eq!(score_documents("cat on mat", &statistics), score_documents("cat on mat", &statistics));
}

#[test]
fn score_documents_reads_fifty_characters() {
    let statistics = two_documents();
    // 46 characters of padding, then "cat" ends at character 50.
    let within = format!("{} cat mat", "z".repeat(46));
    let scores = score_documents(&within, &statistics).ok().unwrap();
    assert_eq!(scores[1].terms, vec![term(1, 2)]);
    // One more character of padding: "ca" is what is left of "cat".
    let cut = format!("{} cat mat", "z".repeat(47));
    let scores = score_documents(&cut, &statistics).ok().unwrap();
    assert_eq!(scores[1].terms, Vec::<ScoreTerm>::new());
}

#[test]
fn score_reads_the_whole_query() {
    let statistics = two_documents();
    let long = format!("{} cat mat", "z".repeat(47));
    assert_eq!(score(&long, 1, &statistics).ok().unwrap().terms, vec![term(1, 2), term(1, 1)]);
}

#[test]
fn truncate_query_keeps_short_queries() {
    assert_eq!(truncate_query(""), "");
    assert_eq!(truncate_query("cat"), "cat");
    let exact = "q".repeat(MAX_QUERY_LENGTH);
    assert_eq!(truncate_query(&exact), exact);
}

#[test]
fn truncate_query_cuts_after_fifty_characters() {
    assert_eq!(MAX_QUERY_LENGTH, 50);
    let long = format!("{}tail", "q".repeat(50));
    assert_eq!(truncate_query(&long), "q".repeat(50));
    // Characters count, not bytes.
    let wide = "\u{e9}".repeat(51);
    assert_eq!(truncate_query(&wide), "\u{e9}".repeat(50));
}

#[test]
fn longer_document_saturates_less() {
    let statistics = two_documents();
    let scores = score_documents("cat", &statistics).ok().unwrap();
    // tf * (k1 + 1) / (tf + k), with numerator and denominator in whole numbers.
    let fraction = |score: &Score| -> (u128, u128) {
        let tf = score.terms[0].term_frequency as u128;
        let total = score.total_length;
        let length = score.document_length as u128;
        let count = score.document_count as u128;
        (22 * tf * total, 10 * tf * total + 3 * total + 9 * length * count)
    };
    assert_eq!(fraction(&scores[0]), (198, 171));
    assert_eq!(fraction(&scores[1]), (198, 225));
    let (n0, d0) = fraction(&scores[0]);
    let (n1, d1) = fraction(&scores[1]);
    assert!(n0 * d1 > n1 * d0);
}
