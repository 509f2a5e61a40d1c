//! The BM25 score of a document for a query, in exact terms.
//!
//! With `N` documents of average length `avgdl` in the corpus, the score of
//! a document of length `dl` is the sum, over the tokens of the query that
//! occur somewhere in the corpus, of
//!
//! ```text
//! ln(N / df) * tf * (k1 + 1) / (tf + k1 * (1 - b + b * dl / avgdl))
//! ```
//!
//! where `df` is the number of documents that hold the token, `tf` the
//! number of times it occurs in the scored document, `k1` is 6/5 and `b` is
//! 3/4. A token that occurs twice in the query counts twice. A `Score` holds
//! the whole numbers of this sum; nothing here rounds.

use crate::index::{lemma_occurrences_bound, occurrences};
use crate::statistics::{
    document_frequency, lemma_document_frequency_bound, total_tokens, CorpusStatistics,
};
use crate::tokenizer::{tokenize, tokens_of};
use vstd::prelude::*;
use vstd::string::StrSliceExecFns;

verus! {

/// The number of characters of a query that are read; what follows them is
/// cut off.
pub const MAX_QUERY_LENGTH: usize = 50;

/// No document of the corpus holds a token, so that the average document
/// length is zero and no score is defined.
#[derive(Debug, Clone, Copy, PartialEq, Eq)]
pub struct DegenerateCorpusError;

/// One term of a score: a token of the query that occurs in the corpus.
#[derive(Debug, Clone, Copy, PartialEq, Eq)]
pub struct ScoreTerm {
    /// How often the token occurs in the scored document.
    pub term_frequency: usize,
    /// In how many documents of the corpus the token occurs.
    pub document_frequency: usize,
}

/// The score of one document for one query.
#[derive(Debug, PartialEq, Eq)]
pub struct Score {
    /// The number of tokens of the scored document.
    pub document_length: usize,
    /// The number of tokens of all documents together.
    pub total_length: u128,
    /// The number of documents.
    pub document_count: usize,
    /// The terms of the sum, in the order of the query's tokens.
    pub terms: Vec<ScoreTerm>,
}

/// The terms of the score of the document at `index` for a query with the
/// tokens `tokens`: one for each token, in order, that occurs in some
/// document of `corpus`.
pub open spec fn score_terms(
    tokens: Seq<Seq<char>>,
    corpus: Seq<Seq<Seq<char>>>,
    index: int,
) -> Seq<ScoreTerm>
    decreases tokens.len(),
{
    if tokens.len() == 0 {
        Seq::empty()
    } else {
        let earlier = score_terms(tokens.drop_last(), corpus, index);
        let token = tokens.last();
        if document_frequency(corpus, token) > 0 {
            earlier.push(
                ScoreTerm {
                    term_frequency: occurrences(corpus[index], token) as usize,
                    document_frequency: document_frequency(corpus, token) as usize,
                },
            )
        } else {
            earlier
        }
    }
}

/// Whether `score` is the score of the document at `index` of `corpus` for
/// a query with the tokens `tokens`.
pub open spec fn is_score_of(
    score: Score,
    tokens: Seq<Seq<char>>,
    corpus: Seq<Seq<Seq<char>>>,
    index: int,
) -> bool {
    &&& score.document_length == corpus[index].len()
    &&& score.total_length == total_tokens(corpus)
    &&& score.document_count == corpus.len()
    &&& score.terms@ == score_terms(tokens, corpus, index)
}

/// The part of a query that is read: its first `MAX_QUERY_LENGTH`
/// characters, or all of it where it has no more.
pub open spec fn read_part(query: Seq<char>) -> Seq<char> {
    if query.len() > MAX_QUERY_LENGTH {
        query.take(MAX_QUERY_LENGTH as int)
    } else {
        query
    }
}

/// The numerator of the saturation of `term`: of the part of the term that
/// does not depend on how rare the token is,
/// `tf * (k1 + 1) / (tf + k1 * (1 - b + b * dl / avgdl))`. With 6/5 for
/// `k1`, 3/4 for `b` and the total length divided by the number of
/// documents for `avgdl`, and with numerator and denominator multiplied by
/// ten times the total length, it is a fraction of whole numbers.
pub open spec fn saturation_numerator(score: Score, term: ScoreTerm) -> int {
    22 * (term.term_frequency * score.total_length)
}

/// The denominator of the saturation of `term`.
pub open spec fn saturation_denominator(score: Score, term: ScoreTerm) -> int {
    10 * (term.term_frequency * score.total_length) + 3 * score.total_length + 9 * (
    score.document_length * score.document_count)
}

/// Where the corpus holds a token, the saturation of a term is a fraction
/// with a positive denominator; it is not negative and stays below
/// `k1 + 1`, which is 11/5; and it is zero exactly where the token does not
/// occur in the document.
pub proof fn lemma_saturation_is_bounded(score: Score, term: ScoreTerm)
    requires
        score.total_length > 0,
    ensures
        saturation_denominator(score, term) > 0,
        saturation_numerator(score, term) >= 0,
        5 * saturation_numerator(score, term) < 11 * saturation_denominator(score, term),
        saturation_numerator(score, term) == 0 <==> term.term_frequency == 0,
{
    let tf = term.term_frequency as int;
    let total = score.total_length as int;
    let dl = score.document_length as int;
    let n = score.document_count as int;
    assert(tf * total >= 0 && (tf > 0 ==> tf * total > 0) && (tf == 0 ==> tf * total == 0))
        by (nonlinear_arith)
        requires
            tf >= 0,
            total > 0,
    ;
    assert(dl * n >= 0) by (nonlinear_arith)
        requires
            dl >= 0,
            n >= 0,
    ;
}

/// Length normalization: of two documents of one corpus in which a token
/// occurs equally often, the longer one has the smaller saturation.
pub proof fn lemma_longer_document_saturates_less(shorter: Score, longer: Score, term: ScoreTerm)
    requires
        shorter.total_length == longer.total_length,
        shorter.document_count == longer.document_count,
        shorter.total_length > 0,
        shorter.document_count > 0,
        shorter.document_length < longer.document_length,
        term.term_frequency > 0,
    ensures
        saturation_numerator(shorter, term) * saturation_denominator(longer, term)
            > saturation_numerator(longer, term) * saturation_denominator(shorter, term),
{
    let tf = term.term_frequency as int;
    let total = shorter.total_length as int;
    let n = shorter.document_count as int;
    let d1 = shorter.document_length as int;
    let d2 = longer.document_length as int;
    let numerator = saturation_numerator(shorter, term);
    let low = saturation_denominator(shorter, term);
    let high = saturation_denominator(longer, term);
    assert(tf * total > 0) by (nonlinear_arith)
        requires
            tf > 0,
            total > 0,
    ;
    assert(d1 * n < d2 * n) by (nonlinear_arith)
        requires
            d1 < d2,
            n > 0,
    ;
    assert(numerator * high > numerator * low) by (nonlinear_arith)
        requires
            numerator > 0,
            low < high,
    ;
}

/// Term frequency: in one document, of two tokens the one that occurs more
/// often has the greater saturation.
pub proof fn lemma_more_occurrences_saturate_more(score: Score, fewer: ScoreTerm, more: ScoreTerm)
    requires
        score.total_length > 0,
        fewer.term_frequency < more.term_frequency,
    ensures
        saturation_numerator(score, fewer) * saturation_denominator(score, more)
            < saturation_numerator(score, more) * saturation_denominator(score, fewer),
{
    let total = score.total_length as int;
    let x = fewer.term_frequency * total;
    let y = more.term_frequency * total;
    let dl = score.document_length as int;
    let n = score.document_count as int;
    let c = 3 * total + 9 * (dl * n);
    assert(x < y && x >= 0) by (nonlinear_arith)
        requires
            x == fewer.term_frequency * total,
            y == more.term_frequency * total,
            0 <= fewer.term_frequency < more.term_frequency,
            total > 0,
    ;
    assert(dl * n >= 0) by (nonlinear_arith)
        requires
            dl >= 0,
            n >= 0,
    ;
    assert((22 * x) * (10 * y + c) < (22 * y) * (10 * x + c)) by (nonlinear_arith)
        requires
            0 <= x < y,
            c > 0,
    ;
}

/// A document has one score for a query: two scores of the same document
/// for the same tokens hold the same numbers and the same terms.
pub proof fn lemma_score_is_unique(
    first: Score,
    second: Score,
    tokens: Seq<Seq<char>>,
    corpus: Seq<Seq<Seq<char>>>,
    index: int,
)
    requires
        is_score_of(first, tokens, corpus, index),
        is_score_of(second, tokens, corpus, index),
    ensures
        first.document_length == second.document_length,
        first.total_length == second.total_length,
        first.document_count == second.document_count,
        first.terms@ == second.terms@,
{
}

/// A query none of whose tokens occurs in the corpus gives every document a
/// score without terms: the empty sum, zero.
pub proof fn lemma_unknown_tokens_score_nothing(
    tokens: Seq<Seq<char>>,
    corpus: Seq<Seq<Seq<char>>>,
    index: int,
)
    requires
        forall|k: int| 0 <= k < tokens.len() ==> document_frequency(corpus, #[trigger] tokens[k]) == 0,
    ensures
        score_terms(tokens, corpus, index) == Seq::<ScoreTerm>::empty(),
    decreases tokens.len(),
{
    if tokens.len() > 0 {
        assert(document_frequency(corpus, tokens[tokens.len() - 1]) == 0);
        assert forall|k: int| 0 <= k < tokens.drop_last().len() implies document_frequency(
            corpus,
            #[trigger] tokens.drop_last()[k],
        ) == 0 by {
            assert(tokens.drop_last()[k] == tokens[k]);
        }
        lemma_unknown_tokens_score_nothing(tokens.drop_last(), corpus, index);
    }
}

/// A score has at most one term for each token of the query. The token of
/// each term occurs in at least one document and in no more than there are,
/// so that the logarithm in the term is not negative; and it occurs in the
/// scored document no more often than the document has tokens. The corpus
/// is one of vectors, so that these numbers fit in `usize`.
pub proof fn lemma_score_terms_are_sound(
    tokens: Seq<Seq<char>>,
    corpus: Seq<Seq<Seq<char>>>,
    index: int,
)
    requires
        0 <= index < corpus.len() <= usize::MAX,
        corpus[index].len() <= usize::MAX,
    ensures
        score_terms(tokens, corpus, index).len() <= tokens.len(),
        forall|k: int|
            0 <= k < score_terms(tokens, corpus, index).len() ==> {
                let term = #[trigger] score_terms(tokens, corpus, index)[k];
                &&& 1 <= term.document_frequency <= corpus.len()
                &&& term.term_frequency <= corpus[index].len()
            },
    decreases tokens.len(),
{
    if tokens.len() > 0 {
        lemma_score_terms_are_sound(tokens.drop_last(), corpus, index);
        lemma_document_frequency_bound(corpus, tokens.last());
        lemma_occurrences_bound(corpus[index], tokens.last());
        let earlier = score_terms(tokens.drop_last(), corpus, index);
        assert forall|k: int| 0 <= k < score_terms(tokens, corpus, index).len() implies {
            let term = #[trigger] score_terms(tokens, corpus, index)[k];
            &&& 1 <= term.document_frequency <= corpus.len()
            &&& term.term_frequency <= corpus[index].len()
        } by {
            if k < earlier.len() {
                assert(score_terms(tokens, corpus, index)[k] == earlier[k]);
            }
        }
    }
}

/// The part of `query` that is read.
pub fn truncate_query(query: &str) -> (read: &str)
    ensures
        read@ == read_part(query@),
{
    if query.unicode_len() > MAX_QUERY_LENGTH {
        query.substring_char(0, MAX_QUERY_LENGTH)
    } else {
        query
    }
}

/// The score of the document at `index` for a query with the tokens
/// `tokens`. There is none where the corpus holds no token at all.
pub fn score_tokens(tokens: &Vec<String>, index: usize, statistics: &CorpusStatistics) -> (result:
    Result<Score, DegenerateCorpusError>)
    requires
        index < statistics@.len(),
    ensures
        result is Err <==> total_tokens(statistics@) == 0,
        result matches Ok(score) ==> is_score_of(
            score,
            tokens.deep_view(),
            statistics@,
            index as int,
        ),
{
    let total_length = statistics.total_length();
    if total_length == 0 {
        return Err(DegenerateCorpusError);
    }
    let mut terms: Vec<ScoreTerm> = Vec::new();
    let mut i: usize = 0;
    while i < tokens.len()
        invariant
            i <= tokens.len(),
            index < statistics@.len(),
            terms@ == score_terms(tokens.deep_view().take(i as int), statistics@, index as int),
        decreases tokens.len() - i,
    {
        let token = &tokens[i];
        let in_documents = statistics.document_frequency(token);
        proof {
            let next = tokens.deep_view().take(i + 1);
            assert(next.drop_last() =~= tokens.deep_view().take(i as int));
            assert(next.last() == token@);
        }
        if in_documents > 0 {
            let in_document = statistics.term_frequency(index, token);
            terms.push(ScoreTerm { term_frequency: in_document, document_frequency: in_documents });
        }
        i += 1;
    }
    proof {
        assert(tokens.deep_view().take(i as int) =~= tokens.deep_view());
    }
    Ok(
        Score {
            document_length: statistics.document_length(index),
            total_length,
            document_count: statistics.document_count(),
            terms,
        },
    )
}

/// The score of the document at `index` for `query`, all of which is read.
/// There is none where the corpus holds no token at all.
pub fn score(query: &str, index: usize, statistics: &CorpusStatistics) -> (result: Result<
    Score,
    DegenerateCorpusError,
>)
    requires
        index < statistics@.len(),
    ensures
        result is Err <==> total_tokens(statistics@) == 0,
        result matches Ok(score) ==> is_score_of(
            score,
            tokens_of(query@),
            statistics@,
            index as int,
        ),
{
    let tokens = tokenize(query);
    score_tokens(&tokens, index, statistics)
}

/// The score of every document, in corpus order, for the part of `query`
/// that is read. There are none where the corpus holds no token at all.
pub fn score_documents(query: &str, statistics: &CorpusStatistics) -> (result: Result<
    Vec<Score>,
    DegenerateCorpusError,
>)
    ensures
        result is Err <==> total_tokens(statistics@) == 0,
        result matches Ok(scores) ==> {
            &&& scores.len() == statistics@.len()
            &&& forall|i: int|
                0 <= i < scores.len() ==> is_score_of(
                    #[trigger] scores@[i],
                    tokens_of(read_part(query@)),
                    statistics@,
                    i,
                )
        },
{
    if statistics.total_length() == 0 {
        return Err(DegenerateCorpusError);
    }
    let tokens = tokenize(truncate_query(query));
    let count = statistics.document_count();
    let mut scores: Vec<Score> = Vec::new();
    let mut index: usize = 0;
    while index < count
        invariant
            index <= count,
            count == statistics@.len(),
            total_tokens(statistics@) != 0,
            tokens.deep_view() == tokens_of(read_part(query@)),
            scores.len() == index,
            forall|i: int|
                0 <= i < index ==> is_score_of(
                    #[trigger] scores@[i],
                    tokens_of(read_part(query@)),
                    statistics@,
                    i,
                ),
        decreases count - index,
    {
        match score_tokens(&tokens, index, statistics) {
            Ok(score) => {
                scores.push(score);
            },
            Err(error) => {
                return Err(error);
            },
        }
        index += 1;
    }
    Ok(scores)
}

} // verus!
