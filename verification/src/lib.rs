//! Ranking of a fixed corpus of text documents against free-text queries
//! with the BM25 relevance function.
//!
//! - `corpus` holds the documents and reads them from a corpus text;
//! - `tokenizer` splits text into word tokens;
//! - `index` counts the tokens of a document in a term-frequency table;
//! - `statistics` holds what is known of the corpus as a whole;
//! - `scorer` gives the terms of the score of a document for a query;
//! - `ranking` selects the best documents by their scores;
//! - `text` has the character classes on which the others rest.
//!
//! Every number here is a whole number. A score is kept as the exact terms
//! of its sum, and a ranking orders unsigned numbers. To evaluate a score
//! takes a logarithm; that, and the number by which the ranking orders the
//! result, is the caller's part.

pub mod corpus;
pub mod index;
pub mod ranking;
pub mod scorer;
pub mod statistics;
pub mod text;
pub mod tokenizer;
