//! Statistics of a corpus: the term-frequency table and the length of each
//! document, the length of all documents together, and for each token the
//! number of documents in which it occurs.
//!
//! The statistics of a corpus are built once and then only read. The
//! average document length is the total length divided by the number of
//! documents; it is kept as these two numbers, which loses nothing.

use crate::corpus::{Document, DocumentView};
use crate::index::{
    add_occurrence, compute_term_frequencies, count_in, count_of, has_entry, is_table,
    is_table_of, lemma_count_at, lemma_precedes_irreflexive, occurrences, precedes, total_count,
    TermFrequency,
};
use crate::tokenizer::tokens_of;
use vstd::prelude::*;

verus! {

/// The tokens of each document of a corpus, in corpus order.
pub open spec fn corpus_tokens(documents: Seq<DocumentView>) -> Seq<Seq<Seq<char>>> {
    Seq::new(documents.len(), |i: int| tokens_of(documents[i].text))
}

/// The number of documents of `corpus` in which `token` occurs.
pub open spec fn document_frequency(corpus: Seq<Seq<Seq<char>>>, token: Seq<char>) -> nat
    decreases corpus.len(),
{
    if corpus.len() == 0 {
        0
    } else {
        document_frequency(corpus.drop_last(), token) + if occurrences(corpus.last(), token) > 0 {
            1nat
        } else {
            0nat
        }
    }
}

/// The number of tokens of all documents of `corpus` together.
pub open spec fn total_tokens(corpus: Seq<Seq<Seq<char>>>) -> nat
    decreases corpus.len(),
{
    if corpus.len() == 0 {
        0
    } else {
        total_tokens(corpus.drop_last()) + corpus.last().len()
    }
}

/// The sum of `lengths`.
pub open spec fn sum_of(lengths: Seq<usize>) -> nat
    decreases lengths.len(),
{
    if lengths.len() == 0 {
        0
    } else {
        sum_of(lengths.drop_last()) + lengths.last() as nat
    }
}

/// The number of tables among `tables` that have an entry for `token`.
pub open spec fn entry_frequency(tables: Seq<Vec<TermFrequency>>, token: Seq<char>) -> nat
    decreases tables.len(),
{
    if tables.len() == 0 {
        0
    } else {
        entry_frequency(tables.drop_last(), token) + if has_entry(tables.last()@, token) {
            1nat
        } else {
            0nat
        }
    }
}

/// Whether `tables` holds the table of each document of `corpus`.
pub open spec fn are_tables_of(tables: Seq<Vec<TermFrequency>>, corpus: Seq<Seq<Seq<char>>>) -> bool {
    &&& tables.len() == corpus.len()
    &&& forall|i: int| 0 <= i < tables.len() ==> is_table_of((#[trigger] tables[i])@, corpus[i])
}

/// A token occurs in no more documents than there are.
pub proof fn lemma_document_frequency_bound(corpus: Seq<Seq<Seq<char>>>, token: Seq<char>)
    ensures
        document_frequency(corpus, token) <= corpus.len(),
    decreases corpus.len(),
{
    if corpus.len() > 0 {
        lemma_document_frequency_bound(corpus.drop_last(), token);
    }
}

/// A token that occurs in a document of the corpus occurs in at least one
/// document.
pub proof fn lemma_document_frequency_of_occurring(
    corpus: Seq<Seq<Seq<char>>>,
    token: Seq<char>,
    index: int,
)
    requires
        0 <= index < corpus.len(),
        occurrences(corpus[index], token) > 0,
    ensures
        document_frequency(corpus, token) >= 1,
    decreases corpus.len(),
{
    if index < corpus.len() - 1 {
        lemma_document_frequency_of_occurring(corpus.drop_last(), token, index);
    }
}

/// A token occurs in as many documents as there are exactly when it occurs
/// in every document. For such a token the quotient of the two numbers is
/// one, and its logarithm zero.
pub proof fn lemma_document_frequency_of_common(corpus: Seq<Seq<Seq<char>>>, token: Seq<char>)
    ensures
        document_frequency(corpus, token) == corpus.len() <==> forall|i: int|
            0 <= i < corpus.len() ==> occurrences(#[trigger] corpus[i], token) > 0,
    decreases corpus.len(),
{
    if corpus.len() > 0 {
        let rest = corpus.drop_last();
        lemma_document_frequency_of_common(rest, token);
        lemma_document_frequency_bound(rest, token);
        if document_frequency(corpus, token) == corpus.len() {
            assert forall|i: int| 0 <= i < corpus.len() implies occurrences(
                #[trigger] corpus[i],
                token,
            ) > 0 by {
                if i < corpus.len() - 1 {
                    assert(rest[i] == corpus[i]);
                }
            }
        }
        if forall|i: int| 0 <= i < corpus.len() ==> occurrences(#[trigger] corpus[i], token) > 0 {
            assert forall|i: int| 0 <= i < rest.len() implies occurrences(
                #[trigger] rest[i],
                token,
            ) > 0 by {
                assert(rest[i] == corpus[i]);
            }
            assert(occurrences(corpus[corpus.len() - 1], token) > 0);
        }
    }
}

proof fn lemma_entry_frequency_bound(tables: Seq<Vec<TermFrequency>>, token: Seq<char>)
    ensures
        entry_frequency(tables, token) <= tables.len(),
    decreases tables.len(),
{
    if tables.len() > 0 {
        lemma_entry_frequency_bound(tables.drop_last(), token);
    }
}

/// Counting the tables with an entry for a token counts the documents in
/// which the token occurs.
proof fn lemma_entries_are_documents(
    tables: Seq<Vec<TermFrequency>>,
    corpus: Seq<Seq<Seq<char>>>,
    token: Seq<char>,
)
    requires
        are_tables_of(tables, corpus),
    ensures
        entry_frequency(tables, token) == document_frequency(corpus, token),
    decreases tables.len(),
{
    if tables.len() > 0 {
        let table = tables.last()@;
        assert(is_table_of(table, corpus.last()));
        assert(count_in(table, token) == occurrences(corpus.last(), token));
        if has_entry(table, token) {
            let k = choose|k: int| 0 <= k < table.len() && (#[trigger] table[k]).token@ == token;
            lemma_count_at(table, k);
        }
        assert forall|i: int| 0 <= i < tables.drop_last().len() implies is_table_of(
            (#[trigger] tables.drop_last()[i])@,
            corpus.drop_last()[i],
        ) by {
            assert(is_table_of(tables[i]@, corpus[i]));
        }
        lemma_entries_are_documents(tables.drop_last(), corpus.drop_last(), token);
    }
}

/// The sum of the document lengths is the number of tokens of the corpus.
proof fn lemma_sum_of_lengths(lengths: Seq<usize>, corpus: Seq<Seq<Seq<char>>>)
    requires
        lengths.len() == corpus.len(),
        forall|i: int| 0 <= i < lengths.len() ==> #[trigger] lengths[i] == corpus[i].len(),
    ensures
        sum_of(lengths) == total_tokens(corpus),
    decreases lengths.len(),
{
    if lengths.len() > 0 {
        assert(lengths.last() == corpus.last().len());
        assert forall|i: int| 0 <= i < lengths.drop_last().len() implies #[trigger] lengths.drop_last()[i]
            == corpus.drop_last()[i].len() by {
            assert(lengths[i] == corpus[i].len());
        }
        lemma_sum_of_lengths(lengths.drop_last(), corpus.drop_last());
    }
}

proof fn lemma_sum_bound(lengths: Seq<usize>)
    ensures
        sum_of(lengths) <= lengths.len() * usize::MAX,
    decreases lengths.len(),
{
    if lengths.len() > 0 {
        lemma_sum_bound(lengths.drop_last());
        assert((lengths.len() - 1) * usize::MAX + usize::MAX == lengths.len() * usize::MAX)
            by (nonlinear_arith);
    }
}

proof fn lemma_total_of_prefix(table: Seq<TermFrequency>, k: int)
    requires
        0 <= k <= table.len(),
    ensures
        total_count(table.take(k)) <= total_count(table),
    decreases table.len() - k,
{
    if k < table.len() {
        assert(table.take(k + 1).drop_last() =~= table.take(k));
        lemma_total_of_prefix(table, k + 1);
    } else {
        assert(table.take(k) =~= table);
    }
}

/// The sum of the counts of `table`.
fn sum_counts(table: &Vec<TermFrequency>) -> (sum: usize)
    requires
        total_count(table@) <= usize::MAX,
    ensures
        sum == total_count(table@),
{
    let mut sum: usize = 0;
    let mut k: usize = 0;
    while k < table.len()
        invariant
            k <= table.len(),
            sum == total_count(table@.take(k as int)),
            total_count(table@) <= usize::MAX,
        decreases table.len() - k,
    {
        proof {
            assert(table@.take(k + 1).drop_last() =~= table@.take(k as int));
            lemma_total_of_prefix(table@, k + 1);
        }
        sum = sum + table[k].count;
        k += 1;
    }
    proof {
        assert(table@.take(k as int) =~= table@);
    }
    sum
}

/// The term-frequency table of each document, in corpus order.
pub fn index_documents(documents: &Vec<Document>) -> (tables: Vec<Vec<TermFrequency>>)
    ensures
        are_tables_of(tables@, corpus_tokens(documents.deep_view())),
        forall|i: int| 0 <= i < tables.len() ==> total_count((#[trigger] tables@[i])@) <= usize::MAX,
{
    let mut tables: Vec<Vec<TermFrequency>> = Vec::new();
    let mut i: usize = 0;
    let ghost corpus = corpus_tokens(documents.deep_view());
    while i < documents.len()
        invariant
            i <= documents.len(),
            tables.len() == i,
            corpus == corpus_tokens(documents.deep_view()),
            forall|k: int| 0 <= k < i ==> is_table_of((#[trigger] tables@[k])@, corpus[k]),
            forall|k: int| 0 <= k < i ==> total_count((#[trigger] tables@[k])@) <= usize::MAX,
        decreases documents.len() - i,
    {
        let table = compute_term_frequencies(&documents[i]);
        proof {
            assert(documents.deep_view()[i as int] == documents@[i as int]@);
        }
        tables.push(table);
        i += 1;
    }
    tables
}

/// The length of each document whose table `tables` holds: the sum of the
/// counts of its table.
fn lengths_of(tables: &Vec<Vec<TermFrequency>>) -> (lengths: Vec<usize>)
    requires
        forall|i: int| 0 <= i < tables.len() ==> total_count((#[trigger] tables@[i])@) <= usize::MAX,
    ensures
        lengths.len() == tables.len(),
        forall|i: int| 0 <= i < lengths.len() ==> #[trigger] lengths@[i] == total_count(tables@[i]@),
{
    let mut lengths: Vec<usize> = Vec::new();
    let mut i: usize = 0;
    while i < tables.len()
        invariant
            i <= tables.len(),
            lengths.len() == i,
            forall|k: int|
                0 <= k < tables.len() ==> total_count((#[trigger] tables@[k])@) <= usize::MAX,
            forall|k: int| 0 <= k < i ==> #[trigger] lengths@[k] == total_count(tables@[k]@),
        decreases tables.len() - i,
    {
        let length = sum_counts(&tables[i]);
        lengths.push(length);
        i += 1;
    }
    lengths
}

/// The sum of `lengths`.
pub fn compute_total_length(lengths: &Vec<usize>) -> (total: u128)
    ensures
        total == sum_of(lengths@),
{
    let mut total: u128 = 0;
    let mut i: usize = 0;
    while i < lengths.len()
        invariant
            i <= lengths.len(),
            total == sum_of(lengths@.take(i as int)),
        decreases lengths.len() - i,
    {
        proof {
            let next = lengths@.take(i + 1);
            assert(next.drop_last() =~= lengths@.take(i as int));
            lemma_sum_bound(next);
            assert(next.len() * usize::MAX <= 0xffff_ffff_ffff_ffff * 0xffff_ffff_ffff_ffff)
                by (nonlinear_arith)
                requires
                    next.len() <= 0xffff_ffff_ffff_ffff,
                    usize::MAX <= 0xffff_ffff_ffff_ffff,
            ;
        }
        total = total + lengths[i] as u128;
        i += 1;
    }
    proof {
        assert(lengths@.take(i as int) =~= lengths@);
    }
    total
}

/// For each token with an entry in one of `tables`, the number of tables
/// that have one.
fn frequencies_of(tables: &Vec<Vec<TermFrequency>>) -> (frequencies: Vec<TermFrequency>)
    requires
        forall|i: int| 0 <= i < tables.len() ==> is_table((#[trigger] tables@[i])@),
    ensures
        is_table(frequencies@),
        forall|t: Seq<char>| #[trigger] count_in(frequencies@, t) == entry_frequency(tables@, t),
{
    let mut frequencies: Vec<TermFrequency> = Vec::new();
    let mut i: usize = 0;
    proof {
        assert forall|t: Seq<char>| #[trigger] count_in(frequencies@, t) == entry_frequency(
            tables@.take(0),
            t,
        ) by {}
    }
    while i < tables.len()
        invariant
            i <= tables.len(),
            forall|k: int| 0 <= k < tables.len() ==> is_table((#[trigger] tables@[k])@),
            is_table(frequencies@),
            forall|t: Seq<char>|
                #[trigger] count_in(frequencies@, t) == entry_frequency(tables@.take(i as int), t),
        decreases tables.len() - i,
    {
        let table = &tables[i];
        let ghost seen = tables@.take(i as int);
        let mut j: usize = 0;
        proof {
            assert forall|t: Seq<char>| !has_entry(table@.take(0), t) by {}
        }
        while j < table.len()
            invariant
                j <= table.len(),
                i < tables.len(),
                seen == tables@.take(i as int),
                is_table(table@),
                is_table(frequencies@),
                forall|t: Seq<char>|
                    #[trigger] count_in(frequencies@, t) == entry_frequency(seen, t) + if has_entry(
                        table@.take(j as int),
                        t,
                    ) {
                        1nat
                    } else {
                        0nat
                    },
            decreases table.len() - j,
        {
            let token = table[j].token.clone();
            let ghost before = frequencies@;
            let ghost done = table@.take(j as int);
            let ghost next = table@.take(j + 1);
            proof {
                lemma_precedes_irreflexive(token@);
                assert forall|k: int| 0 <= k < done.len() implies (#[trigger] done[k]).token@
                    != token@ by {
                    assert(precedes(table@[k].token@, table@[j as int].token@));
                }
                assert(!has_entry(done, token@));
                lemma_entry_frequency_bound(seen, token@);
                assert(count_in(before, token@) == entry_frequency(seen, token@));
            }
            add_occurrence(&mut frequencies, token);
            proof {
                assert forall|t: Seq<char>|
                    #[trigger] count_in(frequencies@, t) == entry_frequency(seen, t) + if has_entry(
                        next,
                        t,
                    ) {
                        1nat
                    } else {
                        0nat
                    } by {
                    assert(count_in(frequencies@, t) == count_in(before, t) + if t == token@ {
                        1nat
                    } else {
                        0nat
                    });
                    if has_entry(done, t) {
                        let k = choose|k: int| 0 <= k < done.len() && (#[trigger] done[k]).token@ == t;
                        assert(next[k].token@ == t);
                    }
                    if t == token@ {
                        assert(next[j as int].token@ == t);
                    }
                    if has_entry(next, t) && t != token@ {
                        let k = choose|k: int| 0 <= k < next.len() && (#[trigger] next[k]).token@ == t;
                        assert(done[k].token@ == t);
                    }
                }
            }
            j += 1;
        }
        proof {
            assert(table@.take(j as int) =~= table@);
            assert(tables@.take(i + 1).drop_last() =~= seen);
            assert(tables@.take(i + 1).last() == tables@[i as int]);
        }
        i += 1;
    }
    proof {
        assert(tables@.take(i as int) =~= tables@);
    }
    frequencies
}

/// The length of each document, in corpus order: the number of its tokens,
/// which is the sum of the counts of its term-frequency table.
pub fn compute_document_lengths(documents: &Vec<Document>) -> (lengths: Vec<usize>)
    ensures
        lengths.len() == documents.len(),
        forall|i: int|
            0 <= i < lengths.len() ==> #[trigger] lengths@[i] == tokens_of(documents@[i].text@).len(),
{
    let tables = index_documents(documents);
    let lengths = lengths_of(&tables);
    proof {
        assert forall|i: int| 0 <= i < lengths.len() implies #[trigger] lengths@[i] == tokens_of(
            documents@[i].text@,
        ).len() by {
            assert(is_table_of(tables@[i]@, corpus_tokens(documents.deep_view())[i]));
            assert(documents.deep_view()[i] == documents@[i]@);
        }
    }
    lengths
}

/// For each token of the corpus, the number of documents in which it
/// occurs, as a table.
pub fn compute_document_frequencies(documents: &Vec<Document>) -> (frequencies: Vec<TermFrequency>)
    ensures
        is_table(frequencies@),
        forall|t: Seq<char>|
            #[trigger] count_in(frequencies@, t) == document_frequency(
                corpus_tokens(documents.deep_view()),
                t,
            ),
{
    let tables = index_documents(documents);
    let frequencies = frequencies_of(&tables);
    proof {
        assert forall|t: Seq<char>|
            #[trigger] count_in(frequencies@, t) == document_frequency(
                corpus_tokens(documents.deep_view()),
                t,
            ) by {
            lemma_entries_are_documents(tables@, corpus_tokens(documents.deep_view()), t);
        }
    }
    frequencies
}

/// The statistics of a corpus without documents cannot be built.
#[derive(Debug, Clone, Copy, PartialEq, Eq)]
pub struct EmptyCorpusError;

/// The statistics of a corpus of at least one document.
pub struct CorpusStatistics {
    tables: Vec<Vec<TermFrequency>>,
    lengths: Vec<usize>,
    total_length: u128,
    frequencies: Vec<TermFrequency>,
    corpus: Ghost<Seq<Seq<Seq<char>>>>,
}

impl View for CorpusStatistics {
    type V = Seq<Seq<Seq<char>>>;

    /// The corpus that the statistics describe: the tokens of each of its
    /// documents.
    closed spec fn view(&self) -> Seq<Seq<Seq<char>>> {
        self.corpus@
    }
}

impl CorpusStatistics {
    #[verifier::type_invariant]
    spec fn well_formed(self) -> bool {
        &&& self.corpus@.len() > 0
        &&& are_tables_of(self.tables@, self.corpus@)
        &&& self.lengths.len() == self.corpus@.len()
        &&& forall|i: int|
            0 <= i < self.lengths.len() ==> #[trigger] self.lengths@[i] == self.corpus@[i].len()
        &&& self.total_length == total_tokens(self.corpus@)
        &&& is_table(self.frequencies@)
        &&& forall|t: Seq<char>|
            #[trigger] count_in(self.frequencies@, t) == document_frequency(self.corpus@, t)
    }

    /// Builds the statistics of `documents`. A corpus without documents has
    /// no average length, and so no statistics.
    pub fn build(documents: &Vec<Document>) -> (result: Result<CorpusStatistics, EmptyCorpusError>)
        ensures
            result is Err <==> documents.len() == 0,
            result matches Ok(statistics) ==> statistics@ == corpus_tokens(documents.deep_view()),
    {
        if documents.len() == 0 {
            return Err(EmptyCorpusError);
        }
        let ghost corpus = corpus_tokens(documents.deep_view());
        let tables = index_documents(documents);
        let lengths = lengths_of(&tables);
        let total_length = compute_total_length(&lengths);
        let frequencies = frequencies_of(&tables);
        proof {
            assert forall|i: int| 0 <= i < lengths.len() implies #[trigger] lengths@[i]
                == corpus[i].len() by {
                assert(is_table_of(tables@[i]@, corpus[i]));
            }
            lemma_sum_of_lengths(lengths@, corpus);
            assert forall|t: Seq<char>|
                #[trigger] count_in(frequencies@, t) == document_frequency(corpus, t) by {
                lemma_entries_are_documents(tables@, corpus, t);
            }
        }
        Ok(CorpusStatistics { tables, lengths, total_length, frequencies, corpus: Ghost(corpus) })
    }

    /// The number of documents, which is never zero.
    pub fn document_count(&self) -> (count: usize)
        ensures
            count == self@.len(),
            count > 0,
    {
        proof {
            use_type_invariant(self);
        }
        self.lengths.len()
    }

    /// The number of tokens of the document at `index`.
    pub fn document_length(&self, index: usize) -> (length: usize)
        requires
            index < self@.len(),
        ensures
            length == self@[index as int].len(),
    {
        proof {
            use_type_invariant(self);
        }
        self.lengths[index]
    }

    /// The number of tokens of all documents together. Divided by the
    /// number of documents it is the average document length.
    pub fn total_length(&self) -> (total: u128)
        ensures
            total == total_tokens(self@),
    {
        proof {
            use_type_invariant(self);
        }
        self.total_length
    }

    /// The number of times that `token` occurs in the document at `index`.
    pub fn term_frequency(&self, index: usize, token: &String) -> (count: usize)
        requires
            index < self@.len(),
        ensures
            count == occurrences(self@[index as int], token@),
    {
        proof {
            use_type_invariant(self);
            assert(is_table_of(self.tables@[index as int]@, self.corpus@[index as int]));
        }
        count_of(&self.tables[index], token)
    }

    /// The number of documents in which `token` occurs: zero for a token
    /// that is not in the vocabulary of the corpus.
    pub fn document_frequency(&self, token: &String) -> (count: usize)
        ensures
            count == document_frequency(self@, token@),
    {
        proof {
            use_type_invariant(self);
        }
        count_of(&self.frequencies, token)
    }

    /// The length of each document, in corpus order.
    pub fn document_lengths(&self) -> (lengths: &Vec<usize>)
        ensures
            lengths.len() == self@.len(),
            forall|i: int| 0 <= i < lengths.len() ==> #[trigger] lengths@[i] == self@[i].len(),
    {
        proof {
            use_type_invariant(self);
        }
        &self.lengths
    }

    /// For each token of the corpus, the number of documents in which it
    /// occurs, as a table.
    pub fn document_frequencies(&self) -> (frequencies: &Vec<TermFrequency>)
        ensures
            is_table(frequencies@),
            forall|t: Seq<char>|
                #[trigger] count_in(frequencies@, t) == document_frequency(self@, t),
    {
        proof {
            use_type_invariant(self);
        }
        &self.frequencies
    }

    /// The term-frequency table of the document at `index`.
    pub fn term_frequencies(&self, index: usize) -> (table: &Vec<TermFrequency>)
        requires
            index < self@.len(),
        ensures
            is_table_of(table@, self@[index as int]),
    {
        proof {
            use_type_invariant(self);
            assert(is_table_of(self.tables@[index as int]@, self.corpus@[index as int]));
        }
        &self.tables[index]
    }
}

} // verus!
