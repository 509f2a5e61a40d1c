//! Term-frequency tables: how often each token occurs in a sequence of
//! tokens.
//!
//! A table is kept as a vector of entries in ascending order of their
//! tokens, one entry for each token that occurs. It stands for the function
//! from tokens to counts that `count_in` gives.

use crate::corpus::Document;
use crate::tokenizer::{tokenize, tokens_of};
use vstd::prelude::*;

verus! {

/// A token and the number of times it occurs.
#[derive(Debug, PartialEq, Eq)]
pub struct TermFrequency {
    pub token: String,
    pub count: usize,
}

/// The order of tokens: `a` stands before `b` when, at the first place
/// where they differ, `a` has the character with the smaller code point, or
/// when `a` ends there and `b` goes on.
pub open spec fn precedes(a: Seq<char>, b: Seq<char>) -> bool
    decreases a.len(),
{
    if b.len() == 0 {
        false
    } else if a.len() == 0 {
        true
    } else if a[0] != b[0] {
        (a[0] as int) < (b[0] as int)
    } else {
        precedes(a.drop_first(), b.drop_first())
    }
}

/// No token stands before itself.
pub proof fn lemma_precedes_irreflexive(a: Seq<char>)
    ensures
        !precedes(a, a),
    decreases a.len(),
{
    if a.len() > 0 {
        lemma_precedes_irreflexive(a.drop_first());
    }
}

/// The order of tokens is transitive.
pub proof fn lemma_precedes_transitive(a: Seq<char>, b: Seq<char>, c: Seq<char>)
    requires
        precedes(a, b),
        precedes(b, c),
    ensures
        precedes(a, c),
    decreases a.len(),
{
    if a.len() > 0 && a[0] == b[0] && b[0] == c[0] {
        lemma_precedes_transitive(a.drop_first(), b.drop_first(), c.drop_first());
    }
}

/// Of two different tokens one stands before the other.
pub proof fn lemma_precedes_connected(a: Seq<char>, b: Seq<char>)
    requires
        a != b,
    ensures
        precedes(a, b) || precedes(b, a),
    decreases a.len(),
{
    if a.len() == 0 || b.len() == 0 {
        if a.len() == 0 && b.len() == 0 {
            assert(a =~= b);
        }
    } else if a[0] == b[0] {
        if a.drop_first() == b.drop_first() {
            assert(a =~= seq![a[0]] + a.drop_first());
            assert(b =~= seq![b[0]] + b.drop_first());
        }
        lemma_precedes_connected(a.drop_first(), b.drop_first());
    } else {
        assert(a[0] as int != b[0] as int);
    }
}

/// `str`'s `<` compares two strings byte by byte, which orders them by the
/// code points of their characters: the first difference decides, and a
/// string stands before every longer string that starts with it.
#[verifier::external_body]
fn comes_before(a: &String, b: &String) -> (r: bool)
    ensures
        r == precedes(a@, b@),
{
    a.as_str() < b.as_str()
}

/// How often `token` occurs in `tokens`.
pub open spec fn occurrences(tokens: Seq<Seq<char>>, token: Seq<char>) -> nat
    decreases tokens.len(),
{
    if tokens.len() == 0 {
        0
    } else {
        occurrences(tokens.drop_last(), token) + if tokens.last() == token {
            1nat
        } else {
            0nat
        }
    }
}

/// A token occurs no more often than there are tokens.
pub proof fn lemma_occurrences_bound(tokens: Seq<Seq<char>>, token: Seq<char>)
    ensures
        occurrences(tokens, token) <= tokens.len(),
    decreases tokens.len(),
{
    if tokens.len() > 0 {
        lemma_occurrences_bound(tokens.drop_last(), token);
    }
}

/// Whether `table` is a table: its entries stand in strictly ascending
/// order of their tokens, so that no token has two entries, and no entry
/// has the count zero.
pub open spec fn is_table(table: Seq<TermFrequency>) -> bool {
    &&& forall|k: int, l: int|
        0 <= k < l < table.len() ==> precedes(
            (#[trigger] table[k]).token@,
            (#[trigger] table[l]).token@,
        )
    &&& forall|k: int| 0 <= k < table.len() ==> (#[trigger] table[k]).count > 0
}

/// Whether `table` has an entry for `token`.
pub open spec fn has_entry(table: Seq<TermFrequency>, token: Seq<char>) -> bool {
    exists|k: int| 0 <= k < table.len() && (#[trigger] table[k]).token@ == token
}

/// The count that `table` gives for `token`: that of its entry for the
/// token, and zero where it has none.
pub open spec fn count_in(table: Seq<TermFrequency>, token: Seq<char>) -> nat {
    if has_entry(table, token) {
        let k = choose|k: int| 0 <= k < table.len() && (#[trigger] table[k]).token@ == token;
        table[k].count as nat
    } else {
        0
    }
}

/// The sum of all counts of `table`.
pub open spec fn total_count(table: Seq<TermFrequency>) -> nat
    decreases table.len(),
{
    if table.len() == 0 {
        0
    } else {
        total_count(table.drop_last()) + table.last().count as nat
    }
}

/// The count that a table gives for the token of one of its entries is the
/// count of that entry.
pub proof fn lemma_count_at(table: Seq<TermFrequency>, k: int)
    requires
        is_table(table),
        0 <= k < table.len(),
    ensures
        has_entry(table, table[k].token@),
        count_in(table, table[k].token@) == table[k].count,
{
    let token = table[k].token@;
    let j = choose|j: int| 0 <= j < table.len() && (#[trigger] table[j]).token@ == token;
    lemma_precedes_irreflexive(token);
    if j < k {
        assert(precedes(table[j].token@, table[k].token@));
    } else if k < j {
        assert(precedes(table[k].token@, table[j].token@));
    }
}

/// The sum of the counts after one more entry was put in.
proof fn lemma_total_insert(table: Seq<TermFrequency>, p: int, entry: TermFrequency)
    requires
        0 <= p <= table.len(),
    ensures
        total_count(table.insert(p, entry)) == total_count(table) + entry.count,
    decreases table.len() - p,
{
    let bigger = table.insert(p, entry);
    if p == table.len() {
        assert(bigger.drop_last() =~= table);
    } else {
        assert(bigger.drop_last() =~= table.drop_last().insert(p, entry));
        assert(bigger.last() == table.last());
        lemma_total_insert(table.drop_last(), p, entry);
    }
}

/// The sum of the counts after one entry was replaced.
proof fn lemma_total_update(table: Seq<TermFrequency>, p: int, entry: TermFrequency)
    requires
        0 <= p < table.len(),
    ensures
        total_count(table.update(p, entry)) == total_count(table) - table[p].count + entry.count,
    decreases table.len() - p,
{
    let changed = table.update(p, entry);
    if p == table.len() - 1 {
        assert(changed.drop_last() =~= table.drop_last());
    } else {
        assert(changed.drop_last() =~= table.drop_last().update(p, entry));
        assert(changed.last() == table.last());
        lemma_total_update(table.drop_last(), p, entry);
    }
}

/// The place of `token` in `table`: that of its entry where it has one, and
/// the place where its entry would have to stand where it has none.
fn place_of(table: &Vec<TermFrequency>, token: &String) -> (p: usize)
    requires
        is_table(table@),
    ensures
        p <= table.len(),
        forall|k: int| 0 <= k < p ==> precedes((#[trigger] table@[k]).token@, token@),
        forall|k: int| p <= k < table.len() ==> !precedes((#[trigger] table@[k]).token@, token@),
{
    let mut low: usize = 0;
    let mut high: usize = table.len();
    while low < high
        invariant
            low <= high <= table.len(),
            is_table(table@),
            forall|k: int| 0 <= k < low ==> precedes((#[trigger] table@[k]).token@, token@),
            forall|k: int|
                high <= k < table.len() ==> !precedes((#[trigger] table@[k]).token@, token@),
        decreases high - low,
    {
        let middle: usize = low + (high - low) / 2;
        if comes_before(&table[middle].token, token) {
            proof {
                assert forall|k: int| 0 <= k <= middle implies precedes(
                    (#[trigger] table@[k]).token@,
                    token@,
                ) by {
                    if k < middle {
                        assert(precedes(table@[k].token@, table@[middle as int].token@));
                        lemma_precedes_transitive(
                            table@[k].token@,
                            table@[middle as int].token@,
                            token@,
                        );
                    }
                }
            }
            low = middle + 1;
        } else {
            proof {
                assert forall|k: int| middle <= k < table.len() implies !precedes(
                    (#[trigger] table@[k]).token@,
                    token@,
                ) by {
                    if middle < k && precedes(table@[k].token@, token@) {
                        assert(precedes(table@[middle as int].token@, table@[k].token@));
                        lemma_precedes_transitive(
                            table@[middle as int].token@,
                            table@[k].token@,
                            token@,
                        );
                    }
                }
            }
            high = middle;
        }
    }
    low
}

/// Where the entry at the place of `token` is not one for `token`, the
/// table has no entry for it.
proof fn lemma_no_entry(table: Seq<TermFrequency>, token: Seq<char>, p: int)
    requires
        is_table(table),
        0 <= p <= table.len(),
        forall|k: int| 0 <= k < p ==> precedes((#[trigger] table[k]).token@, token),
        forall|k: int| p <= k < table.len() ==> !precedes((#[trigger] table[k]).token@, token),
        p < table.len() ==> table[p].token@ != token,
    ensures
        !has_entry(table, token),
        count_in(table, token) == 0,
{
    lemma_precedes_irreflexive(token);
    assert forall|k: int| 0 <= k < table.len() implies (#[trigger] table[k]).token@ != token by {
        if k > p && table[k].token@ == token {
            assert(precedes(table[p].token@, table[k].token@));
        }
    }
}

/// The number of times that `token` occurs according to `table`.
pub fn count_of(table: &Vec<TermFrequency>, token: &String) -> (count: usize)
    requires
        is_table(table@),
    ensures
        count == count_in(table@, token@),
{
    let p = place_of(table, token);
    if p < table.len() && table[p].token.eq(token) {
        proof {
            lemma_count_at(table@, p as int);
        }
        table[p].count
    } else {
        proof {
            lemma_no_entry(table@, token@, p as int);
        }
        0
    }
}

/// Counts one more occurrence of `token` in `table`.
pub fn add_occurrence(table: &mut Vec<TermFrequency>, token: String)
    requires
        is_table(old(table)@),
        count_in(old(table)@, token@) < usize::MAX,
    ensures
        is_table(final(table)@),
        forall|t: Seq<char>|
            count_in(final(table)@, t) == #[trigger] count_in(old(table)@, t) + if t == token@ {
                1nat
            } else {
                0nat
            },
        total_count(final(table)@) == total_count(old(table)@) + 1,
{
    let p = place_of(table, &token);
    let ghost before = table@;
    if p < table.len() && table[p].token.eq(&token) {
        proof {
            lemma_count_at(before, p as int);
        }
        let entry = TermFrequency { token, count: table[p].count + 1 };
        table.set(p, entry);
        proof {
            lemma_total_update(before, p as int, entry);
            lemma_entry_counted_up(before, p as int, entry);
        }
    } else {
        proof {
            lemma_no_entry(before, token@, p as int);
        }
        let entry = TermFrequency { token, count: 1 };
        table.insert(p, entry);
        proof {
            lemma_total_insert(before, p as int, entry);
            lemma_entry_put_in(before, p as int, entry);
        }
    }
}

/// A table in which the count of one entry was raised by one counts one
/// more occurrence of that entry's token and is otherwise unchanged.
proof fn lemma_entry_counted_up(table: Seq<TermFrequency>, p: int, entry: TermFrequency)
    requires
        is_table(table),
        0 <= p < table.len(),
        entry.token@ == table[p].token@,
        entry.count == table[p].count + 1,
    ensures
        is_table(table.update(p, entry)),
        forall|t: Seq<char>|
            count_in(table.update(p, entry), t) == #[trigger] count_in(table, t) + if t
                == entry.token@ {
                1nat
            } else {
                0nat
            },
{
    let changed = table.update(p, entry);
    assert forall|k: int, l: int| 0 <= k < l < changed.len() implies precedes(
        (#[trigger] changed[k]).token@,
        (#[trigger] changed[l]).token@,
    ) by {
        assert(precedes(table[k].token@, table[l].token@));
    }
    assert forall|k: int| 0 <= k < changed.len() implies (#[trigger] changed[k]).count > 0 by {
        assert(table[k].count > 0);
    }
    assert forall|t: Seq<char>|
        count_in(changed, t) == #[trigger] count_in(table, t) + if t == entry.token@ {
            1nat
        } else {
            0nat
        } by {
        if has_entry(table, t) {
            let k = choose|k: int| 0 <= k < table.len() && (#[trigger] table[k]).token@ == t;
            lemma_count_at(table, k);
            lemma_count_at(table, p);
            assert(changed[k].token@ == t);
            lemma_count_at(changed, k);
            if k != p && t == entry.token@ {
                lemma_precedes_irreflexive(t);
                if k < p {
                    assert(precedes(table[k].token@, table[p].token@));
                } else {
                    assert(precedes(table[p].token@, table[k].token@));
                }
            }
        } else {
            assert forall|k: int| 0 <= k < changed.len() implies (#[trigger] changed[k]).token@
                != t by {
                assert(table[k].token@ != t);
            }
        }
    }
}

/// A table into which an entry with the count one was put, at its place and
/// for a token that had none, counts one occurrence of that token and is
/// otherwise unchanged.
proof fn lemma_entry_put_in(table: Seq<TermFrequency>, p: int, entry: TermFrequency)
    requires
        is_table(table),
        0 <= p <= table.len(),
        forall|k: int| 0 <= k < p ==> precedes((#[trigger] table[k]).token@, entry.token@),
        forall|k: int|
            p <= k < table.len() ==> !precedes((#[trigger] table[k]).token@, entry.token@),
        !has_entry(table, entry.token@),
        entry.count == 1,
    ensures
        is_table(table.insert(p, entry)),
        forall|t: Seq<char>|
            count_in(table.insert(p, entry), t) == #[trigger] count_in(table, t) + if t
                == entry.token@ {
                1nat
            } else {
                0nat
            },
{
    let bigger = table.insert(p, entry);
    assert forall|k: int| 0 <= k < bigger.len() implies #[trigger] bigger[k] == (if k < p {
        table[k]
    } else if k == p {
        entry
    } else {
        table[k - 1]
    }) by {}
    assert forall|k: int| p <= k < table.len() implies precedes(
        entry.token@,
        (#[trigger] table[k]).token@,
    ) by {
        assert(table[k].token@ != entry.token@);
        lemma_precedes_connected(entry.token@, table[k].token@);
    }
    assert forall|k: int, l: int| 0 <= k < l < bigger.len() implies precedes(
        (#[trigger] bigger[k]).token@,
        (#[trigger] bigger[l]).token@,
    ) by {
        if l < p {
            assert(precedes(table[k].token@, table[l].token@));
        } else if l == p {
            assert(precedes(table[k].token@, entry.token@));
        } else if k < p {
            assert(precedes(table[k].token@, table[l - 1].token@));
        } else if k == p {
            assert(precedes(entry.token@, table[l - 1].token@));
        } else {
            assert(precedes(table[k - 1].token@, table[l - 1].token@));
        }
    }
    assert forall|k: int| 0 <= k < bigger.len() implies (#[trigger] bigger[k]).count > 0 by {
        if k < p {
            assert(table[k].count > 0);
        } else if k > p {
            assert(table[k - 1].count > 0);
        }
    }
    assert forall|t: Seq<char>|
        count_in(bigger, t) == #[trigger] count_in(table, t) + if t == entry.token@ {
            1nat
        } else {
            0nat
        } by {
        if has_entry(table, t) {
            let k = choose|k: int| 0 <= k < table.len() && (#[trigger] table[k]).token@ == t;
            lemma_count_at(table, k);
            let at = if k < p {
                k
            } else {
                k + 1
            };
            assert(bigger[at] == table[k]);
            lemma_count_at(bigger, at);
        } else if t == entry.token@ {
            assert(bigger[p] == entry);
            lemma_count_at(bigger, p);
        } else {
            assert forall|k: int| 0 <= k < bigger.len() implies (#[trigger] bigger[k]).token@
                != t by {
                if k < p {
                    assert(table[k].token@ != t);
                } else if k > p {
                    assert(table[k - 1].token@ != t);
                }
            }
        }
    }
}

/// Whether `table` is the table of `tokens`: it gives every token the
/// number of its occurrences in `tokens`.
pub open spec fn is_table_of(table: Seq<TermFrequency>, tokens: Seq<Seq<char>>) -> bool {
    &&& is_table(table)
    &&& forall|t: Seq<char>| #[trigger] count_in(table, t) == occurrences(tokens, t)
    &&& total_count(table) == tokens.len()
}

/// Where two tables give every token the same count, each entry of the
/// first has its like at the same place of the second.
proof fn lemma_same_entry(first: Seq<TermFrequency>, second: Seq<TermFrequency>, k: int)
    requires
        is_table(first),
        is_table(second),
        forall|t: Seq<char>| #[trigger] count_in(first, t) == count_in(second, t),
        0 <= k < first.len(),
    ensures
        k < second.len(),
        first[k].token@ == second[k].token@,
        first[k].count == second[k].count,
    decreases k,
{
    assert forall|j: int| 0 <= j < k implies j < second.len() && (#[trigger] first[j]).token@
        == second[j].token@ by {
        lemma_same_entry(first, second, j);
    }
    let t = first[k].token@;
    lemma_count_at(first, k);
    assert(count_in(first, t) == count_in(second, t));
    assert(has_entry(second, t));
    let l = choose|l: int| 0 <= l < second.len() && (#[trigger] second[l]).token@ == t;
    lemma_precedes_irreflexive(t);
    if l < k {
        assert(first[l].token@ == second[l].token@);
        assert(precedes(first[l].token@, first[k].token@));
    } else if l > k {
        let u = second[k].token@;
        lemma_count_at(second, k);
        assert(count_in(first, u) == count_in(second, u));
        assert(has_entry(first, u));
        let m = choose|m: int| 0 <= m < first.len() && (#[trigger] first[m]).token@ == u;
        lemma_precedes_irreflexive(u);
        assert(precedes(second[k].token@, second[l].token@));
        if m < k {
            assert(first[m].token@ == second[m].token@);
            assert(precedes(second[m].token@, second[k].token@));
        } else if m > k {
            assert(precedes(first[k].token@, first[m].token@));
            lemma_precedes_transitive(t, u, t);
        }
    } else {
        lemma_count_at(second, k);
    }
}

/// A sequence of tokens has one table: two tables of the same tokens have
/// the same tokens with the same counts at the same places.
pub proof fn lemma_table_is_unique(
    first: Seq<TermFrequency>,
    second: Seq<TermFrequency>,
    tokens: Seq<Seq<char>>,
)
    requires
        is_table_of(first, tokens),
        is_table_of(second, tokens),
    ensures
        first.len() == second.len(),
        forall|k: int|
            0 <= k < first.len() ==> (#[trigger] first[k]).token@ == second[k].token@
                && first[k].count == second[k].count,
{
    assert forall|t: Seq<char>| #[trigger] count_in(first, t) == count_in(second, t) by {
        assert(count_in(first, t) == occurrences(tokens, t));
        assert(count_in(second, t) == occurrences(tokens, t));
    }
    assert forall|t: Seq<char>| #[trigger] count_in(second, t) == count_in(first, t) by {
        assert(count_in(first, t) == count_in(second, t));
    }
    if first.len() > 0 {
        lemma_same_entry(first, second, first.len() - 1);
    }
    if second.len() > 0 {
        lemma_same_entry(second, first, second.len() - 1);
    }
    assert forall|k: int| 0 <= k < first.len() implies (#[trigger] first[k]).token@
        == second[k].token@ && first[k].count == second[k].count by {
        lemma_same_entry(first, second, k);
    }
}

/// Counts the occurrences of each token of `tokens`.
pub fn count_tokens(tokens: &Vec<String>) -> (table: Vec<TermFrequency>)
    ensures
        is_table_of(table@, tokens.deep_view()),
{
    let mut table: Vec<TermFrequency> = Vec::new();
    let mut i: usize = 0;
    proof {
        assert forall|t: Seq<char>| #[trigger] count_in(table@, t) == occurrences(
            tokens.deep_view().take(0),
            t,
        ) by {}
    }
    while i < tokens.len()
        invariant
            i <= tokens.len(),
            is_table_of(table@, tokens.deep_view().take(i as int)),
        decreases tokens.len() - i,
    {
        let ghost seen = tokens.deep_view().take(i as int);
        let ghost next = tokens.deep_view().take(i + 1);
        let ghost before = table@;
        let token = tokens[i].clone();
        proof {
            lemma_occurrences_bound(seen, token@);
            assert(count_in(before, token@) == occurrences(seen, token@));
        }
        add_occurrence(&mut table, token);
        proof {
            assert(next.drop_last() =~= seen);
            assert(next.last() == token@);
            assert forall|t: Seq<char>| #[trigger] count_in(table@, t) == occurrences(next, t) by {
                assert(count_in(before, t) == occurrences(seen, t));
            }
        }
        i += 1;
    }
    proof {
        assert(tokens.deep_view().take(i as int) =~= tokens.deep_view());
    }
    table
}

/// The term-frequency table of a document: for each token of its text, the
/// number of times it occurs there.
pub fn compute_term_frequencies(document: &Document) -> (table: Vec<TermFrequency>)
    ensures
        is_table_of(table@, tokens_of(document.text@)),
        total_count(table@) <= usize::MAX,
{
    let tokens = tokenize(document.text.as_str());
    proof {
        assert(tokens.deep_view().len() == tokens.len());
    }
    count_tokens(&tokens)
}

} // verus!
