//! Selection of the best-scoring documents.
//!
//! Documents are named by their place in the corpus. A score is an unsigned
//! number; a larger score is a better one. Of two documents with the same
//! score, the one that stands earlier in the corpus ranks first, so the
//! order of a ranking never depends on anything but the scores. Any two
//! scores can be told apart or are the same: where the caller's values
//! hold one that is no number, the caller gives it the lowest score.

use vstd::prelude::*;

verus! {

/// The number of documents that a search returns where nothing else is
/// asked for.
pub const MAX_SEARCH_RESULTS: usize = 10;

/// Whether document `a` ranks before document `b`: it has the higher score,
/// or the same score and the earlier place in the corpus.
pub open spec fn ranks_before(scores: Seq<u64>, a: int, b: int) -> bool {
    scores[a] > scores[b] || (scores[a] == scores[b] && a < b)
}

/// Whether `ranking` holds the best `limit` of the first `count` documents,
/// best first: all of them where there are no more than `limit`.
pub open spec fn is_top(scores: Seq<u64>, count: int, limit: nat, ranking: Seq<usize>) -> bool {
    &&& ranking.len() == if limit <= count { limit as int } else { count }
    &&& forall|k: int| 0 <= k < ranking.len() ==> 0 <= #[trigger] ranking[k] < count
    &&& forall|k: int, l: int|
        0 <= k < l < ranking.len() ==> ranks_before(
            scores,
            #[trigger] ranking[k] as int,
            #[trigger] ranking[l] as int,
        )
    &&& forall|e: usize, k: int|
        e < count && 0 <= k < ranking.len() && !#[trigger] ranking.contains(e) ==> ranks_before(
            scores,
            #[trigger] ranking[k] as int,
            e as int,
        )
}

/// Whether `ranking` is the ranking of all documents under `limit`: the
/// documents in descending order of score, documents of equal score in
/// corpus order, cut off after `limit` entries.
pub open spec fn is_ranking(scores: Seq<u64>, limit: nat, ranking: Seq<usize>) -> bool {
    is_top(scores, scores.len() as int, limit, ranking)
}

/// Ranks the documents by their scores: `scores[i]` is the score of the
/// document at place `i`. Returns the places of the best `limit` documents,
/// best first.
pub fn rank(scores: &Vec<u64>, limit: usize) -> (ranking: Vec<usize>)
    ensures
        is_ranking(scores@, limit as nat, ranking@),
{
    let mut ranking: Vec<usize> = Vec::new();
    if limit == 0 {
        return ranking;
    }
    let mut d: usize = 0;
    while d < scores.len()
        invariant
            limit > 0,
            d <= scores.len(),
            is_top(scores@, d as int, limit as nat, ranking@),
            ranking.len() < limit ==> forall|e: usize| e < d ==> ranking@.contains(e),
        decreases scores.len() - d,
    {
        let score = scores[d];
        let mut p: usize = ranking.len();
        while p > 0 && scores[ranking[p - 1]] < score
            invariant
                p <= ranking.len(),
                d < scores.len(),
                score == scores@[d as int],
                forall|k: int| 0 <= k < ranking.len() ==> 0 <= #[trigger] ranking@[k] < d,
                forall|k: int|
                    p <= k < ranking.len() ==> scores@[#[trigger] ranking@[k] as int] < score,
            decreases p,
        {
            p -= 1;
        }
        let ghost before = ranking@;
        if p < limit {
            if ranking.len() == limit {
                ranking.pop();
            }
            ranking.insert(p, d);
        }
        proof {
            lemma_next_document(scores@, d, limit as nat, before, p as int, ranking@);
        }
        d += 1;
    }
    ranking
}

/// One step of ranking: the best of the first `d` documents, with document
/// `d` put in at its place and the last entry dropped where that makes one
/// too many, are the best of the first `d + 1`.
proof fn lemma_next_document(
    scores: Seq<u64>,
    d: usize,
    limit: nat,
    old_r: Seq<usize>,
    p: int,
    new_r: Seq<usize>,
)
    requires
        d < scores.len(),
        limit > 0,
        is_top(scores, d as int, limit, old_r),
        old_r.len() < limit ==> forall|e: usize| e < d ==> old_r.contains(e),
        0 <= p <= old_r.len(),
        forall|k: int|
            p <= k < old_r.len() ==> scores[#[trigger] old_r[k] as int] < scores[d as int],
        p > 0 ==> scores[old_r[p - 1] as int] >= scores[d as int],
        new_r == if p < limit {
            (if old_r.len() == limit {
                old_r.drop_last()
            } else {
                old_r
            }).insert(p, d)
        } else {
            old_r
        },
    ensures
        is_top(scores, d + 1, limit, new_r),
        new_r.len() < limit ==> forall|e: usize| e < d + 1 ==> new_r.contains(e),
{
    let n = old_r.len() as int;
    assert forall|k: int| 0 <= k < p implies scores[#[trigger] old_r[k] as int] >= scores[d as int] by {
        if k < p - 1 {
            assert(ranks_before(scores, old_r[k] as int, old_r[p - 1] as int));
        }
    }
    if p < limit {
        let base = if n == limit {
            old_r.drop_last()
        } else {
            old_r
        };
        let m = base.len() as int;
        assert(p <= m);
        assert(new_r.len() == m + 1);
        assert forall|k: int| 0 <= k < new_r.len() implies #[trigger] new_r[k] == (if k < p {
            old_r[k]
        } else if k == p {
            d
        } else {
            old_r[k - 1]
        }) by {}
        assert forall|k: int, l: int| 0 <= k < l < new_r.len() implies ranks_before(
            scores,
            #[trigger] new_r[k] as int,
            #[trigger] new_r[l] as int,
        ) by {
            if l < p {
                assert(ranks_before(scores, old_r[k] as int, old_r[l] as int));
            } else if l == p {
                assert(scores[old_r[k] as int] >= scores[d as int]);
            } else if k < p {
                assert(ranks_before(scores, old_r[k] as int, old_r[l - 1] as int));
            } else if k == p {
                assert(scores[old_r[l - 1] as int] < scores[d as int]);
            } else {
                assert(ranks_before(scores, old_r[k - 1] as int, old_r[l - 1] as int));
            }
        }
        assert(new_r[p] == d);
        assert(new_r.contains(d));
        assert forall|e: usize| old_r.contains(e) && (n == limit ==> e != old_r[n - 1]) implies new_r.contains(e) by {
            let j = choose|j: int| 0 <= j < n && old_r[j] == e;
            if j < p {
                assert(new_r[j] == e);
            } else {
                assert(new_r[j + 1] == e);
            }
        }
        assert forall|e: usize, k: int|
            e < d + 1 && 0 <= k < new_r.len() && !#[trigger] new_r.contains(e) implies ranks_before(
            scores,
            #[trigger] new_r[k] as int,
            e as int,
        ) by {
            assert(e != d);
            if old_r.contains(e) {
                assert(n == limit && e == old_r[n - 1]);
                if k < p {
                    assert(ranks_before(scores, old_r[k] as int, old_r[n - 1] as int));
                } else if k == p {
                    assert(scores[old_r[n - 1] as int] < scores[d as int]);
                } else {
                    assert(ranks_before(scores, old_r[k - 1] as int, old_r[n - 1] as int));
                }
            } else {
                assert(n == limit);
                if k < p {
                    assert(ranks_before(scores, old_r[k] as int, e as int));
                } else if k == p {
                    assert(scores[old_r[n - 1] as int] < scores[d as int]);
                    assert(ranks_before(scores, old_r[n - 1] as int, e as int));
                } else {
                    assert(ranks_before(scores, old_r[k - 1] as int, e as int));
                }
            }
        }
        if new_r.len() < limit {
            assert forall|e: usize| e < d + 1 implies new_r.contains(e) by {
                if e != d {
                    assert(old_r.contains(e));
                }
            }
        }
    } else {
        assert(p == n && n == limit);
        assert forall|e: usize, k: int|
            e < d + 1 && 0 <= k < new_r.len() && !#[trigger] new_r.contains(e) implies ranks_before(
            scores,
            #[trigger] new_r[k] as int,
            e as int,
        ) by {
            if e == d {
                assert(scores[old_r[k] as int] >= scores[d as int]);
            } else {
                assert(ranks_before(scores, old_r[k] as int, e as int));
            }
        }
    }
}

/// Where two rankings of the same scores agree before place `k` and differ
/// at it, the entry of the first at `k` ranks before that of the second.
proof fn lemma_differing_entry(
    scores: Seq<u64>,
    limit: nat,
    first: Seq<usize>,
    second: Seq<usize>,
    k: int,
)
    requires
        is_ranking(scores, limit, first),
        is_ranking(scores, limit, second),
        0 <= k < first.len(),
        forall|j: int| 0 <= j < k ==> first[j] == second[j],
        first[k] != second[k],
    ensures
        ranks_before(scores, first[k] as int, second[k] as int),
{
    let a = second[k];
    if first.contains(a) {
        let l = choose|l: int| 0 <= l < first.len() && first[l] == a;
        if l < k {
            assert(second[l] == first[l]);
            assert(ranks_before(scores, second[l] as int, second[k] as int));
        } else {
            assert(ranks_before(scores, first[k] as int, first[l] as int));
        }
    } else {
        assert(ranks_before(scores, first[k] as int, a as int));
    }
}

proof fn lemma_same_entry(
    scores: Seq<u64>,
    limit: nat,
    first: Seq<usize>,
    second: Seq<usize>,
    k: int,
)
    requires
        is_ranking(scores, limit, first),
        is_ranking(scores, limit, second),
        0 <= k < first.len(),
    ensures
        first[k] == second[k],
    decreases k,
{
    assert forall|j: int| 0 <= j < k implies first[j] == second[j] by {
        lemma_same_entry(scores, limit, first, second, j);
    }
    if first[k] != second[k] {
        lemma_differing_entry(scores, limit, first, second, k);
        lemma_differing_entry(scores, limit, second, first, k);
    }
}

/// Ranking is a function of the scores and the limit: any two rankings of
/// the same scores under the same limit are the same sequence. Ranking the
/// same scores again therefore gives the same documents in the same order.
pub proof fn lemma_ranking_is_unique(
    scores: Seq<u64>,
    limit: nat,
    first: Seq<usize>,
    second: Seq<usize>,
)
    requires
        is_ranking(scores, limit, first),
        is_ranking(scores, limit, second),
    ensures
        first == second,
{
    assert forall|k: int| 0 <= k < first.len() implies first[k] == second[k] by {
        lemma_same_entry(scores, limit, first, second, k);
    }
    assert(first =~= second);
}

/// A ranking never holds more than `limit` entries, and holds exactly
/// `limit`, or every document where there are fewer.
pub proof fn lemma_ranking_length(scores: Seq<u64>, limit: nat, ranking: Seq<usize>)
    requires
        is_ranking(scores, limit, ranking),
    ensures
        ranking.len() <= limit,
        ranking.len() == if limit <= scores.len() { limit } else { scores.len() },
{
}

/// Where all documents have the same score, the ranking is the documents in
/// corpus order: its entry at place `k` is document `k`. The scores are
/// those of a vector, so their number fits in `usize`.
pub proof fn lemma_equal_scores_keep_corpus_order(
    scores: Seq<u64>,
    limit: nat,
    ranking: Seq<usize>,
)
    requires
        scores.len() <= usize::MAX,
        is_ranking(scores, limit, ranking),
        forall|a: int, b: int|
            0 <= a < scores.len() && 0 <= b < scores.len() ==> scores[a] == scores[b],
    ensures
        forall|k: int| 0 <= k < ranking.len() ==> ranking[k] == k,
{
    let in_order = Seq::new(ranking.len(), |k: int| k as usize);
    assert forall|k: int| 0 <= k < in_order.len() implies 0 <= #[trigger] in_order[k]
        < scores.len() by {}
    assert forall|k: int, l: int| 0 <= k < l < in_order.len() implies ranks_before(
        scores,
        #[trigger] in_order[k] as int,
        #[trigger] in_order[l] as int,
    ) by {
        assert(scores[k] == scores[l]);
    }
    assert forall|e: usize, k: int|
        e < scores.len() && 0 <= k < in_order.len() && !#[trigger] in_order.contains(e) implies ranks_before(
        scores,
        #[trigger] in_order[k] as int,
        e as int,
    ) by {
        if e < in_order.len() {
            assert(in_order[e as int] == e);
        }
        assert(scores[k] == scores[e as int]);
    }
    assert(is_ranking(scores, limit, in_order));
    lemma_ranking_is_unique(scores, limit, ranking, in_order);
    assert forall|k: int| 0 <= k < ranking.len() implies ranking[k] == k by {
        assert(in_order[k] == k);
    }
}

} // verus!
