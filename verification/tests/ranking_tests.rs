use bm25_search::ranking::{rank, MAX_SEARCH_RESULTS};

#[test]
fn rank_orders_by_descending_score() {
    assert_eq!(rank(&vec![1, 3, 2], 10), vec![1, 2, 0]);
    assert_eq!(rank(&vec![10, 20, 30, 40], 10), vec![3, 2, 1, 0]);
    assert_eq!(rank(&vec![40, 30, 20, 10], 10), vec![0, 1, 2, 3]);
}

#[test]
fn rank_keeps_corpus_order_among_equal_scores() {
    assert_eq!(rank(&vec![5, 5, 5], 10), vec![0, 1, 2]);
    assert_eq!(rank(&vec![1, 2, 2, 3, 1], 10), vec![3, 1, 2, 0, 4]);
    assert_eq!(rank(&vec![0, 7, 0, 7, 0], 10), vec![1, 3, 0, 2, 4]);
}

#[test]
fn rank_cuts_off_at_the_limit() {
    assert_eq!(rank(&vec![1, 2, 2, 3, 1], 3), vec![3, 1, 2]);
    assert_eq!(rank(&vec![1, 2, 2, 3, 1], 1), vec![3]);
    assert_eq!(rank(&vec![5, 5, 5], 2), vec![0, 1]);
    assert_eq!(rank(&vec![9, 1, 8, 2, 7, 3], 4), vec![0, 2, 4, 5]);
}

#[test]
fn rank_returns_all_documents_under_a_wide_limit() {
    assert_eq!(rank(&vec![4, 6], 2), vec![1, 0]);
    assert_eq!(rank(&vec![4, 6], 3), vec![1, 0]);
    assert_eq!(rank(&vec![4, 6], usize::MAX), vec![1, 0]);
}

#[test]
fn rank_with_limit_zero_is_empty() {
    assert_eq!(rank(&vec![4, 6], 0), Vec::<usize>::new());
}

#[test]
fn rank_of_no_documents_is_empty() {
    assert_eq!(rank(&Vec::new(), 10), Vec::<usize>::new());
    assert_eq!(rank(&Vec::new(), 0), Vec::<usize>::new());
}

#[test]
fn rank_length_is_the_smaller_of_limit_and_count() {
    let scores: Vec<u64> = (0..25).map(|i| (i * 7 % 11) as u64).collect();
    for limit in 0..30 {
        assert_eq!(rank(&scores, limit).len(), limit.min(25));
    }
}

#[test]
fn rank_is_a_prefix_of_the_full_ranking() {
    let scores: Vec<u64> = vec![3, 1, 4, 1, 5, 9, 2, 6, 5, 3, 5];
    let full = rank(&scores, scores.len());
    assert_eq!(full, vec![5, 7, 4, 8, 10, 2, 0, 9, 6, 1, 3]);
    for limit in 0..scores.len() {
        assert_eq!(rank(&scores, limit), full[..limit].to_vec());
    }
}

#[test]
fn rank_twice_gives_the_same_ranking() {
    let scores: Vec<u64> = vec![3, 1, 4, 1, 5, 9, 2, 6, 5, 3, 5];
    assert_eq!(rank(&scores, 4), rank(&scores, 4));
}

#[test]
fn rank_handles_extreme_scores() {
    assert_eq!(rank(&vec![0, u64::MAX, 0, u64::MAX], 3), vec![1, 3, 0]);
}

#[test]
fn default_limit_is_ten() {
    assert_eq!(MAX_SEARCH_RESULTS, 10);
    let scores: Vec<u64> = vec![0; 12];
    assert_eq!(rank(&scores, MAX_SEARCH_RESULTS), vec![0, 1, 2, 3, 4, 5, 6, 7, 8, 9]);
}
