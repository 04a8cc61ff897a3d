use vector_search::cosine_similarity;
use vector_search::VectorSearch;

/// One unit in fixed point: tests scale real-valued coordinates by this.
const S: i64 = 65536;

fn index3() -> VectorSearch<u64> {
    let embeddings: Vec<Vec<i64>> = vec![vec![S, 0, 0], vec![0, S, 0], vec![0, 0, S]];
    let texts: Vec<String> = vec![
        "First text".to_string(),
        "Second text".to_string(),
        "Third text".to_string(),
    ];
    let metadata: Vec<u64> = vec![1, 2, 3];
    VectorSearch::new(embeddings, texts, metadata)
}

#[test]
fn test_cosine_similarity_identical() {
    let a: Vec<i64> = vec![S, 0, 0];
    let b: Vec<i64> = vec![S, 0, 0];
    let similarity = cosine_similarity(&a, &b);
    assert_eq!(similarity, 65536);
    let as_real = similarity as f64 / 65536.0;
    assert!((as_real - 1.0).abs() < 0.0001);
}

#[test]
fn test_cosine_similarity_self_unnormalized() {
    // Cosine is scale-invariant: any non-zero vector against itself is one.
    let a: Vec<i64> = vec![3, 4];
    assert_eq!(cosine_similarity(&a, &a), 65536);
    let b: Vec<i64> = vec![-7 * S, 2 * S, 9 * S];
    assert_eq!(cosine_similarity(&b, &b), 65536);
}

#[test]
fn test_cosine_similarity_orthogonal() {
    let a: Vec<i64> = vec![S, 0, 0];
    let b: Vec<i64> = vec![0, S, 0];
    let similarity = cosine_similarity(&a, &b);
    assert_eq!(similarity, 0);
    let as_real = similarity as f64 / 65536.0;
    assert!(as_real.abs() < 0.0001);
}

#[test]
fn test_cosine_similarity_length_mismatch() {
    let a: Vec<i64> = vec![S, 0];
    let b: Vec<i64> = vec![S, 0, 0];
    assert_eq!(cosine_similarity(&a, &b), 0);
}

#[test]
fn test_cosine_similarity_zero_vector() {
    let zero: Vec<i64> = vec![0, 0];
    let b: Vec<i64> = vec![S, S];
    assert_eq!(cosine_similarity(&zero, &b), 0);
    assert_eq!(cosine_similarity(&b, &zero), 0);
    assert_eq!(cosine_similarity(&zero, &zero), 0);
}

#[test]
fn test_cosine_similarity_forty_five_degrees() {
    // dot = S^2, norms S and S*sqrt(2): the fixed-point quotient is exactly
    // (S^2 * S) / floor(sqrt(2 * S^4)) = 46340, about 0.7071 * S.
    let a: Vec<i64> = vec![S, 0];
    let b: Vec<i64> = vec![S, S];
    let similarity = cosine_similarity(&a, &b);
    assert_eq!(similarity, 46340);
    let as_real = similarity as f64 / 65536.0;
    assert!((as_real - 0.70710678).abs() < 0.0001);
}

#[test]
fn test_cosine_similarity_small_integers_exact() {
    // dot = 24, both norms 5, so the score is exactly 24 * 65536 / 25.
    let a: Vec<i64> = vec![3, 4];
    let b: Vec<i64> = vec![4, 3];
    assert_eq!(cosine_similarity(&a, &b), 62914);
}

#[test]
fn test_cosine_similarity_opposite() {
    let a: Vec<i64> = vec![S, 0];
    let b: Vec<i64> = vec![-S, 0];
    assert_eq!(cosine_similarity(&a, &b), -65536);
}

#[test]
fn test_search_top_k() {
    let index = index3();
    let query: Vec<i64> = vec![S, 0, 0];
    let results = index.search(&query, 2);
    assert_eq!(results.len(), 2);
    assert_eq!(results[0].text, "First text");
    assert!((results[0].score as f64 / 65536.0 - 1.0).abs() < 0.0001);
    assert_eq!(results[0].metadata, 1);
    assert!((results[1].score as f64 / 65536.0).abs() < 0.0001);
}

#[test]
fn test_search_result_count_is_min_of_k_and_n() {
    let index = index3();
    let query: Vec<i64> = vec![S, 0, 0];
    assert_eq!(index.search(&query, 1).len(), 1);
    assert_eq!(index.search(&query, 2).len(), 2);
    assert_eq!(index.search(&query, 3).len(), 3);
    assert_eq!(index.search(&query, 5).len(), 3);
    assert_eq!(index.search(&query, usize::MAX).len(), 3);
}

#[test]
fn test_search_k_zero() {
    let index = index3();
    let query: Vec<i64> = vec![S, 0, 0];
    assert_eq!(index.search(&query, 0).len(), 0);
}

#[test]
fn test_search_empty_query() {
    let index = index3();
    let query: Vec<i64> = vec![];
    let results = index.search(&query, 2);
    assert_eq!(results.len(), 0);
}

#[test]
fn test_search_empty_embeddings() {
    let index: VectorSearch<u64> = VectorSearch::new(vec![], vec![], vec![]);
    let query: Vec<i64> = vec![S, 0, 0];
    let results = index.search(&query, 2);
    assert_eq!(results.len(), 0);
}

#[test]
fn test_search_sorted_descending() {
    let embeddings: Vec<Vec<i64>> = vec![vec![0, S], vec![S, 0], vec![S, S], vec![-S, 0]];
    let texts: Vec<String> = vec![
        "up".to_string(),
        "right".to_string(),
        "diagonal".to_string(),
        "left".to_string(),
    ];
    let metadata: Vec<u64> = vec![10, 20, 30, 40];
    let index = VectorSearch::new(embeddings, texts, metadata);
    let query: Vec<i64> = vec![S, 0];
    let results = index.search(&query, 4);
    assert_eq!(results.len(), 4);
    for pair in results.windows(2) {
        assert!(pair[0].score >= pair[1].score);
    }
    assert_eq!(results[0].text, "right");
    assert_eq!(results[0].score, 65536);
    assert_eq!(results[1].text, "diagonal");
    assert_eq!(results[1].score, 46340);
    assert_eq!(results[2].text, "up");
    assert_eq!(results[2].score, 0);
    assert_eq!(results[3].text, "left");
    assert_eq!(results[3].score, -65536);
}

#[test]
fn test_search_ties_keep_entry_order() {
    let embeddings: Vec<Vec<i64>> = vec![vec![0, S], vec![S, 0], vec![2 * S, 0]];
    let texts: Vec<String> = vec!["a".to_string(), "b".to_string(), "c".to_string()];
    let metadata: Vec<u64> = vec![0, 1, 2];
    let index = VectorSearch::new(embeddings, texts, metadata);
    // entries 1 and 2 both score exactly one: the earlier entry comes first.
    let query: Vec<i64> = vec![S, 0];
    let results = index.search(&query, 3);
    assert_eq!(results[0].text, "b");
    assert_eq!(results[1].text, "c");
    assert_eq!(results[0].score, results[1].score);
    assert_eq!(results[2].text, "a");
}

#[test]
fn test_search_query_dimension_mismatch_scores_zero() {
    // A query of the wrong dimensionality scores zero against every entry,
    // so the search still returns min(k, n) records, all with score zero.
    let index = index3();
    let query: Vec<i64> = vec![S, 0];
    let results = index.search(&query, 2);
    assert_eq!(results.len(), 2);
    assert_eq!(results[0].score, 0);
    assert_eq!(results[1].score, 0);
    // ties break by position: entries come back in stored order.
    assert_eq!(results[0].text, "First text");
    assert_eq!(results[1].text, "Second text");
}

#[test]
fn test_search_metadata_passthrough() {
    let index = index3();
    let query: Vec<i64> = vec![0, 0, S];
    let results = index.search(&query, 3);
    assert_eq!(results[0].metadata, 3);
    assert_eq!(results[0].text, "Third text");
    assert_eq!(results[1].metadata, 1);
    assert_eq!(results[2].metadata, 2);
}
