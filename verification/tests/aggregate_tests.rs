use tfidf_search::indexer::{create_stop_ht, tokenize_file};
use tfidf_search::weight::idf_scaled;
use tfidf_search::constants::WEIGHT_MULTIPLIER;
use tfidf_search::data_models::{GlobHTBucket, NamedResult};
use tfidf_search::web_result::get_web_results;

#[test]
fn counts_sum_to_the_token_count() {
    let stop_ht = create_stop_ht(&Vec::new());
    let (doc_ht, token_count) = tokenize_file(&stop_ht, &b"a b a".to_vec());
    assert_eq!(token_count, 3);
    assert_eq!(doc_ht.get(&"a".to_string()), Some(&2));
    assert_eq!(doc_ht.get(&"b".to_string()), Some(&1));
    // the relative frequencies 2/3 and 1/3 sum to one
    let sum: usize = doc_ht
        .get_buckets()
        .iter()
        .filter_map(|b| b.as_ref().map(|e| e.value))
        .sum();
    assert_eq!(sum, token_count);
}

#[test]
fn stopwords_are_not_counted() {
    let stop_ht = create_stop_ht(&b"the a".to_vec());
    let (doc_ht, token_count) = tokenize_file(&stop_ht, &b"the quick a fox".to_vec());
    assert_eq!(token_count, 2);
    assert!(doc_ht.get(&"the".to_string()).is_none());
    assert!(doc_ht.get(&"quick".to_string()).is_some());
}

#[test]
fn unit_ratio_idf_is_the_multiplier() {
    assert_eq!(idf_scaled(100, 100), WEIGHT_MULTIPLIER);
    assert_eq!(idf_scaled(1, 1), WEIGHT_MULTIPLIER);
}

#[test]
fn idf_grows_with_rarity() {
    let common = idf_scaled(1000, 1000);
    let rare = idf_scaled(1000, 1);
    assert!(rare > common);
    // 1 + log10(1000) = 4: four times the multiplier
    assert_eq!(rare, 4 * WEIGHT_MULTIPLIER);
}

#[test]
fn buckets_report_documents_and_frequencies() {
    let b = GlobHTBucket::new(3, 2, 5);
    assert_eq!(b.get_num_docs(), 1);
    assert_eq!(b.get_total_frequency(), 2);
    assert!(!b.is_rare());
    let single = GlobHTBucket::new(0, 1, 1);
    assert!(single.is_rare());
    assert_eq!(single.get_files().len(), 1);
    assert_eq!(single.get_files()[0].doc_id, 0);
}

#[test]
fn web_results_are_numbered_from_one() {
    let rows = vec![
        NamedResult { name: "x".to_string(), weight: 9 },
        NamedResult { name: "y".to_string(), weight: 4 },
    ];
    let web = get_web_results(&rows);
    assert_eq!(web.len(), 2);
    assert_eq!(web[0].ranking, 1);
    assert_eq!(web[0].name, "x");
    assert_eq!(web[0].weight, 9);
    assert_eq!(web[1].ranking, 2);
}
