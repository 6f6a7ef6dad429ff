use std::sync::Arc;

use qsets_server::services::generator::QuestionRecord;
use qsets_server::state::{ParsedPoolCache, MAX_CACHED_POOLS};

#[test]
fn cache_replaces_existing_pool_without_growing() {
    let mut cache = ParsedPoolCache::default();
    cache.insert(1, Arc::new(Vec::new()));
    cache.insert(
        1,
        Arc::new(vec![QuestionRecord {
            question: "updated".to_string(),
            qtype: "General".to_string(),
            reference: "John 1:1".to_string(),
            answer: "answer".to_string(),
        }]),
    );

    assert_eq!(cache.get(1).unwrap()[0].question, "updated");
}

#[test]
fn cache_evicts_when_capacity_is_reached() {
    let mut cache = ParsedPoolCache::default();
    for pool_id in 1..=17 {
        cache.insert(pool_id, Arc::new(Vec::new()));
    }

    assert_eq!(cache.len(), MAX_CACHED_POOLS);
    assert!(cache.get(17).is_some());
}
