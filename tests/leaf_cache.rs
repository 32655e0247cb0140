use quickwit_core::leaf_cache::{leaf_search_single_split_step, record_split_response, LeafSearchCache, SplitSearchStep};
use quickwit_core::request::{LeafSearchResponse, PartialHit, SearchRequest, SplitIdAndFooterOffsets};

fn split(id: &str) -> SplitIdAndFooterOffsets {
    SplitIdAndFooterOffsets {
        split_id: id.to_string(),
        split_footer_start: 0,
        split_footer_end: 10,
        timestamp_start: Some(10),
        timestamp_end: Some(20),
    }
}

fn request(start: Option<i64>) -> SearchRequest {
    SearchRequest {
        max_hits: 3,
        start_offset: 0,
        sort_fields: Vec::new(),
        start_timestamp: start,
        end_timestamp: None,
        count_all: false,
        has_aggregation: false,
    }
}

fn response(doc_id: u32) -> LeafSearchResponse {
    LeafSearchResponse {
        num_hits: 1,
        partial_hits: vec![PartialHit { sort_value: None, split_id: "a".to_string(), segment_ord: 0, doc_id }],
        failed_splits: Vec::new(),
        num_attempted_splits: 1,
    }
}

#[test]
fn miss_rewrites_then_hit_answers_from_cache() {
    let mut cache = LeafSearchCache::new(4);
    let q = match leaf_search_single_split_step(&mut cache, &split("a"), &request(Some(5))) {
        SplitSearchStep::Search(q) => q,
        SplitSearchStep::Cached(_) => panic!("an empty cache cannot answer"),
    };
    assert_eq!(q.start_timestamp, None);
    record_split_response(&mut cache, &split("a"), &q, response(7));
    // A request that rewrites to the same one is answered from the cache.
    match leaf_search_single_split_step(&mut cache, &split("a"), &request(Some(10))) {
        SplitSearchStep::Cached(resp) => assert_eq!(resp.partial_hits[0].doc_id, 7),
        SplitSearchStep::Search(_) => panic!("the response was cached"),
    }
    assert!(matches!(
        leaf_search_single_split_step(&mut cache, &split("b"), &request(Some(5))),
        SplitSearchStep::Search(_)
    ));
}

#[test]
fn cache_evicts_least_recently_used() {
    let mut cache = LeafSearchCache::new(2);
    let q = request(None);
    cache.put(&split("a"), &q, response(1));
    cache.put(&split("b"), &q, response(2));
    assert!(cache.get(&split("a"), &q).is_some());
    cache.put(&split("c"), &q, response(3));
    assert!(cache.get(&split("b"), &q).is_none());
    assert_eq!(cache.get(&split("a"), &q).unwrap().partial_hits[0].doc_id, 1);
    let mut none = LeafSearchCache::new(0);
    none.put(&split("a"), &q, response(1));
    assert!(none.get(&split("a"), &q).is_none());
}
