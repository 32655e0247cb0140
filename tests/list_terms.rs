use quickwit_core::list_terms::{merge_leaf_list_terms, merge_terms, split_list_terms_response, LeafListTermsResponse};
use quickwit_core::request::SplitIdAndFooterOffsets;

fn terms(items: &[&str]) -> Vec<Vec<u8>> {
    items.iter().map(|s| s.as_bytes().to_vec()).collect()
}

#[test]
fn merge_terms_sorts_and_dedups() {
    let merged = merge_terms(vec![terms(&["a", "c", "e"]), terms(&["b", "c", "d"]), terms(&[])], None);
    assert_eq!(merged, terms(&["a", "b", "c", "d", "e"]));
}

#[test]
fn merge_terms_keeps_the_smallest_max_hits() {
    let merged = merge_terms(vec![terms(&["ab", "b"]), terms(&["a", "abc"])], Some(3));
    assert_eq!(merged, terms(&["a", "ab", "abc"]));
    assert!(merge_terms(vec![terms(&["x"])], Some(0)).is_empty());
}

#[test]
fn split_response_counts_one_attempt() {
    let resp = split_list_terms_response(vec![terms(&["b"]), terms(&["a", "b"])], Some(10));
    assert_eq!(resp.terms, terms(&["a", "b"]));
    assert_eq!(resp.num_hits, 2);
    assert_eq!(resp.num_attempted_splits, 1);
    assert!(resp.failed_splits.is_empty());
}

#[test]
fn merged_listing_records_failures() {
    let ok = LeafListTermsResponse {
        num_hits: 2,
        terms: terms(&["k", "m"]),
        num_attempted_splits: 1,
        failed_splits: Vec::new(),
    };
    let other = LeafListTermsResponse {
        num_hits: 1,
        terms: terms(&["l"]),
        num_attempted_splits: 1,
        failed_splits: Vec::new(),
    };
    let resp = merge_leaf_list_terms(
        vec![ok, other],
        vec![("split-3".to_string(), "timeout".to_string())],
        3,
        Some(2),
    );
    assert_eq!(resp.terms, terms(&["k", "l"]));
    assert_eq!(resp.num_hits, 2);
    assert_eq!(resp.num_attempted_splits, 3);
    assert_eq!(resp.failed_splits.len(), 1);
    assert_eq!(resp.failed_splits[0].split_id, "split-3");
    assert_eq!(resp.failed_splits[0].error, "timeout");
    assert!(resp.failed_splits[0].retryable_error);
}

#[test]
fn split_footer_location() {
    let split = SplitIdAndFooterOffsets {
        split_id: "01ABC".to_string(),
        split_footer_start: 1000,
        split_footer_end: 1200,
        timestamp_start: None,
        timestamp_end: None,
    };
    assert_eq!(split.split_file_name(), "01ABC.split");
    assert_eq!(split.footer_range(), (1000, 1200));
    assert_eq!(split.timestamp_start(), i64::MIN);
    assert_eq!(split.timestamp_end(), i64::MAX);
}
