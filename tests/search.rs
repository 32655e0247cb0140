use quickwit_core::collector::{hit_better_exec, IncrementalCollector};
use quickwit_core::leaf::{run_all_splits, LeafSearchState, SplitDispatch, SplitOutcome};
use quickwit_core::pruning::{rewrite_request, rewrite_start_end_time_bounds, CanSplitDoBetter};
use quickwit_core::request::{
    LeafSearchResponse, PartialHit, SearchRequest, SortField, SortOrder, SortValue,
    SplitIdAndFooterOffsets, SplitSearchError,
};

fn split(id: &str, start: Option<i64>, end: Option<i64>) -> SplitIdAndFooterOffsets {
    SplitIdAndFooterOffsets {
        split_id: id.to_string(),
        split_footer_start: 0,
        split_footer_end: 100,
        timestamp_start: start,
        timestamp_end: end,
    }
}

fn request(max_hits: u64, sort_fields: Vec<SortField>) -> SearchRequest {
    SearchRequest {
        max_hits,
        start_offset: 0,
        sort_fields,
        start_timestamp: None,
        end_timestamp: None,
        count_all: false,
        has_aggregation: false,
    }
}

fn sort_by(field: &str, order: SortOrder) -> Vec<SortField> {
    vec![SortField { field_name: field.to_string(), sort_order: order }]
}

fn hit(split_id: &str, doc_id: u32, sort_value: Option<SortValue>) -> PartialHit {
    PartialHit { sort_value, split_id: split_id.to_string(), segment_ord: 0, doc_id }
}

fn response(hits: Vec<PartialHit>) -> LeafSearchResponse {
    LeafSearchResponse {
        num_hits: hits.len() as u64,
        partial_hits: hits,
        failed_splits: Vec::new(),
        num_attempted_splits: 1,
    }
}

fn ids(splits: &[SplitIdAndFooterOffsets]) -> Vec<&str> {
    splits.iter().map(|s| s.split_id.as_str()).collect()
}

#[test]
fn time_bounds_covering_the_split_are_dropped() {
    let s = split("a", Some(10), Some(20));
    let (mut start, mut end) = (Some(10), Some(21));
    rewrite_start_end_time_bounds(&mut start, &mut end, &s);
    assert_eq!((start, end), (None, None));
    let (mut start, mut end) = (Some(5), Some(100));
    rewrite_start_end_time_bounds(&mut start, &mut end, &s);
    assert_eq!((start, end), (None, None));
}

#[test]
fn time_bounds_cutting_into_the_split_are_kept() {
    let s = split("a", Some(10), Some(20));
    let (mut start, mut end) = (Some(11), Some(20));
    rewrite_start_end_time_bounds(&mut start, &mut end, &s);
    assert_eq!((start, end), (Some(11), Some(20)));
    let (mut start, mut end) = (Some(11), Some(25));
    rewrite_start_end_time_bounds(&mut start, &mut end, &s);
    assert_eq!((start, end), (Some(11), None));
    let undeclared = split("b", None, Some(20));
    let (mut start, mut end) = (Some(1), Some(30));
    rewrite_start_end_time_bounds(&mut start, &mut end, &undeclared);
    assert_eq!((start, end), (Some(1), Some(30)));
}

#[test]
fn rewrite_request_drops_sort_when_no_hit_is_asked() {
    let mut req = request(0, sort_by("timestamp", SortOrder::Desc));
    req.start_timestamp = Some(0);
    req.end_timestamp = Some(15);
    rewrite_request(&mut req, &split("a", Some(10), Some(20)));
    assert!(req.sort_fields.is_empty());
    assert_eq!(req.start_timestamp, None);
    assert_eq!(req.end_timestamp, Some(15));
    let mut req = request(5, sort_by("timestamp", SortOrder::Desc));
    rewrite_request(&mut req, &split("a", Some(10), Some(20)));
    assert_eq!(req.sort_fields.len(), 1);
}

#[test]
fn strategy_follows_the_sort() {
    let ts = Some("timestamp".to_string());
    assert!(matches!(
        CanSplitDoBetter::from_request(&request(10, Vec::new()), &ts),
        CanSplitDoBetter::SplitIdHigher(None)
    ));
    assert!(matches!(
        CanSplitDoBetter::from_request(&request(10, sort_by("timestamp", SortOrder::Desc)), &ts),
        CanSplitDoBetter::SplitTimestampHigher(None)
    ));
    assert!(matches!(
        CanSplitDoBetter::from_request(&request(10, sort_by("timestamp", SortOrder::Asc)), &ts),
        CanSplitDoBetter::SplitTimestampLower(None)
    ));
    assert!(matches!(
        CanSplitDoBetter::from_request(&request(10, sort_by("other", SortOrder::Desc)), &ts),
        CanSplitDoBetter::Uninformative
    ));
    assert!(matches!(
        CanSplitDoBetter::from_request(&request(10, sort_by("timestamp", SortOrder::Desc)), &None),
        CanSplitDoBetter::Uninformative
    ));
}

#[test]
fn splits_are_ordered_by_strategy() {
    let mut splits = vec![
        split("b", Some(5), Some(30)),
        split("d", Some(1), Some(10)),
        split("a", Some(8), None),
        split("c", None, Some(20)),
    ];
    CanSplitDoBetter::SplitIdHigher(None).optimize_split_order(&mut splits);
    assert_eq!(ids(&splits), vec!["d", "c", "b", "a"]);
    CanSplitDoBetter::SplitTimestampHigher(None).optimize_split_order(&mut splits);
    assert_eq!(ids(&splits), vec!["a", "b", "c", "d"]);
    CanSplitDoBetter::SplitTimestampLower(None).optimize_split_order(&mut splits);
    assert_eq!(ids(&splits), vec!["c", "d", "b", "a"]);
    let before = ids(&splits).into_iter().map(String::from).collect::<Vec<_>>();
    CanSplitDoBetter::Uninformative.optimize_split_order(&mut splits);
    assert_eq!(ids(&splits), before);
}

#[test]
fn worst_hit_bounds_which_splits_can_do_better() {
    let mut by_id = CanSplitDoBetter::SplitIdHigher(None);
    assert!(by_id.can_be_better(&split("a", None, None)));
    by_id.record_new_worst_hit(&hit("m", 0, None));
    assert!(!by_id.can_be_better(&split("m", None, None)));
    assert!(by_id.can_be_better(&split("z", None, None)));
    assert!(!by_id.can_be_better(&split("l", None, None)));

    let mut desc = CanSplitDoBetter::SplitTimestampHigher(None);
    desc.record_new_worst_hit(&hit("a", 0, Some(SortValue::I64(1_500_000_000))));
    assert!(matches!(desc, CanSplitDoBetter::SplitTimestampHigher(Some(2))));
    assert!(!desc.can_be_better(&split("x", Some(0), Some(2))));
    assert!(desc.can_be_better(&split("x", Some(0), Some(3))));
    assert!(desc.can_be_better(&split("x", Some(0), None)));

    let mut asc = CanSplitDoBetter::SplitTimestampLower(None);
    asc.record_new_worst_hit(&hit("a", 0, Some(SortValue::I64(1_500_000_000))));
    assert!(matches!(asc, CanSplitDoBetter::SplitTimestampLower(Some(1))));
    assert!(asc.can_be_better(&split("x", Some(0), Some(9))));
    assert!(!asc.can_be_better(&split("x", Some(1), Some(9))));

    let mut negative = CanSplitDoBetter::SplitTimestampHigher(None);
    negative.record_new_worst_hit(&hit("a", 0, Some(SortValue::I64(-1_500_000_000))));
    assert!(matches!(negative, CanSplitDoBetter::SplitTimestampHigher(Some(-1))));
    let mut negative_asc = CanSplitDoBetter::SplitTimestampLower(None);
    negative_asc.record_new_worst_hit(&hit("a", 0, Some(SortValue::I64(-1_500_000_000))));
    assert!(matches!(negative_asc, CanSplitDoBetter::SplitTimestampLower(Some(-1))));
    negative_asc.record_new_worst_hit(&hit("a", 0, Some(SortValue::U64(7))));
    assert!(matches!(negative_asc, CanSplitDoBetter::SplitTimestampLower(Some(-1))));
}

#[test]
fn hit_order_uses_sort_value_then_address() {
    let high = hit("a", 0, Some(SortValue::U64(10)));
    let low = hit("z", 9, Some(SortValue::U64(1)));
    let none = hit("z", 9, None);
    assert!(hit_better_exec(&high, &low, SortOrder::Desc));
    assert!(hit_better_exec(&low, &high, SortOrder::Asc));
    assert!(hit_better_exec(&low, &none, SortOrder::Desc));
    assert!(hit_better_exec(&low, &none, SortOrder::Asc));
    assert!(hit_better_exec(&hit("b", 0, None), &hit("a", 5, None), SortOrder::Desc));
    assert!(hit_better_exec(&hit("a", 6, None), &hit("a", 5, None), SortOrder::Desc));
    assert!(!hit_better_exec(&hit("a", 5, None), &hit("a", 5, None), SortOrder::Desc));
}

#[test]
fn collector_keeps_the_best_max_hits() {
    let mut collector = IncrementalCollector::new(2, SortOrder::Desc);
    assert!(collector.peek_worst_hit().is_none());
    collector.add_split(response(vec![
        hit("a", 1, Some(SortValue::I64(5))),
        hit("a", 2, Some(SortValue::I64(9))),
    ]));
    assert_eq!(collector.peek_worst_hit().unwrap().doc_id, 1);
    collector.add_split(response(vec![
        hit("b", 1, Some(SortValue::I64(7))),
        hit("b", 2, Some(SortValue::I64(1))),
    ]));
    collector.add_failed_split(SplitSearchError {
        split_id: "c".to_string(),
        error: "boom".to_string(),
        retryable_error: true,
    });
    let merged = collector.finalize();
    let kept: Vec<(String, u32)> = merged.partial_hits.iter().map(|h| (h.split_id.clone(), h.doc_id)).collect();
    assert_eq!(kept, vec![("a".to_string(), 2), ("b".to_string(), 1)]);
    assert_eq!(merged.num_hits, 4);
    assert_eq!(merged.num_attempted_splits, 3);
    assert_eq!(merged.failed_splits.len(), 1);
}

#[test]
fn collector_with_zero_max_hits_keeps_counts_only() {
    let mut collector = IncrementalCollector::new(0, SortOrder::Desc);
    collector.add_split(response(vec![hit("a", 1, None), hit("a", 2, None)]));
    assert!(collector.peek_worst_hit().is_none());
    let merged = collector.finalize();
    assert!(merged.partial_hits.is_empty());
    assert_eq!(merged.num_hits, 2);
}

#[test]
fn run_all_splits_when_counting_or_aggregating() {
    let mut req = request(10, Vec::new());
    assert!(!run_all_splits(&req));
    req.count_all = true;
    assert!(run_all_splits(&req));
    req.count_all = false;
    req.has_aggregation = true;
    assert!(run_all_splits(&req));
}

fn run_leaf_search(
    req: SearchRequest,
    mut splits: Vec<SplitIdAndFooterOffsets>,
    outcome_of: impl Fn(&SplitIdAndFooterOffsets, &SearchRequest) -> SplitOutcome,
) -> (LeafSearchResponse, Vec<String>) {
    let mut state = LeafSearchState::new(req, &mut splits, &Some("timestamp".to_string()));
    let mut dispatched = Vec::new();
    for s in splits.iter() {
        match state.dispatch(s) {
            SplitDispatch::Skip => {}
            SplitDispatch::Search(q) => {
                dispatched.push(s.split_id.clone());
                let outcome = outcome_of(s, &q);
                state.add_split_outcome(s, outcome);
            }
        }
    }
    (state.finalize(), dispatched)
}

fn three_hits(s: &SplitIdAndFooterOffsets, q: &SearchRequest) -> SplitOutcome {
    let hits = (0..3u32).map(|d| hit(&s.split_id, d, None)).take(q.max_hits as usize).collect();
    SplitOutcome::Response(LeafSearchResponse {
        num_hits: 3,
        partial_hits: hits,
        failed_splits: Vec::new(),
        num_attempted_splits: 1,
    })
}

#[test]
fn leaf_search_prunes_splits_that_cannot_do_better() {
    let splits = vec![split("a", None, None), split("c", None, None), split("b", None, None)];
    let (resp, dispatched) = run_leaf_search(request(2, Vec::new()), splits, three_hits);
    assert_eq!(dispatched, vec!["c".to_string()]);
    assert_eq!(resp.num_attempted_splits, 1);
    assert_eq!(resp.partial_hits.len(), 2);
    assert_eq!(resp.partial_hits[0].doc_id, 1);
    assert_eq!(resp.partial_hits[1].doc_id, 0);
}

#[test]
fn leaf_search_counts_every_split_when_asked() {
    let splits = vec![split("a", None, None), split("c", None, None), split("b", None, None)];
    let mut req = request(2, Vec::new());
    req.count_all = true;
    let (resp, dispatched) = run_leaf_search(req, splits, three_hits);
    assert_eq!(dispatched.len(), 3);
    assert_eq!(resp.num_attempted_splits, 3);
    assert_eq!(resp.num_hits, 9);
    assert!(resp.partial_hits.len() <= 2);
}

#[test]
fn leaf_search_records_failed_and_panicked_splits() {
    let splits = vec![split("a", None, None), split("b", None, None), split("c", None, None)];
    let mut req = request(10, Vec::new());
    req.count_all = true;
    let (resp, _) = run_leaf_search(req, splits, |s, q| match s.split_id.as_str() {
        "b" => SplitOutcome::Failed("storage error".to_string()),
        "c" => SplitOutcome::Panicked("split search panicked".to_string()),
        _ => three_hits(s, q),
    });
    assert_eq!(resp.failed_splits.len(), 2);
    let mut failed: Vec<&str> = resp.failed_splits.iter().map(|f| f.split_id.as_str()).collect();
    failed.sort();
    assert_eq!(failed, vec!["b", "c"]);
    assert!(resp.failed_splits.iter().all(|f| f.retryable_error));
    assert_eq!(resp.partial_hits.len(), 3);
    assert!(resp.partial_hits.iter().all(|h| h.split_id == "a"));
    assert_eq!(resp.num_attempted_splits, 3);
}

#[test]
fn degraded_split_request_only_counts() {
    let mut splits = vec![split("a", None, None)];
    let mut req = request(1, Vec::new());
    req.count_all = true;
    let mut state = LeafSearchState::new(req, &mut splits, &None);
    state.add_split_outcome(&split("z", None, None), three_hits(&split("z", None, None), &request(1, Vec::new())));
    match state.dispatch(&splits[0]) {
        SplitDispatch::Search(q) => {
            assert_eq!(q.max_hits, 0);
            assert_eq!(q.start_offset, 0);
            assert!(q.sort_fields.is_empty());
        }
        SplitDispatch::Skip => panic!("a split must not be skipped when counting"),
    }
}

#[test]
fn sequential_leaf_search_merges_top_k() {
    let splits = vec![split("a", None, None), split("c", None, None), split("b", None, None)];
    let resp = quickwit_core::leaf::leaf_search(request(2, Vec::new()), splits, &None, three_hits).0;
    assert_eq!(resp.num_attempted_splits, 1);
    let kept: Vec<(String, u32)> = resp.partial_hits.iter().map(|h| (h.split_id.clone(), h.doc_id)).collect();
    assert_eq!(kept, vec![("c".to_string(), 1), ("c".to_string(), 0)]);
}

#[test]
fn sequential_leaf_search_by_timestamp() {
    let splits = vec![
        split("old", Some(0), Some(10)),
        split("new", Some(20), Some(30)),
        split("mid", Some(5), Some(25)),
    ];
    let resp = quickwit_core::leaf::leaf_search(
        request(1, sort_by("timestamp", SortOrder::Desc)),
        splits,
        &Some("timestamp".to_string()),
        |s: &SplitIdAndFooterOffsets, q: &SearchRequest| {
            let ts = s.timestamp_end.unwrap() * 1_000_000_000;
            let hits = vec![hit(&s.split_id, 0, Some(SortValue::I64(ts)))];
            SplitOutcome::Response(LeafSearchResponse {
                num_hits: 1,
                partial_hits: hits.into_iter().take(q.max_hits as usize).collect(),
                failed_splits: Vec::new(),
                num_attempted_splits: 1,
            })
        },
    )
    .0;
    assert_eq!(resp.partial_hits.len(), 1);
    assert_eq!(resp.partial_hits[0].split_id, "new");
    assert_eq!(resp.num_attempted_splits, 1);
}

#[test]
fn sequential_leaf_search_keeps_other_hits_when_a_split_fails() {
    let splits = vec![split("a", None, None), split("b", None, None)];
    let resp = quickwit_core::leaf::leaf_search(
        request(10, Vec::new()),
        splits,
        &None,
        |s: &SplitIdAndFooterOffsets, q: &SearchRequest| {
            if s.split_id == "b" {
                SplitOutcome::Failed("io error".to_string())
            } else {
                three_hits(s, q)
            }
        },
    )
    .0;
    assert_eq!(resp.failed_splits.len(), 1);
    assert_eq!(resp.failed_splits[0].split_id, "b");
    assert!(resp.failed_splits[0].retryable_error);
    assert_eq!(resp.partial_hits.len(), 3);
    assert_eq!(resp.num_attempted_splits, 2);
}

#[test]
fn pruning_bound_follows_the_worst_hit() {
    let mut by_id = CanSplitDoBetter::SplitIdHigher(None);
    by_id.record_new_worst_hit(&hit("m", 0, None));
    by_id.record_new_worst_hit(&hit("c", 0, None));
    assert!(matches!(&by_id, CanSplitDoBetter::SplitIdHigher(Some(id)) if id == "c"));
    let mut desc = CanSplitDoBetter::SplitTimestampHigher(None);
    desc.record_new_worst_hit(&hit("a", 0, Some(SortValue::I64(5_000_000_000))));
    desc.record_new_worst_hit(&hit("a", 0, Some(SortValue::I64(1_000_000_000))));
    assert!(matches!(desc, CanSplitDoBetter::SplitTimestampHigher(Some(1))));
    let mut asc = CanSplitDoBetter::SplitTimestampLower(None);
    asc.record_new_worst_hit(&hit("a", 0, Some(SortValue::I64(1_000_000_000))));
    asc.record_new_worst_hit(&hit("a", 0, Some(SortValue::I64(9_000_000_000))));
    assert!(matches!(asc, CanSplitDoBetter::SplitTimestampLower(Some(9))));
}

#[test]
fn dispatch_rewrites_time_bounds_for_the_split() {
    let mut req = request(5, Vec::new());
    req.start_timestamp = Some(0);
    req.end_timestamp = Some(15);
    let mut splits = vec![split("a", Some(10), Some(20))];
    let state = LeafSearchState::new(req, &mut splits, &None);
    match state.dispatch(&splits[0]) {
        SplitDispatch::Search(q) => {
            assert_eq!(q.start_timestamp, None);
            assert_eq!(q.end_timestamp, Some(15));
        }
        SplitDispatch::Skip => panic!("the first split is always searched"),
    }
}
