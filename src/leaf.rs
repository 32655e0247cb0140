//! The decisions of a leaf search over many splits: the order in which splits are searched,
//! which of them are searched in full, degraded to a count, or skipped, and how each split's
//! outcome is folded into the one response.
//!
//! The caller runs the split searches, concurrently and under its own permits, and hands each
//! outcome back.
use vstd::prelude::*;

use crate::collector::{hit_better, hits_sorted, IncrementalCollector};
use crate::indexer::sat_add;
use crate::order::str_bytes;
use crate::pruning::{
    after_worst_hit, ceil_secs, hit_fits, lemma_bound_never_loosens, order_agrees, rewrite_request, trunc_secs, rewritten_end, rewritten_start, spec_can_be_better,
    strategy_for, CanSplitDoBetter, sorted_for,
};
use crate::request::{
    LeafSearchResponse, PartialHit, SearchRequest, SortField, SortOrder, SortValue, SplitIdAndFooterOffsets,
    SplitSearchError,
};

verus! {

/// How the search of one split ended.
#[derive(Clone, Debug)]
pub enum SplitOutcome {
    Response(LeafSearchResponse),
    Failed(String),
    /// The search panicked, with the panic's message.
    Panicked(String),
}

/// One split searched, and how its search ended.
pub struct SearchStep {
    pub split: SplitIdAndFooterOffsets,
    pub outcome: SplitOutcome,
}

/// The hits a search outcome returns.
pub open spec fn step_hits(o: SplitOutcome) -> Seq<PartialHit> {
    match o {
        SplitOutcome::Response(r) => r.partial_hits@,
        _ => Seq::empty(),
    }
}

/// The failure entries a searched split adds: those its response carries, or one retryable
/// entry naming the split.
pub open spec fn step_failures(s: SearchStep) -> Seq<SplitSearchError> {
    match s.outcome {
        SplitOutcome::Response(r) => r.failed_splits@,
        SplitOutcome::Failed(e) => seq![SplitSearchError { split_id: s.split.split_id, error: e, retryable_error: true }],
        SplitOutcome::Panicked(e) => seq![SplitSearchError { split_id: s.split.split_id, error: e, retryable_error: true }],
    }
}

pub open spec fn step_num_hits(o: SplitOutcome) -> u64 {
    match o {
        SplitOutcome::Response(r) => r.num_hits,
        _ => 0,
    }
}

/// Every hit the searched splits returned, in the order they were folded.
pub open spec fn hits_of(steps: Seq<SearchStep>) -> Seq<PartialHit>
    decreases steps.len(),
{
    if steps.len() == 0 {
        Seq::empty()
    } else {
        hits_of(steps.drop_last()) + step_hits(steps.last().outcome)
    }
}

pub open spec fn failures_of(steps: Seq<SearchStep>) -> Seq<SplitSearchError>
    decreases steps.len(),
{
    if steps.len() == 0 {
        Seq::empty()
    } else {
        failures_of(steps.drop_last()) + step_failures(steps.last())
    }
}

/// The match counts of the searched splits, summed (saturating).
pub open spec fn num_hits_of(steps: Seq<SearchStep>) -> u64
    decreases steps.len(),
{
    if steps.len() == 0 {
        0
    } else {
        sat_add(num_hits_of(steps.drop_last()), step_num_hits(steps.last().outcome))
    }
}

/// The number of searched splits (saturating).
pub open spec fn attempted_of(steps: Seq<SearchStep>) -> u64
    decreases steps.len(),
{
    if steps.len() == 0 {
        0
    } else {
        sat_add(attempted_of(steps.drop_last()), 1)
    }
}

proof fn lemma_attempted_exact(steps: Seq<SearchStep>)
    requires
        steps.len() <= u64::MAX,
    ensures
        attempted_of(steps) == steps.len(),
    decreases steps.len(),
{
    if steps.len() > 0 {
        lemma_attempted_exact(steps.drop_last());
    }
}

/// Whether every split must be searched, because an exact count or an aggregation is asked.
pub open spec fn spec_run_all_splits(request: SearchRequest) -> bool {
    request.has_aggregation || request.count_all
}

pub fn run_all_splits(request: &SearchRequest) -> (r: bool)
    ensures
        r == spec_run_all_splits(*request),
{
    request.has_aggregation || request.count_all
}

fn clone_sort_fields(fields: &Vec<SortField>) -> (r: Vec<SortField>)
    ensures
        r@ == fields@,
{
    let mut r: Vec<SortField> = Vec::new();
    let mut i: usize = 0;
    while i < fields.len()
        invariant
            i <= fields@.len(),
            r@ == fields@.take(i as int),
        decreases fields@.len() - i,
    {
        let f = &fields[i];
        r.push(SortField { field_name: f.field_name.clone(), sort_order: f.sort_order });
        proof {
            assert(fields@.take(i as int + 1) =~= fields@.take(i as int).push(fields@[i as int]));
        }
        i = i + 1;
    }
    proof {
        assert(fields@.take(fields@.len() as int) =~= fields@);
    }
    r
}

pub fn clone_request(request: &SearchRequest) -> (r: SearchRequest)
    ensures
        r.max_hits == request.max_hits,
        r.start_offset == request.start_offset,
        r.sort_fields@ == request.sort_fields@,
        r.start_timestamp == request.start_timestamp,
        r.end_timestamp == request.end_timestamp,
        r.count_all == request.count_all,
        r.has_aggregation == request.has_aggregation,
{
    SearchRequest {
        max_hits: request.max_hits,
        start_offset: request.start_offset,
        sort_fields: clone_sort_fields(&request.sort_fields),
        start_timestamp: request.start_timestamp,
        end_timestamp: request.end_timestamp,
        count_all: request.count_all,
        has_aggregation: request.has_aggregation,
    }
}

/// What a split is searched with: the request itself, the request degraded to a count, or
/// nothing when the split is skipped.
pub enum SplitDispatch {
    Search(SearchRequest),
    Skip,
}

/// The order of the hits the request asks for.
pub open spec fn spec_hit_order(request: SearchRequest) -> SortOrder {
    if request.sort_fields@.len() == 0 {
        SortOrder::Desc
    } else {
        request.sort_fields@[0].sort_order
    }
}

/// `t` is the bound that `hit` gives a descending timestamp sort.
pub open spec fn bounds_higher(hit: PartialHit, t: i64) -> bool {
    match hit.sort_value {
        Some(SortValue::I64(ns)) => t == ceil_secs(ns),
        _ => false,
    }
}

/// `t` is the bound that `hit` gives an ascending timestamp sort.
pub open spec fn bounds_lower(hit: PartialHit, t: i64) -> bool {
    match hit.sort_value {
        Some(SortValue::I64(ns)) => t == trunc_secs(ns),
        _ => false,
    }
}

/// Every one of `hits` carries the kind of sort value strategy `s` reads.
pub open spec fn all_fit(s: CanSplitDoBetter, hits: Seq<PartialHit>) -> bool {
    forall|i: int| 0 <= i < hits.len() ==> hit_fits(s, #[trigger] hits[i])
}

/// A split skipped under the split-id order cannot improve the hits: when the bound came from a
/// worst hit `w` of another split, any unsorted hit `h` of the skipped split ranks no higher than
/// `w`, hence no higher than any later worst hit `last` that is no worse than `w`.
pub proof fn lemma_pruned_split_cannot_improve(
    h: PartialHit,
    split: SplitIdAndFooterOffsets,
    w: PartialHit,
    last: PartialHit,
    order: SortOrder,
)
    requires
        !spec_can_be_better(CanSplitDoBetter::SplitIdHigher(Some(w.split_id)), split),
        str_bytes(w.split_id) != str_bytes(split.split_id),
        str_bytes(h.split_id) == str_bytes(split.split_id),
        h.sort_value.is_none(),
        w.sort_value.is_none(),
        !hit_better(w, last, order),
    ensures
        !hit_better(h, last, order),
{
    let (x, y) = (str_bytes(h.split_id), str_bytes(w.split_id));
    crate::order::lemma_lex_total(x, y);
    crate::order::lemma_lex_asymmetric(x, y);
    assert(!hit_better(h, w, order));
    if hit_better(h, last, order) {
        crate::collector::lemma_hit_connected(h, w, last, order);
    }
}

/// None of `hits` comes from a skipped split.
pub open spec fn no_hit_names_skipped(
    hits: Seq<PartialHit>,
    skipped: Seq<(SplitIdAndFooterOffsets, CanSplitDoBetter, PartialHit)>,
) -> bool {
    forall|i: int, k: int|
        0 <= i < hits.len() && 0 <= k < skipped.len() ==> str_bytes((#[trigger] hits[i]).split_id) != str_bytes(
            (#[trigger] skipped[k]).0.split_id,
        )
}

/// Filter `f` is the strategy `base` with a bound taken from one of `hits`, or with no bound.
pub open spec fn grounded(f: CanSplitDoBetter, base: CanSplitDoBetter, hits: Seq<PartialHit>) -> bool {
    match (f, base) {
        (CanSplitDoBetter::Uninformative, CanSplitDoBetter::Uninformative) => true,
        (CanSplitDoBetter::SplitIdHigher(b), CanSplitDoBetter::SplitIdHigher(None)) => b matches Some(id) ==> exists|i: int|
            0 <= i < hits.len() && (#[trigger] hits[i]).split_id == id,
        (CanSplitDoBetter::SplitTimestampHigher(b), CanSplitDoBetter::SplitTimestampHigher(None)) => b matches Some(t)
            ==> exists|i: int|
            0 <= i < hits.len() && bounds_higher(#[trigger] hits[i], t),
        (CanSplitDoBetter::SplitTimestampLower(b), CanSplitDoBetter::SplitTimestampLower(None)) => b matches Some(t)
            ==> exists|i: int|
            0 <= i < hits.len() && bounds_lower(#[trigger] hits[i], t),
        _ => false,
    }
}

/// A bound grounded in some hits stays grounded once more hits follow them.
proof fn lemma_grounded_extends(f: CanSplitDoBetter, base: CanSplitDoBetter, hits: Seq<PartialHit>, more: Seq<PartialHit>)
    requires
        grounded(f, base, hits),
    ensures
        grounded(f, base, hits + more),
{
    let all = hits + more;
    match (f, base) {
        (CanSplitDoBetter::SplitIdHigher(Some(id)), CanSplitDoBetter::SplitIdHigher(None)) => {
            let i = choose|i: int| 0 <= i < hits.len() && (#[trigger] hits[i]).split_id == id;
            assert(all[i] == hits[i]);
        },
        (CanSplitDoBetter::SplitTimestampHigher(Some(t)), CanSplitDoBetter::SplitTimestampHigher(None)) => {
            let i = choose|i: int|
                0 <= i < hits.len() && bounds_higher(#[trigger] hits[i], t);
            assert(all[i] == hits[i]);
        },
        (CanSplitDoBetter::SplitTimestampLower(Some(t)), CanSplitDoBetter::SplitTimestampLower(None)) => {
            let i = choose|i: int|
                0 <= i < hits.len() && bounds_lower(#[trigger] hits[i], t);
            assert(all[i] == hits[i]);
        },
        _ => {},
    }
}

/// The state shared by the split searches of one leaf request.
pub struct LeafSearchState {
    pub request: SearchRequest,
    pub run_all_splits: bool,
    pub split_filter: CanSplitDoBetter,
    pub collector: IncrementalCollector,
    /// The splits folded in so far, in order.
    pub steps: Ghost<Seq<SearchStep>>,
    /// The strategy the request's sort calls for, before any bound.
    pub strategy: Ghost<CanSplitDoBetter>,
}

impl LeafSearchState {
    pub open spec fn wf(&self) -> bool {
        &&& self.collector.wf()
        &&& self.run_all_splits == spec_run_all_splits(self.request)
        &&& self.collector.max_hits == self.request.max_hits
        &&& self.collector.seen@ == hits_of(self.steps@)
        &&& self.collector.failed_splits@ == failures_of(self.steps@)
        &&& self.collector.num_hits == num_hits_of(self.steps@)
        &&& self.collector.num_attempted_splits == attempted_of(self.steps@)
        &&& grounded(self.split_filter, self.strategy@, self.collector.seen@)
        &&& order_agrees(self.strategy@, self.collector.sort_order)
        &&& !self.collector.is_full() ==> self.split_filter == self.strategy@
        &&& self.collector.is_full() ==> self.split_filter == after_worst_hit(
            self.split_filter,
            self.collector.top_hits@.last(),
        )
    }

    /// Starts a leaf search: picks the pruning strategy from the request's sort and puts
    /// `splits` in the order that strategy searches them.
    pub fn new(request: SearchRequest, splits: &mut Vec<SplitIdAndFooterOffsets>, timestamp_field_name: &Option<String>) -> (r: Self)
        ensures
            r.wf(),
            r.request == request,
            r.split_filter == strategy_for(request, *timestamp_field_name),
            final(splits)@.to_multiset() == old(splits)@.to_multiset(),
            sorted_for(r.split_filter, final(splits)@),
            r.steps@.len() == 0,
            r.strategy@ == strategy_for(request, *timestamp_field_name),
            r.collector.seen@.len() == 0,
            r.collector.num_hits == 0,
            r.collector.failed_splits@.len() == 0,
            r.collector.num_attempted_splits == 0,
            r.collector.sort_order == spec_hit_order(request),
    {
        let run_all = run_all_splits(&request);
        let split_filter = CanSplitDoBetter::from_request(&request, timestamp_field_name);
        split_filter.optimize_split_order(splits);
        let order = if request.sort_fields.len() == 0 {
            SortOrder::Desc
        } else {
            request.sort_fields[0].sort_order
        };
        let collector = IncrementalCollector::new(request.max_hits, order);
        let ghost strategy = split_filter;
        let r = LeafSearchState { request, run_all_splits: run_all, split_filter, collector, steps: Ghost(Seq::empty()), strategy: Ghost(split_filter) };
        proof {
            assert(r.collector.seen@ =~= hits_of(r.steps@));
            assert(r.collector.failed_splits@ =~= failures_of(r.steps@));
        }
        r
    }

    /// Decides how `split` is searched: in full while it may improve the hits; else degraded
    /// to a count when every split must be counted; else skipped. The request is then rewritten
    /// for the split (see [`rewrite_request`]).
    pub fn dispatch(&self, split: &SplitIdAndFooterOffsets) -> (r: SplitDispatch)
        requires
            self.wf(),
        ensures
            !spec_can_be_better(self.split_filter, *split) && !self.run_all_splits <==> r is Skip,
            r matches SplitDispatch::Search(q) ==> ({
                let full = spec_can_be_better(self.split_filter, *split);
                &&& q.max_hits == if full { self.request.max_hits } else { 0 }
                &&& q.start_offset == if full { self.request.start_offset } else { 0 }
                &&& q.sort_fields@ == if full && self.request.max_hits != 0 {
                    self.request.sort_fields@
                } else {
                    Seq::<SortField>::empty()
                }
                &&& q.start_timestamp == rewritten_start(self.request.start_timestamp, *split)
                &&& q.end_timestamp == rewritten_end(self.request.end_timestamp, *split)
                &&& q.count_all == self.request.count_all
                &&& q.has_aggregation == self.request.has_aggregation
            }),
    {
        let mut request = clone_request(&self.request);
        if !self.split_filter.can_be_better(split) {
            if !self.run_all_splits {
                return SplitDispatch::Skip;
            }
            request.max_hits = 0;
            request.start_offset = 0;
            request.sort_fields = Vec::new();
        }
        rewrite_request(&mut request, split);
        SplitDispatch::Search(request)
    }

    /// Folds the outcome of searching `split`: a response adds its hits, count and failures;
    /// a failure or a panic adds one retryable failure naming the split. Either way the split
    /// counts as one attempt. The pruning bound then follows the worst hit kept, once
    /// `max_hits` are kept, and never loosens.
    pub fn add_split_outcome(&mut self, split: &SplitIdAndFooterOffsets, outcome: SplitOutcome)
        requires
            old(self).wf(),
        ensures
            final(self).wf(),
            final(self).steps@ == old(self).steps@.push(SearchStep { split: *split, outcome }),
            final(self).strategy == old(self).strategy,
            final(self).request == old(self).request,
            final(self).run_all_splits == old(self).run_all_splits,
            final(self).collector.sort_order == old(self).collector.sort_order,
            IncrementalCollector::worst_not_worse(old(self).collector, final(self).collector),
            final(self).collector.is_full() ==> final(self).split_filter == after_worst_hit(
                old(self).split_filter,
                final(self).collector.top_hits@.last(),
            ),
            !final(self).collector.is_full() ==> final(self).split_filter == old(self).split_filter,
            all_fit(old(self).strategy@, final(self).collector.seen@) ==> forall|s: SplitIdAndFooterOffsets|
                spec_can_be_better(final(self).split_filter, s) ==> #[trigger] spec_can_be_better(old(self).split_filter, s),
    {
        let ghost step = SearchStep { split: *split, outcome };
        let ghost steps = self.steps@.push(step);
        proof {
            assert(steps.drop_last() =~= self.steps@);
        }
        match outcome {
            SplitOutcome::Response(resp) => {
                let LeafSearchResponse { num_hits, partial_hits, failed_splits, num_attempted_splits: _ } = resp;
                self.collector.add_split(LeafSearchResponse { num_hits, partial_hits, failed_splits, num_attempted_splits: 1 });
                proof {
                    assert(self.collector.seen@ == hits_of(steps));
                    assert(self.collector.failed_splits@ == failures_of(steps));
                }
            },
            SplitOutcome::Failed(error) => {
                self.collector.add_failed_split(SplitSearchError { split_id: split.split_id.clone(), error, retryable_error: true });
                proof {
                    assert(hits_of(steps) =~= hits_of(self.steps@));
                    assert(self.collector.failed_splits@ =~= failures_of(steps));
                }
            },
            SplitOutcome::Panicked(error) => {
                self.collector.add_failed_split(SplitSearchError { split_id: split.split_id.clone(), error, retryable_error: true });
                proof {
                    assert(hits_of(steps) =~= hits_of(self.steps@));
                    assert(self.collector.failed_splits@ =~= failures_of(steps));
                }
            },
        }
        self.steps = Ghost(steps);
        proof {
            lemma_grounded_extends(old(self).split_filter, self.strategy@, old(self).collector.seen@, step_hits(outcome));
            assert(self.collector.seen@ == old(self).collector.seen@ + step_hits(outcome));
            if old(self).collector.is_full() {
                crate::collector::lemma_hit_irreflexive(old(self).collector.top_hits@.last(), old(self).collector.sort_order);
            }
        }
        let ghost filter0 = self.split_filter;
        match self.collector.peek_worst_hit() {
            Some(last_hit) => {
                self.split_filter.record_new_worst_hit(last_hit);
                proof {
                    let seen = self.collector.seen@;
                    let top = self.collector.top_hits@;
                    seen.to_multiset_ensures();
                    top.to_multiset_ensures();
                    assert(top.contains(top.last())) by {
                        assert(top[top.len() - 1] == top.last());
                    }
                    assert(seen.contains(*last_hit)) by {
                        assert(top.to_multiset().count(*last_hit) > 0);
                        assert(seen.to_multiset().count(*last_hit) > 0);
                    }
                    let w = choose|w: int| 0 <= w < seen.len() && seen[w] == *last_hit;
                    assert(seen[w] == *last_hit);
                    let strategy = self.strategy@;
                    if all_fit(strategy, seen) && old(self).collector.is_full() {
                        let old_top = old(self).collector.top_hits@;
                        let old_seen = old(self).collector.seen@;
                        old_seen.to_multiset_ensures();
                        old_top.to_multiset_ensures();
                        assert(old_top.contains(old_top.last())) by {
                            assert(old_top[old_top.len() - 1] == old_top.last());
                        }
                        assert(old_seen.to_multiset().count(old_top.last()) > 0);
                        assert(old_seen.contains(old_top.last()));
                        let v = choose|v: int| 0 <= v < old_seen.len() && old_seen[v] == old_top.last();
                        assert(seen == old_seen + step_hits(outcome));
                        assert(seen[v] == old_top.last());
                        assert(hit_fits(strategy, old_top.last()));
                        assert(hit_fits(strategy, *last_hit));
                        assert forall|s: SplitIdAndFooterOffsets|
                            spec_can_be_better(self.split_filter, s) implies #[trigger] spec_can_be_better(filter0, s) by {
                            lemma_bound_never_loosens(
                                filter0,
                                old_top.last(),
                                *last_hit,
                                self.collector.sort_order,
                                s,
                            );
                        }
                    }
                }
            },
            None => {},
        }
    }

    /// The merged response.
    pub fn finalize(self) -> (r: LeafSearchResponse)
        requires
            self.wf(),
        ensures
            r.partial_hits@ == self.collector.top_hits@,
            r.num_hits == self.collector.num_hits,
            r.failed_splits@ == self.collector.failed_splits@,
            r.num_attempted_splits == self.collector.num_attempted_splits,
    {
        self.collector.finalize()
    }
}

/// What a leaf search did: the order it went through the splits, each split it searched with
/// the request it used and the outcome, and each split it skipped with the bound that ruled
/// it out and the worst kept hit that bound came from.
pub struct LeafSearchTrace {
    pub order: Seq<SplitIdAndFooterOffsets>,
    pub searched: Seq<(SplitIdAndFooterOffsets, SearchRequest, SplitOutcome)>,
    pub skipped: Seq<(SplitIdAndFooterOffsets, CanSplitDoBetter, PartialHit)>,
}

pub open spec fn steps_of(searched: Seq<(SplitIdAndFooterOffsets, SearchRequest, SplitOutcome)>) -> Seq<SearchStep> {
    searched.map_values(|x: (SplitIdAndFooterOffsets, SearchRequest, SplitOutcome)| SearchStep { split: x.0, outcome: x.2 })
}

/// `hits` are the best `min(k, |all|)` of `all`, in `order`: each comes from `all`, and none of
/// the hits of `all` left out ranks above one of them.
pub open spec fn is_top_k(hits: Seq<PartialHit>, all: Seq<PartialHit>, k: u64, order: SortOrder) -> bool {
    &&& hits.len() == if all.len() < k { all.len() } else { k as nat }
    &&& hits_sorted(hits, order)
    &&& hits.to_multiset().subset_of(all.to_multiset())
    &&& forall|h: PartialHit, j: int|
        #![trigger all.to_multiset().count(h), hits[j]]
        all.to_multiset().count(h) > hits.to_multiset().count(h) && 0 <= j < hits.len() ==> !hit_better(h, hits[j], order)
}

/// Searches the splits one at a time, in the order the request's sort calls for, with
/// `search_split` running the search of one split. Returns the merged response and, as a
/// ghost value, what was searched: the response's hits are the best `max_hits` of the hits the
/// searches returned; each failed or panicked search adds one retryable entry naming its split;
/// each searched split counts as one attempt; and a split is skipped only when the bound at its
/// turn rules it out and no exact count or aggregation is asked.
pub fn leaf_search<F>(
    request: SearchRequest,
    splits: Vec<SplitIdAndFooterOffsets>,
    timestamp_field_name: &Option<String>,
    search_split: F,
) -> (r: (LeafSearchResponse, Ghost<LeafSearchTrace>)) where F: Fn(&SplitIdAndFooterOffsets, &SearchRequest) -> SplitOutcome
    requires
        forall|s: &SplitIdAndFooterOffsets, q: &SearchRequest| search_split.requires((s, q)),
    ensures
        ({
            let (resp, trace) = r;
            let t = trace@;
            let steps = steps_of(t.searched);
            &&& t.order.to_multiset() == splits@.to_multiset()
            &&& sorted_for(strategy_for(request, *timestamp_field_name), t.order)
            &&& forall|k: int|
                0 <= k < t.searched.len() ==> search_split.ensures(
                    (&(#[trigger] t.searched[k]).0, &t.searched[k].1),
                    t.searched[k].2,
                )
            &&& t.searched.len() + t.skipped.len() == splits@.len()
            &&& forall|k: int|
                0 <= k < t.skipped.len() ==> !spec_run_all_splits(request) && !spec_can_be_better(
                    (#[trigger] t.skipped[k]).1,
                    t.skipped[k].0,
                )
            &&& forall|k: int|
                0 <= k < t.skipped.len() ==> grounded(
                    (#[trigger] t.skipped[k]).1,
                    strategy_for(request, *timestamp_field_name),
                    hits_of(steps),
                )
            &&& forall|k: int|
                0 <= k < t.skipped.len() ==> {
                    let (sk, f, w) = #[trigger] t.skipped[k];
                    &&& f == after_worst_hit(f, w)
                    &&& hits_of(steps).contains(w)
                    &&& resp.partial_hits@.len() == request.max_hits
                    &&& request.max_hits > 0
                    &&& !hit_better(w, resp.partial_hits@.last(), spec_hit_order(request))
                }
            &&& (strategy_for(request, *timestamp_field_name) is SplitIdHigher && all_fit(
                strategy_for(request, *timestamp_field_name),
                hits_of(steps),
            ) && no_hit_names_skipped(hits_of(steps), t.skipped)) ==> forall|k: int, h: PartialHit|
                #![trigger t.skipped[k], str_bytes(h.split_id)]
                0 <= k < t.skipped.len() && str_bytes(h.split_id) == str_bytes(t.skipped[k].0.split_id)
                    && h.sort_value.is_none() ==> !hit_better(h, resp.partial_hits@.last(), spec_hit_order(request))
            &&& spec_run_all_splits(request) ==> t.skipped.len() == 0
            &&& is_top_k(resp.partial_hits@, hits_of(steps), request.max_hits, spec_hit_order(request))
            &&& resp.failed_splits@ == failures_of(steps)
            &&& resp.num_hits == num_hits_of(steps)
            &&& resp.num_attempted_splits == t.searched.len()
        }),
{
    let mut splits = splits;
    let ghost before = splits@;
    let mut state = LeafSearchState::new(request, &mut splits, timestamp_field_name);
    let ghost n = splits@.len();
    proof {
        splits@.to_multiset_ensures();
        before.to_multiset_ensures();
    }
    let ghost req = state.request;
    let ghost mut searched: Seq<(SplitIdAndFooterOffsets, SearchRequest, SplitOutcome)> = Seq::empty();
    let ghost mut skipped: Seq<(SplitIdAndFooterOffsets, CanSplitDoBetter, PartialHit)> = Seq::empty();
    let mut i: usize = 0;
    proof {
        assert(steps_of(searched) =~= state.steps@);
    }
    while i < splits.len()
        invariant
            state.wf(),
            state.request == req,
            req == request,
            state.run_all_splits == spec_run_all_splits(request),
            state.collector.sort_order == spec_hit_order(request),
            splits@.len() == n,
            i <= n,
            searched.len() + skipped.len() == i,
            state.steps@ == steps_of(searched),
            forall|k: int|
                0 <= k < searched.len() ==> search_split.ensures((&(#[trigger] searched[k]).0, &searched[k].1), searched[k].2),
            forall|k: int|
                0 <= k < skipped.len() ==> !spec_run_all_splits(request) && !spec_can_be_better(
                    (#[trigger] skipped[k]).1,
                    skipped[k].0,
                ),
            forall|k: int|
                0 <= k < skipped.len() ==> {
                    let (sk, f, w) = #[trigger] skipped[k];
                    &&& f == after_worst_hit(f, w)
                    &&& hits_of(steps_of(searched)).contains(w)
                    &&& state.collector.is_full()
                    &&& !hit_better(w, state.collector.top_hits@.last(), state.collector.sort_order)
                },
            spec_run_all_splits(request) ==> skipped.len() == 0,
            state.strategy@ == strategy_for(request, *timestamp_field_name),
            forall|k: int|
                0 <= k < skipped.len() ==> grounded(
                    (#[trigger] skipped[k]).1,
                    strategy_for(request, *timestamp_field_name),
                    hits_of(steps_of(searched)),
                ),
            forall|s: &SplitIdAndFooterOffsets, q: &SearchRequest| search_split.requires((s, q)),
        decreases n - i,
    {
        let split = &splits[i];
        match state.dispatch(split) {
            SplitDispatch::Skip => {
                proof {
                    let old_skipped = skipped;
                    let c = state.collector;
                    assert(c.is_full()) by {
                        if !c.is_full() {
                            assert(state.split_filter == state.strategy@);
                        }
                    }
                    let w = c.top_hits@.last();
                    c.seen@.to_multiset_ensures();
                    c.top_hits@.to_multiset_ensures();
                    assert(c.top_hits@.contains(w)) by {
                        assert(c.top_hits@[c.top_hits@.len() - 1] == w);
                    }
                    assert(c.seen@.to_multiset().count(w) > 0);
                    assert(c.seen@.contains(w));
                    crate::collector::lemma_hit_irreflexive(w, c.sort_order);
                    skipped = skipped.push((*split, state.split_filter, w));
                    assert forall|k: int| 0 <= k < skipped.len() implies grounded(
                        (#[trigger] skipped[k]).1,
                        strategy_for(request, *timestamp_field_name),
                        hits_of(steps_of(searched)),
                    ) by {
                        if k < old_skipped.len() {
                            assert(skipped[k] == old_skipped[k]);
                        }
                    }
                }
            },
            SplitDispatch::Search(split_request) => {
                let outcome = search_split(split, &split_request);
                let ghost entry = (*split, split_request, outcome);
                let ghost prev_last = state.collector.top_hits@.last();
                state.add_split_outcome(split, outcome);
                proof {
                    let old_searched = searched;
                    searched = searched.push(entry);
                    assert(steps_of(searched) =~= steps_of(old_searched).push(SearchStep { split: entry.0, outcome: entry.2 }));
                    let new_steps = steps_of(searched);
                    assert(new_steps.drop_last() =~= steps_of(old_searched));
                    assert forall|k: int| 0 <= k < skipped.len() implies ({
                        let (sk, f, w) = #[trigger] skipped[k];
                        &&& f == after_worst_hit(f, w)
                        &&& hits_of(steps_of(searched)).contains(w)
                        &&& state.collector.is_full()
                        &&& !hit_better(w, state.collector.top_hits@.last(), state.collector.sort_order)
                    }) by {
                        let w = skipped[k].2;
                        let old_hits = hits_of(steps_of(old_searched));
                        let j = choose|j: int| 0 <= j < old_hits.len() && old_hits[j] == w;
                        assert(hits_of(steps_of(searched)) == old_hits + step_hits(entry.2));
                        assert(hits_of(steps_of(searched))[j] == w);
                        if hit_better(w, state.collector.top_hits@.last(), state.collector.sort_order) {
                            crate::collector::lemma_hit_connected(
                                w,
                                prev_last,
                                state.collector.top_hits@.last(),
                                state.collector.sort_order,
                            );
                        }
                    }
                    assert forall|k: int| 0 <= k < skipped.len() implies grounded(
                        (#[trigger] skipped[k]).1,
                        strategy_for(request, *timestamp_field_name),
                        hits_of(steps_of(searched)),
                    ) by {
                        lemma_grounded_extends(
                            skipped[k].1,
                            strategy_for(request, *timestamp_field_name),
                            hits_of(steps_of(old_searched)),
                            step_hits(entry.2),
                        );
                    }
                }
            },
        }
        i = i + 1;
    }
    proof {
        lemma_attempted_exact(state.steps@);
        lemma_merged_hits_are_top_k(state);
    }
    let ghost hits = hits_of(state.steps@);
    let ghost last = state.collector.top_hits@.last();
    let ghost order = state.collector.sort_order;
    let ghost strategy = strategy_for(request, *timestamp_field_name);
    proof {
        if strategy is SplitIdHigher && all_fit(strategy, hits) && no_hit_names_skipped(hits, skipped) {
            assert forall|k: int, h: PartialHit|
                #![trigger skipped[k], str_bytes(h.split_id)]
                0 <= k < skipped.len() && str_bytes(h.split_id) == str_bytes(skipped[k].0.split_id)
                    && h.sort_value.is_none() implies !hit_better(h, last, order) by {
                let (sk, f, w) = skipped[k];
                let i = choose|i: int| 0 <= i < hits.len() && hits[i] == w;
                assert(hit_fits(strategy, hits[i]));
                assert(str_bytes(hits[i].split_id) != str_bytes(skipped[k].0.split_id));
                assert(grounded(f, strategy, hits));
                assert(f == CanSplitDoBetter::SplitIdHigher(Some(w.split_id)));
                lemma_pruned_split_cannot_improve(h, sk, w, last, order);
            }
        }
    }
    let resp = state.finalize();
    (resp, Ghost(LeafSearchTrace { order: splits@, searched, skipped }))
}

/// The merged response of a leaf search holds at most `max_hits` hits, in the requested
/// order, and they are the best of all hits the splits returned: each was returned, and no
/// returned hit left out ranks above one kept.
pub proof fn lemma_merged_hits_are_top_k(state: LeafSearchState)
    requires
        state.wf(),
    ensures
        state.collector.top_hits@.len() <= state.request.max_hits,
        state.collector.top_hits@.len() == if state.collector.seen@.len() < state.request.max_hits {
            state.collector.seen@.len()
        } else {
            state.request.max_hits as nat
        },
        hits_sorted(state.collector.top_hits@, state.collector.sort_order),
        state.collector.top_hits@.to_multiset().subset_of(state.collector.seen@.to_multiset()),
        forall|h: crate::request::PartialHit, j: int|
            #![trigger state.collector.seen@.to_multiset().count(h), state.collector.top_hits@[j]]
            state.collector.seen@.to_multiset().count(h) > state.collector.top_hits@.to_multiset().count(h) && 0 <= j
                < state.collector.top_hits@.len() ==> !crate::collector::hit_better(
                h,
                state.collector.top_hits@[j],
                state.collector.sort_order,
            ),
{
    let c = state.collector;
    c.dropped@.to_multiset_ensures();
    assert forall|h: crate::request::PartialHit, j: int|
        #![trigger c.seen@.to_multiset().count(h), c.top_hits@[j]]
        c.seen@.to_multiset().count(h) > c.top_hits@.to_multiset().count(h) && 0 <= j < c.top_hits@.len() implies !crate::collector::hit_better(
        h,
        c.top_hits@[j],
        c.sort_order,
    ) by {
        assert(c.dropped@.to_multiset().count(h) > 0);
        assert(c.dropped@.contains(h));
        let i = choose|i: int| 0 <= i < c.dropped@.len() && c.dropped@[i] == h;
        assert(!crate::collector::hit_better(c.dropped@[i], c.top_hits@[j], c.sort_order));
    }
}

} // verus!
