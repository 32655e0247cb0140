//! The per-split result cache of leaf searches, and the step that rewrites a request for a
//! split and answers it from the cache when it can.
use vstd::prelude::*;

use crate::leaf::clone_request;
use crate::pruning::{rewrite_request, rewritten_end, rewritten_start};
use crate::request::{
    LeafSearchResponse, PartialHit, SearchRequest, SortField, SortOrder, SplitIdAndFooterOffsets, SplitSearchError,
};

verus! {

pub type RequestKey = (u64, u64, Seq<(Seq<char>, SortOrder)>, Option<i64>, Option<i64>, bool, bool);

pub type CacheKey = (Seq<char>, u64, u64, RequestKey);

pub open spec fn sort_key(s: Seq<SortField>) -> Seq<(Seq<char>, SortOrder)> {
    s.map_values(|f: SortField| (f.field_name@, f.sort_order))
}

/// What identifies a request in the cache: every field of it.
pub open spec fn request_key(q: SearchRequest) -> RequestKey {
    (q.max_hits, q.start_offset, sort_key(q.sort_fields@), q.start_timestamp, q.end_timestamp, q.count_all, q.has_aggregation)
}

/// A split and a request, as the cache tells them apart.
pub open spec fn cache_key(split: SplitIdAndFooterOffsets, q: SearchRequest) -> CacheKey {
    (split.split_id@, split.split_footer_start, split.split_footer_end, request_key(q))
}

/// The key of `q` once [`rewrite_request`] has rewritten it for `split`.
pub open spec fn rewritten_key(split: SplitIdAndFooterOffsets, q: SearchRequest) -> CacheKey {
    (
        split.split_id@,
        split.split_footer_start,
        split.split_footer_end,
        (
            q.max_hits,
            q.start_offset,
            if q.max_hits == 0 { Seq::empty() } else { sort_key(q.sort_fields@) },
            rewritten_start(q.start_timestamp, split),
            rewritten_end(q.end_timestamp, split),
            q.count_all,
            q.has_aggregation,
        ),
    )
}

pub struct CacheEntry {
    pub split: SplitIdAndFooterOffsets,
    pub request: SearchRequest,
    pub response: LeafSearchResponse,
}

pub open spec fn entry_key(e: CacheEntry) -> CacheKey {
    cache_key(e.split, e.request)
}

pub open spec fn entries_map(s: Seq<CacheEntry>) -> Map<CacheKey, LeafSearchResponse>
    decreases s.len(),
{
    if s.len() == 0 {
        Map::empty()
    } else {
        entries_map(s.drop_last()).insert(entry_key(s.last()), s.last().response)
    }
}

pub open spec fn unique_keys(s: Seq<CacheEntry>) -> bool {
    forall|i: int, j: int| 0 <= i < s.len() && 0 <= j < s.len() && i != j ==> entry_key(#[trigger] s[i]) != entry_key(#[trigger] s[j])
}

proof fn lemma_index(s: Seq<CacheEntry>)
    requires
        unique_keys(s),
    ensures
        forall|k: CacheKey| entries_map(s).contains_key(k) <==> exists|i: int| 0 <= i < s.len() && entry_key(#[trigger] s[i]) == k,
        forall|i: int| 0 <= i < s.len() ==> entries_map(s)[entry_key(#[trigger] s[i])] == s[i].response,
    decreases s.len(),
{
    if s.len() > 0 {
        let t = s.drop_last();
        assert(unique_keys(t));
        lemma_index(t);
        assert(entries_map(s) == entries_map(t).insert(entry_key(s.last()), s.last().response));
        assert forall|k: CacheKey| entries_map(s).contains_key(k) <==> exists|i: int| 0 <= i < s.len() && entry_key(#[trigger] s[i]) == k by {
            if entries_map(s).contains_key(k) && k != entry_key(s.last()) {
                assert(entries_map(t).contains_key(k));
                let i = choose|i: int| 0 <= i < t.len() && entry_key(#[trigger] t[i]) == k;
                assert(s[i] == t[i]);
            }
            if exists|i: int| 0 <= i < s.len() && entry_key(#[trigger] s[i]) == k {
                let i = choose|i: int| 0 <= i < s.len() && entry_key(#[trigger] s[i]) == k;
                if i < t.len() {
                    assert(t[i] == s[i]);
                }
            }
        }
        assert forall|i: int| 0 <= i < s.len() implies entries_map(s)[entry_key(#[trigger] s[i])] == s[i].response by {
            if i < t.len() {
                assert(t[i] == s[i]);
                assert(entry_key(s[i]) != entry_key(s[s.len() - 1]));
            }
        }
    }
}

proof fn lemma_remove(s: Seq<CacheEntry>, i: int)
    requires
        unique_keys(s),
        0 <= i < s.len(),
    ensures
        unique_keys(s.remove(i)),
        entries_map(s.remove(i)) == entries_map(s).remove(entry_key(s[i])),
{
    let r = s.remove(i);
    assert forall|a: int, b: int| 0 <= a < r.len() && 0 <= b < r.len() && a != b implies entry_key(#[trigger] r[a]) != entry_key(#[trigger] r[b]) by {
        let aa = if a < i { a } else { a + 1 };
        let bb = if b < i { b } else { b + 1 };
        assert(r[a] == s[aa] && r[b] == s[bb]);
    }
    lemma_index(s);
    lemma_index(r);
    let m = entries_map(s).remove(entry_key(s[i]));
    assert forall|k: CacheKey| #[trigger] entries_map(r).contains_key(k) <==> m.contains_key(k) by {
        if m.contains_key(k) {
            let j = choose|j: int| 0 <= j < s.len() && entry_key(#[trigger] s[j]) == k;
            let jj = if j < i { j } else { j - 1 };
            assert(r[jj] == s[j]);
        }
        if entries_map(r).contains_key(k) {
            let j = choose|j: int| 0 <= j < r.len() && entry_key(#[trigger] r[j]) == k;
            let jj = if j < i { j } else { j + 1 };
            assert(r[j] == s[jj]);
        }
    }
    assert forall|k: CacheKey| #[trigger] entries_map(r).contains_key(k) implies entries_map(r)[k] == m[k] by {
        let j = choose|j: int| 0 <= j < r.len() && entry_key(#[trigger] r[j]) == k;
        let jj = if j < i { j } else { j + 1 };
        assert(r[j] == s[jj]);
    }
    assert(entries_map(r) =~= m);
}

proof fn lemma_push(s: Seq<CacheEntry>, e: CacheEntry)
    requires
        unique_keys(s),
        !entries_map(s).contains_key(entry_key(e)),
    ensures
        unique_keys(s.push(e)),
        entries_map(s.push(e)) == entries_map(s).insert(entry_key(e), e.response),
{
    let p = s.push(e);
    assert(p.drop_last() =~= s);
    lemma_index(s);
    assert forall|a: int, b: int| 0 <= a < p.len() && 0 <= b < p.len() && a != b implies entry_key(#[trigger] p[a]) != entry_key(#[trigger] p[b]) by {
        if a < s.len() && b < s.len() {
            assert(p[a] == s[a] && p[b] == s[b]);
        } else if a < s.len() {
            assert(p[a] == s[a]);
        } else {
            assert(p[b] == s[b]);
        }
    }
}

fn same_sort_fields(a: &Vec<SortField>, b: &Vec<SortField>) -> (r: bool)
    ensures
        r == (sort_key(a@) == sort_key(b@)),
{
    if a.len() != b.len() {
        proof {
            assert(sort_key(a@).len() != sort_key(b@).len());
        }
        return false;
    }
    let mut i: usize = 0;
    while i < a.len()
        invariant
            a@.len() == b@.len(),
            i <= a@.len(),
            forall|k: int| 0 <= k < i ==> #[trigger] sort_key(a@)[k] == sort_key(b@)[k],
        decreases a@.len() - i,
    {
        if a[i].field_name != b[i].field_name || a[i].sort_order != b[i].sort_order {
            proof {
                assert(sort_key(a@)[i as int] != sort_key(b@)[i as int]);
            }
            return false;
        }
        i = i + 1;
    }
    proof {
        assert(sort_key(a@) =~= sort_key(b@));
    }
    true
}

fn same_key(e: &CacheEntry, split: &SplitIdAndFooterOffsets, q: &SearchRequest) -> (r: bool)
    ensures
        r == (entry_key(*e) == cache_key(*split, *q)),
{
    e.split.split_id == split.split_id && e.split.split_footer_start == split.split_footer_start
        && e.split.split_footer_end == split.split_footer_end && e.request.max_hits == q.max_hits
        && e.request.start_offset == q.start_offset && e.request.start_timestamp == q.start_timestamp
        && e.request.end_timestamp == q.end_timestamp && e.request.count_all == q.count_all
        && e.request.has_aggregation == q.has_aggregation && same_sort_fields(&e.request.sort_fields, &q.sort_fields)
}

fn clone_hits(v: &Vec<PartialHit>) -> (r: Vec<PartialHit>)
    ensures
        r@ == v@,
{
    let mut r: Vec<PartialHit> = Vec::new();
    let mut i: usize = 0;
    while i < v.len()
        invariant
            i <= v@.len(),
            r@ == v@.take(i as int),
        decreases v@.len() - i,
    {
        let h = &v[i];
        r.push(PartialHit { sort_value: h.sort_value, split_id: h.split_id.clone(), segment_ord: h.segment_ord, doc_id: h.doc_id });
        proof {
            assert(v@.take(i as int + 1) =~= v@.take(i as int).push(v@[i as int]));
        }
        i = i + 1;
    }
    proof {
        assert(v@.take(v@.len() as int) =~= v@);
    }
    r
}

fn clone_failures(v: &Vec<SplitSearchError>) -> (r: Vec<SplitSearchError>)
    ensures
        r@ == v@,
{
    let mut r: Vec<SplitSearchError> = Vec::new();
    let mut i: usize = 0;
    while i < v.len()
        invariant
            i <= v@.len(),
            r@ == v@.take(i as int),
        decreases v@.len() - i,
    {
        let f = &v[i];
        r.push(SplitSearchError { split_id: f.split_id.clone(), error: f.error.clone(), retryable_error: f.retryable_error });
        proof {
            assert(v@.take(i as int + 1) =~= v@.take(i as int).push(v@[i as int]));
        }
        i = i + 1;
    }
    proof {
        assert(v@.take(v@.len() as int) =~= v@);
    }
    r
}

fn clone_response(r: &LeafSearchResponse) -> (c: LeafSearchResponse)
    ensures
        c.num_hits == r.num_hits,
        c.partial_hits@ == r.partial_hits@,
        c.failed_splits@ == r.failed_splits@,
        c.num_attempted_splits == r.num_attempted_splits,
{
    LeafSearchResponse {
        num_hits: r.num_hits,
        partial_hits: clone_hits(&r.partial_hits),
        failed_splits: clone_failures(&r.failed_splits),
        num_attempted_splits: r.num_attempted_splits,
    }
}

fn clone_split(s: &SplitIdAndFooterOffsets) -> (c: SplitIdAndFooterOffsets)
    ensures
        c == *s,
{
    SplitIdAndFooterOffsets {
        split_id: s.split_id.clone(),
        split_footer_start: s.split_footer_start,
        split_footer_end: s.split_footer_end,
        timestamp_start: s.timestamp_start,
        timestamp_end: s.timestamp_end,
    }
}

/// Two responses hold the same values.
pub open spec fn same_response(a: LeafSearchResponse, b: LeafSearchResponse) -> bool {
    a.num_hits == b.num_hits && a.partial_hits@ == b.partial_hits@ && a.failed_splits@ == b.failed_splits@
        && a.num_attempted_splits == b.num_attempted_splits
}

/// Leaf responses by (split, request), at most `capacity` of them, least recently used first.
pub struct LeafSearchCache {
    pub capacity: usize,
    pub entries: Vec<CacheEntry>,
}

impl LeafSearchCache {
    pub open spec fn wf(&self) -> bool {
        unique_keys(self.entries@) && self.entries@.len() <= self.capacity
    }

    pub open spec fn view(&self) -> Map<CacheKey, LeafSearchResponse> {
        entries_map(self.entries@)
    }

    pub fn new(capacity: usize) -> (r: Self)
        ensures
            r.wf(),
            r@ == Map::<CacheKey, LeafSearchResponse>::empty(),
            r.capacity == capacity,
    {
        LeafSearchCache { capacity, entries: Vec::new() }
    }

    fn position(&self, split: &SplitIdAndFooterOffsets, q: &SearchRequest) -> (r: Option<usize>)
        requires
            self.wf(),
        ensures
            r.is_none() ==> !self@.contains_key(cache_key(*split, *q)),
            r matches Some(i) ==> i < self.entries@.len() && entry_key(self.entries@[i as int]) == cache_key(*split, *q),
    {
        proof {
            lemma_index(self.entries@);
        }
        let mut i: usize = 0;
        while i < self.entries.len()
            invariant
                i <= self.entries@.len(),
                forall|k: int| 0 <= k < i ==> entry_key(#[trigger] self.entries@[k]) != cache_key(*split, *q),
            decreases self.entries@.len() - i,
        {
            if same_key(&self.entries[i], split, q) {
                return Some(i);
            }
            i = i + 1;
        }
        None
    }

    /// The cached response for `split` searched with `q`, if any; a hit makes it the most
    /// recently used.
    pub fn get(&mut self, split: &SplitIdAndFooterOffsets, q: &SearchRequest) -> (r: Option<LeafSearchResponse>)
        requires
            old(self).wf(),
        ensures
            final(self).wf(),
            final(self)@ == old(self)@,
            final(self).capacity == old(self).capacity,
            r.is_some() == old(self)@.contains_key(cache_key(*split, *q)),
            r matches Some(resp) ==> same_response(resp, old(self)@[cache_key(*split, *q)]),
    {
        match self.position(split, q) {
            None => None,
            Some(i) => {
                let ghost before = self.entries@;
                proof {
                    lemma_index(before);
                    lemma_remove(before, i as int);
                }
                let entry = self.entries.remove(i);
                let resp = clone_response(&entry.response);
                proof {
                    lemma_push(self.entries@, entry);
                    assert(entries_map(self.entries@.push(entry)) =~= entries_map(before));
                }
                self.entries.push(entry);
                Some(resp)
            },
        }
    }

    /// Caches the response of `split` searched with `q`, evicting the least recently used
    /// response when full; a cache of capacity 0 keeps nothing.
    pub fn put(&mut self, split: &SplitIdAndFooterOffsets, q: &SearchRequest, response: LeafSearchResponse)
        requires
            old(self).wf(),
        ensures
            final(self).wf(),
            final(self).capacity == old(self).capacity,
            old(self).capacity > 0 ==> final(self)@.contains_key(cache_key(*split, *q)) && final(self)@[cache_key(*split, *q)]
                == response,
            old(self).capacity == 0 ==> final(self)@ == old(self)@,
            forall|k: CacheKey|
                k != cache_key(*split, *q) && #[trigger] final(self)@.contains_key(k) ==> old(self)@.contains_key(k)
                    && final(self)@[k] == old(self)@[k],
    {
        if self.capacity == 0 {
            return;
        }
        let ghost original = self@;
        match self.position(split, q) {
            Some(i) => {
                proof {
                    lemma_remove(self.entries@, i as int);
                    lemma_index(self.entries@);
                }
                self.entries.remove(i);
            },
            None => {},
        }
        if self.entries.len() >= self.capacity {
            proof {
                lemma_remove(self.entries@, 0);
                lemma_index(self.entries@);
            }
            self.entries.remove(0);
        }
        let entry = CacheEntry { split: clone_split(split), request: clone_request(q), response };
        proof {
            assert(sort_key(entry.request.sort_fields@) =~= sort_key(q.sort_fields@));
            assert(entry_key(entry) == cache_key(*split, *q));
            lemma_push(self.entries@, entry);
        }
        self.entries.push(entry);
    }
}

/// What the search of one split needs next: nothing, the cached response answers it; or the
/// search itself, with the request rewritten for the split.
pub enum SplitSearchStep {
    Cached(LeafSearchResponse),
    Search(SearchRequest),
}

/// Rewrites `request` for `split` and looks the result up in the cache.
pub fn leaf_search_single_split_step(cache: &mut LeafSearchCache, split: &SplitIdAndFooterOffsets, request: &SearchRequest) -> (r: SplitSearchStep)
    requires
        old(cache).wf(),
    ensures
        final(cache).wf(),
        final(cache)@ == old(cache)@,
        final(cache).capacity == old(cache).capacity,
        old(cache)@.contains_key(rewritten_key(*split, *request)) ==> (r matches SplitSearchStep::Cached(resp) && same_response(
            resp,
            old(cache)@[rewritten_key(*split, *request)],
        )),
        !old(cache)@.contains_key(rewritten_key(*split, *request)) ==> (r matches SplitSearchStep::Search(q)
            && cache_key(*split, q) == rewritten_key(*split, *request)),
{
    let mut q = clone_request(request);
    rewrite_request(&mut q, split);
    proof {
        if request.max_hits == 0 {
            assert(sort_key(q.sort_fields@) =~= Seq::<(Seq<char>, SortOrder)>::empty());
        }
        assert(cache_key(*split, q) =~= rewritten_key(*split, *request));
    }
    match cache.get(split, &q) {
        Some(resp) => SplitSearchStep::Cached(resp),
        None => SplitSearchStep::Search(q),
    }
}

/// Caches the response of `split` searched with the rewritten request `q`.
pub fn record_split_response(cache: &mut LeafSearchCache, split: &SplitIdAndFooterOffsets, q: &SearchRequest, response: LeafSearchResponse)
    requires
        old(cache).wf(),
    ensures
        final(cache).wf(),
        final(cache).capacity == old(cache).capacity,
        old(cache).capacity > 0 ==> final(cache)@.contains_key(cache_key(*split, *q)) && final(cache)@[cache_key(*split, *q)]
            == response,
        forall|k: CacheKey|
            k != cache_key(*split, *q) && #[trigger] final(cache)@.contains_key(k) ==> old(cache)@.contains_key(k)
                && final(cache)@[k] == old(cache)@[k],
{
    cache.put(split, q, response);
}

} // verus!
