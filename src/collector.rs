//! Folds per-split results into one response: the best hits seen so far, bounded by
//! `max_hits`, the total hit count, and the splits that failed.
use vstd::multiset::Multiset;
use vstd::prelude::*;

use crate::order::{lemma_lex_asymmetric, lemma_lex_irreflexive, lemma_lex_total, lemma_lex_transitive, lex_lt, str_bytes};
use crate::request::{LeafSearchResponse, PartialHit, SortOrder, SortValue, SplitSearchError};

verus! {

pub open spec fn value_key(v: SortValue) -> int {
    match v {
        SortValue::U64(u) => u as int,
        SortValue::I64(i) => i as int,
        SortValue::Boolean(b) => if b {
            1
        } else {
            0
        },
    }
}

/// Sort value `a` ranks strictly above `b`; a missing value ranks below any other.
pub open spec fn value_better(a: Option<SortValue>, b: Option<SortValue>, order: SortOrder) -> bool {
    match (a, b) {
        (Some(x), Some(y)) => if order == SortOrder::Desc {
            value_key(x) > value_key(y)
        } else {
            value_key(x) < value_key(y)
        },
        (Some(_), None) => true,
        _ => false,
    }
}

/// Among hits of equal rank, the one with the higher (split id, segment, doc id) comes first.
pub open spec fn addr_better(a: PartialHit, b: PartialHit) -> bool {
    lex_lt(str_bytes(b.split_id), str_bytes(a.split_id)) || (str_bytes(a.split_id) == str_bytes(b.split_id) && (
    a.segment_ord > b.segment_ord || (a.segment_ord == b.segment_ord && a.doc_id > b.doc_id)))
}

/// Hit `a` ranks strictly above hit `b` for the requested order.
pub open spec fn hit_better(a: PartialHit, b: PartialHit, order: SortOrder) -> bool {
    value_better(a.sort_value, b.sort_value, order) || (!value_better(b.sort_value, a.sort_value, order)
        && addr_better(a, b))
}

pub open spec fn hits_sorted(s: Seq<PartialHit>, order: SortOrder) -> bool {
    forall|i: int, j: int| 0 <= i < j < s.len() ==> !hit_better(#[trigger] s[j], #[trigger] s[i], order)
}

pub proof fn lemma_hit_irreflexive(a: PartialHit, order: SortOrder)
    ensures
        !hit_better(a, a, order),
{
    lemma_lex_irreflexive(str_bytes(a.split_id));
}

pub proof fn lemma_hit_transitive(a: PartialHit, b: PartialHit, c: PartialHit, order: SortOrder)
    requires
        hit_better(a, b, order),
        hit_better(b, c, order),
    ensures
        hit_better(a, c, order),
{
    let (x, y, z) = (str_bytes(a.split_id), str_bytes(b.split_id), str_bytes(c.split_id));
    if lex_lt(z, y) && lex_lt(y, x) {
        lemma_lex_transitive(z, y, x);
    }
    if lex_lt(y, x) {
        lemma_lex_asymmetric(y, x);
    }
    if lex_lt(z, y) {
        lemma_lex_asymmetric(z, y);
    }
    if lex_lt(z, x) {
        lemma_lex_asymmetric(z, x);
    }
}

/// If `a` ranks above `c`, then any `b` ranks below `a` or above `c`.
pub proof fn lemma_hit_connected(a: PartialHit, b: PartialHit, c: PartialHit, order: SortOrder)
    requires
        hit_better(a, c, order),
    ensures
        hit_better(a, b, order) || hit_better(b, c, order),
{
    let (x, y, z) = (str_bytes(a.split_id), str_bytes(b.split_id), str_bytes(c.split_id));
    if x != y {
        lemma_lex_total(x, y);
    }
    if y != z {
        lemma_lex_total(y, z);
    }
    if lex_lt(z, y) && lex_lt(y, x) {
        lemma_lex_transitive(z, y, x);
    }
    if lex_lt(y, x) && lex_lt(x, z) {
        lemma_lex_transitive(y, x, z);
    }
    if lex_lt(x, z) && lex_lt(z, y) {
        lemma_lex_transitive(x, z, y);
    }
    if lex_lt(x, y) && lex_lt(y, z) {
        lemma_lex_transitive(x, y, z);
    }
    if lex_lt(y, z) && lex_lt(z, x) {
        lemma_lex_transitive(y, z, x);
    }
    if lex_lt(z, x) && lex_lt(x, y) {
        lemma_lex_transitive(z, x, y);
    }
    if lex_lt(x, y) {
        lemma_lex_asymmetric(x, y);
    }
    if lex_lt(y, z) {
        lemma_lex_asymmetric(y, z);
    }
    if lex_lt(x, z) {
        lemma_lex_asymmetric(x, z);
    }
    if lex_lt(z, x) {
        lemma_lex_asymmetric(z, x);
    }
    if lex_lt(y, x) {
        lemma_lex_asymmetric(y, x);
    }
    if lex_lt(z, y) {
        lemma_lex_asymmetric(z, y);
    }
}

/// The running merge of per-split results.
pub struct IncrementalCollector {
    pub max_hits: u64,
    pub sort_order: SortOrder,
    /// The best hits seen so far, best first.
    pub top_hits: Vec<PartialHit>,
    pub num_hits: u64,
    pub failed_splits: Vec<SplitSearchError>,
    pub num_attempted_splits: u64,
    /// Every hit offered so far.
    pub seen: Ghost<Seq<PartialHit>>,
    /// The hits offered so far and not kept.
    pub dropped: Ghost<Seq<PartialHit>>,
}

impl IncrementalCollector {
    /// `top_hits` holds the best `min(max_hits, |seen|)` of the hits seen, in order: they are
    /// hits that were offered, and none of the others ranks above any of them.
    pub open spec fn wf(&self) -> bool {
        &&& self.top_hits@.len() <= self.max_hits
        &&& self.top_hits@.len() == if self.seen@.len() < self.max_hits {
            self.seen@.len()
        } else {
            self.max_hits as nat
        }
        &&& hits_sorted(self.top_hits@, self.sort_order)
        &&& self.seen@.to_multiset() == self.top_hits@.to_multiset().add(self.dropped@.to_multiset())
        &&& forall|i: int, j: int|
            0 <= i < self.dropped@.len() && 0 <= j < self.top_hits@.len() ==> !hit_better(
                #[trigger] self.dropped@[i],
                #[trigger] self.top_hits@[j],
                self.sort_order,
            )
    }

    pub open spec fn is_full(&self) -> bool {
        self.max_hits > 0 && self.top_hits@.len() == self.max_hits
    }

    /// Once `max_hits` hits are kept, the worst of them never gets worse: a split that could
    /// not beat it before cannot beat it after.
    pub open spec fn worst_not_worse(pre: Self, post: Self) -> bool {
        pre.is_full() ==> post.is_full() && !hit_better(pre.top_hits@.last(), post.top_hits@.last(), pre.sort_order)
    }

    pub fn new(max_hits: u64, sort_order: SortOrder) -> (r: Self)
        ensures
            r.wf(),
            r.max_hits == max_hits,
            r.sort_order == sort_order,
            r.seen@.len() == 0,
            r.top_hits@.len() == 0,
            r.num_hits == 0,
            r.failed_splits@.len() == 0,
            r.num_attempted_splits == 0,
    {
        let r = IncrementalCollector {
            max_hits,
            sort_order,
            top_hits: Vec::new(),
            num_hits: 0,
            failed_splits: Vec::new(),
            num_attempted_splits: 0,
            seen: Ghost(Seq::empty()),
            dropped: Ghost(Seq::empty()),
        };
        proof {
            lemma_empty_multiset(r.top_hits@);
            lemma_empty_multiset(r.seen@);
            lemma_empty_multiset(r.dropped@);
            assert(r.top_hits@.to_multiset().add(r.dropped@.to_multiset()) =~= Multiset::empty());
        }
        r
    }

    /// Where `hit` goes among the kept hits: before the first one it ranks above.
    fn insert_position(&self, hit: &PartialHit) -> (r: usize)
        ensures
            r <= self.top_hits@.len(),
            forall|k: int| 0 <= k < r ==> !hit_better(*hit, #[trigger] self.top_hits@[k], self.sort_order),
            r < self.top_hits@.len() ==> hit_better(*hit, self.top_hits@[r as int], self.sort_order),
    {
        let mut i: usize = 0;
        while i < self.top_hits.len()
            invariant
                i <= self.top_hits@.len(),
                forall|k: int| 0 <= k < i ==> !hit_better(*hit, #[trigger] self.top_hits@[k], self.sort_order),
            decreases self.top_hits@.len() - i,
        {
            if hit_better_exec(hit, &self.top_hits[i], self.sort_order) {
                return i;
            }
            i = i + 1;
        }
        i
    }

    /// Offers one hit: it is kept if it ranks among the best `max_hits` seen.
    pub fn add_hit(&mut self, hit: PartialHit)
        requires
            old(self).wf(),
        ensures
            final(self).wf(),
            final(self).seen@ == old(self).seen@.push(hit),
            Self::worst_not_worse(*old(self), *final(self)),
            final(self).max_hits == old(self).max_hits,
            final(self).sort_order == old(self).sort_order,
            final(self).num_hits == old(self).num_hits,
            final(self).failed_splits == old(self).failed_splits,
            final(self).num_attempted_splits == old(self).num_attempted_splits,
    {
        let ghost order = self.sort_order;
        let ghost top0 = self.top_hits@;
        let ghost dropped0 = self.dropped@;
        let ghost seen0 = self.seen@;
        proof {
            top0.to_multiset_ensures();
            dropped0.to_multiset_ensures();
            seen0.to_multiset_ensures();
        }
        let p = self.insert_position(&hit);
        let n = self.top_hits.len();
        self.seen = Ghost(seen0.push(hit));
        if p == n {
            if (n as u64) < self.max_hits {
                self.top_hits.push(hit);
                proof {
                    assert(seen0.push(hit).to_multiset() =~= seen0.to_multiset().insert(hit));
                    assert(self.top_hits@ == top0.push(hit));
                    assert(top0.push(hit).to_multiset() =~= top0.to_multiset().insert(hit));
                    assert(self.seen@.to_multiset() =~= self.top_hits@.to_multiset().add(self.dropped@.to_multiset()));
                    assert(dropped0.len() == 0);
                    assert forall|i: int, j: int| 0 <= i < j < self.top_hits@.len() implies !hit_better(
                        #[trigger] self.top_hits@[j],
                        #[trigger] self.top_hits@[i],
                        order,
                    ) by {
                        if j < n {
                            assert(self.top_hits@[j] == top0[j] && self.top_hits@[i] == top0[i]);
                        }
                    }
                }
            } else {
                proof {
                    lemma_hit_irreflexive(top0.last(), order);
                }
                self.dropped = Ghost(dropped0.push(hit));
                proof {
                    assert(seen0.push(hit).to_multiset() =~= seen0.to_multiset().insert(hit));
                    assert(dropped0.push(hit).to_multiset() =~= dropped0.to_multiset().insert(hit));
                    assert(self.seen@.to_multiset() =~= self.top_hits@.to_multiset().add(self.dropped@.to_multiset()));
                    assert forall|i: int, j: int|
                        0 <= i < self.dropped@.len() && 0 <= j < self.top_hits@.len() implies !hit_better(
                        #[trigger] self.dropped@[i],
                        #[trigger] self.top_hits@[j],
                        order,
                    ) by {
                        if i == dropped0.len() {
                        } else {
                            assert(self.dropped@[i] == dropped0[i]);
                        }
                    }
                }
            }
        } else {
            self.top_hits.insert(p, hit);
            let ghost top1 = self.top_hits@;
            proof {
                top0.insert_ensures(p as int, hit);
                assert(top1 == top0.insert(p as int, hit));
                assert(top1.remove(p as int) =~= top0);
                top1.to_multiset_ensures();
                assert(top1.to_multiset().count(hit) > 0) by {
                    assert(top1[p as int] == hit);
                    assert(top1.contains(hit));
                }
                assert(top1.to_multiset() =~= top0.to_multiset().insert(hit));
                assert(seen0.push(hit).to_multiset() =~= seen0.to_multiset().insert(hit));
                assert forall|i: int, j: int| 0 <= i < j < top1.len() implies !hit_better(#[trigger] top1[j], #[trigger] top1[i], order) by {
                    if j < p {
                        assert(top1[j] == top0[j] && top1[i] == top0[i]);
                    } else if j == p {
                        assert(top1[i] == top0[i]);
                    } else if i < p {
                        assert(top1[j] == top0[j - 1] && top1[i] == top0[i]);
                        assert(!hit_better(top0[j - 1], top0[i], order));
                    } else if i == p {
                        assert(top1[j] == top0[j - 1]);
                        lemma_hit_irreflexive(top0[p as int], order);
                        if j - 1 > p {
                            assert(!hit_better(top0[j - 1], top0[p as int], order));
                        }
                        if hit_better(top0[j - 1], hit, order) {
                            lemma_hit_transitive(top0[j - 1], hit, top0[p as int], order);
                        }
                    } else {
                        assert(top1[j] == top0[j - 1] && top1[i] == top0[i - 1]);
                        assert(!hit_better(top0[j - 1], top0[i - 1], order));
                    }
                }
                assert forall|i: int, j: int|
                    0 <= i < dropped0.len() && 0 <= j < top1.len() implies !hit_better(
                    #[trigger] dropped0[i],
                    #[trigger] top1[j],
                    order,
                ) by {
                    if j < p {
                        assert(top1[j] == top0[j]);
                    } else if j == p {
                        let last = top0[n - 1];
                        if hit_better(dropped0[i], hit, order) {
                            lemma_hit_connected(dropped0[i], top0[p as int], hit, order);
                            if p < n - 1 {
                                assert(!hit_better(top0[n - 1], top0[p as int], order));
                            }
                        }
                        if p < n - 1 && hit_better(dropped0[i], hit, order) {
                            lemma_hit_transitive(dropped0[i], hit, top0[p as int], order);
                        }
                    } else {
                        assert(top1[j] == top0[j - 1]);
                    }
                }
            }
            if self.top_hits.len() as u64 > self.max_hits {
                let r = self.top_hits.pop().unwrap();
                self.dropped = Ghost(dropped0.push(r));
                proof {
                    let top2 = self.top_hits@;
                    assert(top1 =~= top2.push(r));
                    top2.to_multiset_ensures();
                    assert(top2.push(r).to_multiset() =~= top2.to_multiset().insert(r));
                    assert(dropped0.push(r).to_multiset() =~= dropped0.to_multiset().insert(r));
                    assert(self.seen@.to_multiset() =~= self.top_hits@.to_multiset().add(self.dropped@.to_multiset()));
                    assert forall|i: int, j: int|
                        0 <= i < self.dropped@.len() && 0 <= j < top2.len() implies !hit_better(
                        #[trigger] self.dropped@[i],
                        #[trigger] top2[j],
                        order,
                    ) by {
                        assert(top2[j] == top1[j]);
                        if i == dropped0.len() {
                            assert(self.dropped@[i] == top1[top1.len() - 1]);
                        } else {
                            assert(self.dropped@[i] == dropped0[i]);
                        }
                    }
                    assert forall|i: int, j: int| 0 <= i < j < top2.len() implies !hit_better(#[trigger] top2[j], #[trigger] top2[i], order) by {
                        assert(top2[j] == top1[j] && top2[i] == top1[i]);
                    }
                    if n as int == self.max_hits && n > 0 {
                        assert(top2.last() == top1[n - 1]);
                        if p == n - 1 {
                            assert(top1[n - 1] == hit);
                            lemma_hit_irreflexive(top0[n - 1], order);
                            if hit_better(top0[n - 1], hit, order) {
                                lemma_hit_transitive(top0[n - 1], hit, top0[n - 1], order);
                            }
                        } else {
                            assert(top1[n - 1] == top0[n - 2]);
                            assert(!hit_better(top0[n - 1], top0[n - 2], order));
                        }
                    }
                }
            } else {
                proof {
                    assert(self.seen@.to_multiset() =~= self.top_hits@.to_multiset().add(self.dropped@.to_multiset()));
                    assert(!(n as int == self.max_hits && n > 0));
                }
            }
        }
    }

    /// Folds in the response of one split: its hits, its count and its failures.
    pub fn add_split(&mut self, response: LeafSearchResponse)
        requires
            old(self).wf(),
        ensures
            final(self).wf(),
            final(self).seen@ == old(self).seen@ + response.partial_hits@,
            Self::worst_not_worse(*old(self), *final(self)),
            final(self).max_hits == old(self).max_hits,
            final(self).sort_order == old(self).sort_order,
            final(self).num_hits == crate::indexer::sat_add(old(self).num_hits, response.num_hits),
            final(self).failed_splits@ == old(self).failed_splits@ + response.failed_splits@,
            final(self).num_attempted_splits == crate::indexer::sat_add(
                old(self).num_attempted_splits,
                response.num_attempted_splits,
            ),
    {
        let LeafSearchResponse { num_hits, partial_hits, failed_splits, num_attempted_splits } = response;
        let ghost seen0 = self.seen@;
        let ghost hits0 = partial_hits@;
        let mut hits = partial_hits;
        let total = hits.len();
        let mut failed = failed_splits;
        self.failed_splits.append(&mut failed);
        self.num_hits = self.num_hits.saturating_add(num_hits);
        self.num_attempted_splits = self.num_attempted_splits.saturating_add(num_attempted_splits);
        let ghost fixed = *self;
        let ghost start = *old(self);
        let mut k: usize = 0;
        proof {
            if start.is_full() {
                lemma_hit_irreflexive(start.top_hits@.last(), start.sort_order);
            }
        }
        proof {
            assert(seen0 + hits0.take(0) =~= seen0);
            assert(hits0.skip(0) =~= hits0);
        }
        while hits.len() > 0
            invariant
                self.wf(),
                Self::worst_not_worse(start, *self),
                start.sort_order == self.sort_order,
                start.max_hits == self.max_hits,
                k <= hits0.len(),
                k + hits@.len() == hits0.len(),
                hits0.len() == total,
                hits@ == hits0.skip(k as int),
                self.seen@ == seen0 + hits0.take(k as int),
                self.max_hits == fixed.max_hits,
                self.sort_order == fixed.sort_order,
                self.num_hits == fixed.num_hits,
                self.failed_splits == fixed.failed_splits,
                self.num_attempted_splits == fixed.num_attempted_splits,
            decreases hits@.len(),
        {
            let hit = hits.remove(0);
            let ghost before = *self;
            self.add_hit(hit);
            proof {
                if start.is_full() && hit_better(start.top_hits@.last(), self.top_hits@.last(), start.sort_order) {
                    lemma_hit_connected(start.top_hits@.last(), before.top_hits@.last(), self.top_hits@.last(), start.sort_order);
                }
            }
            proof {
                assert(hits@ =~= hits0.skip(k as int + 1));
                assert(seen0 + hits0.take(k as int + 1) =~= (seen0 + hits0.take(k as int)).push(hit));
            }
            k = k + 1;
        }
        proof {
            assert(hits0.take(k as int) =~= hits0);
        }
    }

    /// Records a split that could not be searched; it counts as attempted.
    pub fn add_failed_split(&mut self, failed_split: SplitSearchError)
        requires
            old(self).wf(),
        ensures
            final(self).wf(),
            final(self).failed_splits@ == old(self).failed_splits@.push(failed_split),
            final(self).seen == old(self).seen,
            final(self).top_hits == old(self).top_hits,
            final(self).max_hits == old(self).max_hits,
            final(self).sort_order == old(self).sort_order,
            final(self).num_hits == old(self).num_hits,
            final(self).num_attempted_splits == crate::indexer::sat_add(old(self).num_attempted_splits, 1),
    {
        self.failed_splits.push(failed_split);
        self.num_attempted_splits = self.num_attempted_splits.saturating_add(1);
    }

    /// The worst hit kept, once `max_hits` hits are kept; before that no hit bounds the
    /// result.
    pub fn peek_worst_hit(&self) -> (r: Option<&PartialHit>)
        requires
            self.wf(),
        ensures
            r.is_some() == (self.max_hits > 0 && self.top_hits@.len() == self.max_hits),
            r.is_some() ==> *r.unwrap() == self.top_hits@.last(),
    {
        if self.max_hits > 0 && self.top_hits.len() as u64 == self.max_hits {
            Some(&self.top_hits[self.top_hits.len() - 1])
        } else {
            None
        }
    }

    /// The merged response.
    pub fn finalize(self) -> (r: LeafSearchResponse)
        requires
            self.wf(),
        ensures
            r.partial_hits@ == self.top_hits@,
            r.num_hits == self.num_hits,
            r.failed_splits@ == self.failed_splits@,
            r.num_attempted_splits == self.num_attempted_splits,
    {
        LeafSearchResponse {
            num_hits: self.num_hits,
            partial_hits: self.top_hits,
            failed_splits: self.failed_splits,
            num_attempted_splits: self.num_attempted_splits,
        }
    }
}

/// Whether hit `a` ranks strictly above hit `b`.
pub fn hit_better_exec(a: &PartialHit, b: &PartialHit, order: SortOrder) -> (r: bool)
    ensures
        r == hit_better(*a, *b, order),
{
    let ab = value_better_exec(a.sort_value, b.sort_value, order);
    if ab {
        return true;
    }
    if value_better_exec(b.sort_value, a.sort_value, order) {
        return false;
    }
    if crate::order::str_lt(&b.split_id, &a.split_id) {
        return true;
    }
    if crate::order::str_lt(&a.split_id, &b.split_id) {
        return false;
    }
    proof {
        let (x, y) = (str_bytes(a.split_id), str_bytes(b.split_id));
        if x != y {
            lemma_lex_total(x, y);
        }
    }
    a.segment_ord > b.segment_ord || (a.segment_ord == b.segment_ord && a.doc_id > b.doc_id)
}

fn value_key_exec(v: SortValue) -> (r: i128)
    ensures
        r == value_key(v),
{
    match v {
        SortValue::U64(u) => u as i128,
        SortValue::I64(i) => i as i128,
        SortValue::Boolean(b) => if b {
            1
        } else {
            0
        },
    }
}

fn value_better_exec(a: Option<SortValue>, b: Option<SortValue>, order: SortOrder) -> (r: bool)
    ensures
        r == value_better(a, b, order),
{
    match (a, b) {
        (Some(x), Some(y)) => {
            let (kx, ky) = (value_key_exec(x), value_key_exec(y));
            match order {
                SortOrder::Desc => kx > ky,
                SortOrder::Asc => kx < ky,
            }
        },
        (Some(_), None) => true,
        _ => false,
    }
}

proof fn lemma_empty_multiset(s: Seq<PartialHit>)
    requires
        s.len() == 0,
    ensures
        s.to_multiset() =~= Multiset::empty(),
{
    s.to_multiset_ensures();
    assert forall|a: PartialHit| s.to_multiset().count(a) == 0 by {
        assert(!s.contains(a));
    }
}

} // verus!
