//! Which splits can still improve a top-K result, the order to search them in, and the
//! per-split rewriting of a request.
use vstd::multiset::Multiset;
use vstd::prelude::*;

use crate::collector::hit_better;
use crate::order::{lex_lt, lemma_lex_transitive, str_bytes, str_lt};
use crate::request::{
    spec_timestamp_end, spec_timestamp_start, PartialHit, SearchRequest, SortOrder, SortValue,
    SplitIdAndFooterOffsets,
};

verus! {

pub const NANOS_PER_SEC: u64 = 1_000_000_000;

/// The start bound left once a split declaring `[split_start, split_end]` is known: dropped
/// when it starts at or before the split.
pub open spec fn rewritten_start(start: Option<i64>, split: SplitIdAndFooterOffsets) -> Option<i64> {
    match (split.timestamp_start, split.timestamp_end, start) {
        (Some(split_start), Some(_), Some(s)) => if s <= split_start {
            None
        } else {
            start
        },
        _ => start,
    }
}

/// The end bound left: an exclusive end is dropped when it lies past the split's last
/// timestamp.
pub open spec fn rewritten_end(end: Option<i64>, split: SplitIdAndFooterOffsets) -> Option<i64> {
    match (split.timestamp_start, split.timestamp_end, end) {
        (Some(_), Some(split_end), Some(e)) => if e > split_end {
            None
        } else {
            end
        },
        _ => end,
    }
}

/// Drops the time bounds that the split's own declared range makes redundant.
pub fn rewrite_start_end_time_bounds(
    start_timestamp_opt: &mut Option<i64>,
    end_timestamp_opt: &mut Option<i64>,
    split: &SplitIdAndFooterOffsets,
)
    ensures
        *final(start_timestamp_opt) == rewritten_start(*old(start_timestamp_opt), *split),
        *final(end_timestamp_opt) == rewritten_end(*old(end_timestamp_opt), *split),
{
    if let (Some(split_start), Some(split_end)) = (split.timestamp_start, split.timestamp_end) {
        if let Some(start_timestamp) = *start_timestamp_opt {
            if start_timestamp <= split_start {
                *start_timestamp_opt = None;
            }
        }
        if let Some(end_timestamp) = *end_timestamp_opt {
            if end_timestamp > split_end {
                *end_timestamp_opt = None;
            }
        }
    }
}

/// A request covers a split's whole declared range: both bounds go. A request whose bounds
/// both cut into the split's range keeps them both.
pub proof fn lemma_time_bounds_round_trip(start: i64, end: i64, split: SplitIdAndFooterOffsets)
    requires
        split.timestamp_start.is_some(),
        split.timestamp_end.is_some(),
    ensures
        start <= split.timestamp_start.unwrap() && end > split.timestamp_end.unwrap() ==> rewritten_start(Some(start), split).is_none()
            && rewritten_end(Some(end), split).is_none(),
        start > split.timestamp_start.unwrap() && end <= split.timestamp_end.unwrap() ==> rewritten_start(Some(start), split) == Some(start)
            && rewritten_end(Some(end), split) == Some(end),
        rewritten_start(None, split).is_none() && rewritten_end(None, split).is_none(),
{
}

/// Rewrites a request for one split: no sort when no hit is asked for, and no time bound
/// that the split's own range makes redundant.
pub fn rewrite_request(search_request: &mut SearchRequest, split: &SplitIdAndFooterOffsets)
    ensures
        final(search_request).max_hits == old(search_request).max_hits,
        final(search_request).start_offset == old(search_request).start_offset,
        final(search_request).count_all == old(search_request).count_all,
        final(search_request).has_aggregation == old(search_request).has_aggregation,
        old(search_request).max_hits == 0 ==> final(search_request).sort_fields@.len() == 0,
        old(search_request).max_hits != 0 ==> final(search_request).sort_fields@ == old(search_request).sort_fields@,
        final(search_request).start_timestamp == rewritten_start(old(search_request).start_timestamp, *split),
        final(search_request).end_timestamp == rewritten_end(old(search_request).end_timestamp, *split),
{
    if search_request.max_hits == 0 {
        search_request.sort_fields = Vec::new();
    }
    rewrite_start_end_time_bounds(&mut search_request.start_timestamp, &mut search_request.end_timestamp, split);
}

/// The smallest whole second at or after `ns` nanoseconds.
pub open spec fn ceil_secs(ns: i64) -> int {
    -((-(ns as int)) / (NANOS_PER_SEC as int))
}

/// `ns` nanoseconds in whole seconds, rounded toward zero.
pub open spec fn trunc_secs(ns: i64) -> int {
    if ns >= 0 {
        ns as int / (NANOS_PER_SEC as int)
    } else {
        -((-(ns as int)) / (NANOS_PER_SEC as int))
    }
}

fn nanos_to_secs(ns: i64, round_up: bool) -> (r: i64)
    ensures
        round_up ==> r == ceil_secs(ns),
        !round_up ==> r == trunc_secs(ns),
{
    if ns >= 0 {
        let m = ns as u64;
        let q = m / NANOS_PER_SEC;
        let rem = m % NANOS_PER_SEC;
        if round_up && rem > 0 {
            proof {
                assert(-((-(ns as int)) / (NANOS_PER_SEC as int)) == q + 1) by (nonlinear_arith)
                    requires
                        ns as int == m as int,
                        q == m / NANOS_PER_SEC,
                        rem == m % NANOS_PER_SEC,
                        rem > 0,
                        NANOS_PER_SEC == 1_000_000_000u64,
                ;
            }
            (q + 1) as i64
        } else {
            proof {
                if round_up {
                    assert(-((-(ns as int)) / (NANOS_PER_SEC as int)) == q) by (nonlinear_arith)
                        requires
                            ns as int == m as int,
                            q == m / NANOS_PER_SEC,
                            rem == m % NANOS_PER_SEC,
                            rem == 0,
                            NANOS_PER_SEC == 1_000_000_000u64,
                    ;
                }
            }
            q as i64
        }
    } else {
        let m: u64 = (0i128 - ns as i128) as u64;
        let q = m / NANOS_PER_SEC;
        proof {
            assert(q <= 9_300_000_000) by (nonlinear_arith)
                requires
                    q == m / NANOS_PER_SEC,
                    m <= 9_223_372_036_854_775_808u64,
                    NANOS_PER_SEC == 1_000_000_000u64,
            ;
        }
        0i64 - q as i64
    }
}

/// What a split must beat to improve the current top hits, and hence the order in which
/// splits are best searched.
#[derive(Clone, Debug)]
pub enum CanSplitDoBetter {
    Uninformative,
    SplitIdHigher(Option<String>),
    SplitTimestampHigher(Option<i64>),
    SplitTimestampLower(Option<i64>),
}

/// Under `s`, split `a` is searched before split `b`.
pub open spec fn split_before(s: CanSplitDoBetter, a: SplitIdAndFooterOffsets, b: SplitIdAndFooterOffsets) -> bool {
    match s {
        CanSplitDoBetter::Uninformative => false,
        CanSplitDoBetter::SplitIdHigher(_) => lex_lt(str_bytes(b.split_id), str_bytes(a.split_id)),
        CanSplitDoBetter::SplitTimestampHigher(_) => spec_timestamp_end(a) > spec_timestamp_end(b),
        CanSplitDoBetter::SplitTimestampLower(_) => spec_timestamp_start(a) < spec_timestamp_start(b),
    }
}

pub open spec fn sorted_for(s: CanSplitDoBetter, splits: Seq<SplitIdAndFooterOffsets>) -> bool {
    forall|i: int, j: int| 0 <= i < j < splits.len() ==> !split_before(s, #[trigger] splits[j], #[trigger] splits[i])
}

/// Whether `split` may still hold a hit better than the current worst one.
pub open spec fn spec_can_be_better(s: CanSplitDoBetter, split: SplitIdAndFooterOffsets) -> bool {
    match s {
        CanSplitDoBetter::SplitIdHigher(Some(id)) => lex_lt(str_bytes(id), str_bytes(split.split_id)),
        CanSplitDoBetter::SplitTimestampHigher(Some(t)) => spec_timestamp_end(split) > t,
        CanSplitDoBetter::SplitTimestampLower(Some(t)) => spec_timestamp_start(split) < t,
        _ => true,
    }
}

/// The strategy once `hit` is the worst hit kept: the bound is refreshed to that hit. A
/// timestamp bound needs a timestamp sort value; without one the bound stays as it was.
pub open spec fn after_worst_hit(s: CanSplitDoBetter, hit: PartialHit) -> CanSplitDoBetter {
    match s {
        CanSplitDoBetter::Uninformative => CanSplitDoBetter::Uninformative,
        CanSplitDoBetter::SplitIdHigher(_) => CanSplitDoBetter::SplitIdHigher(Some(hit.split_id)),
        CanSplitDoBetter::SplitTimestampHigher(t) => match hit.sort_value {
            Some(SortValue::I64(ns)) => CanSplitDoBetter::SplitTimestampHigher(Some(ceil_secs(ns) as i64)),
            _ => CanSplitDoBetter::SplitTimestampHigher(t),
        },
        CanSplitDoBetter::SplitTimestampLower(t) => match hit.sort_value {
            Some(SortValue::I64(ns)) => CanSplitDoBetter::SplitTimestampLower(Some(trunc_secs(ns) as i64)),
            _ => CanSplitDoBetter::SplitTimestampLower(t),
        },
    }
}

/// The hits carry sort values of the kind the strategy reads: none when splits are ordered by
/// id, a timestamp when they are ordered by time.
pub open spec fn hit_fits(s: CanSplitDoBetter, hit: PartialHit) -> bool {
    match s {
        CanSplitDoBetter::SplitIdHigher(_) => hit.sort_value.is_none(),
        CanSplitDoBetter::SplitTimestampHigher(_) => hit.sort_value matches Some(SortValue::I64(_)),
        CanSplitDoBetter::SplitTimestampLower(_) => hit.sort_value matches Some(SortValue::I64(_)),
        CanSplitDoBetter::Uninformative => true,
    }
}

/// The order of hits a strategy goes with: descending for the latest timestamps first,
/// ascending for the earliest.
pub open spec fn order_agrees(s: CanSplitDoBetter, order: SortOrder) -> bool {
    match s {
        CanSplitDoBetter::SplitTimestampHigher(_) => order == SortOrder::Desc,
        CanSplitDoBetter::SplitTimestampLower(_) => order == SortOrder::Asc,
        _ => true,
    }
}

proof fn lemma_ceil_secs_monotone(a: i64, b: i64)
    requires
        a <= b,
    ensures
        ceil_secs(a) <= ceil_secs(b),
        -9_300_000_000 <= ceil_secs(a) <= 9_300_000_000,
        -9_300_000_000 <= ceil_secs(b) <= 9_300_000_000,
{
    vstd::arithmetic::div_mod::lemma_div_is_ordered(-(b as int), -(a as int), NANOS_PER_SEC as int);
    assert(-9_300_000_000 <= ceil_secs(a) <= 9_300_000_000) by (nonlinear_arith)
        requires
            ceil_secs(a) == -((-(a as int)) / 1_000_000_000int),
            i64::MIN <= a <= i64::MAX,
    ;
    assert(-9_300_000_000 <= ceil_secs(b) <= 9_300_000_000) by (nonlinear_arith)
        requires
            ceil_secs(b) == -((-(b as int)) / 1_000_000_000int),
            i64::MIN <= b <= i64::MAX,
    ;
}

proof fn lemma_trunc_secs_monotone(a: i64, b: i64)
    requires
        a <= b,
    ensures
        trunc_secs(a) <= trunc_secs(b),
        -9_300_000_000 <= trunc_secs(a) <= 9_300_000_000,
        -9_300_000_000 <= trunc_secs(b) <= 9_300_000_000,
{
    let d = NANOS_PER_SEC as int;
    if a >= 0 {
        vstd::arithmetic::div_mod::lemma_div_is_ordered(a as int, b as int, d);
    } else if b < 0 {
        vstd::arithmetic::div_mod::lemma_div_is_ordered(-(b as int), -(a as int), d);
    } else {
        vstd::arithmetic::div_mod::lemma_div_is_ordered(0, b as int, d);
        vstd::arithmetic::div_mod::lemma_div_is_ordered(0, -(a as int), d);
    }
    assert(-9_300_000_000 <= trunc_secs(a) <= 9_300_000_000) by (nonlinear_arith)
        requires
            a >= 0 ==> trunc_secs(a) == (a as int) / 1_000_000_000int,
            a < 0 ==> trunc_secs(a) == -((-(a as int)) / 1_000_000_000int),
            i64::MIN <= a <= i64::MAX,
    ;
    assert(-9_300_000_000 <= trunc_secs(b) <= 9_300_000_000) by (nonlinear_arith)
        requires
            b >= 0 ==> trunc_secs(b) == (b as int) / 1_000_000_000int,
            b < 0 ==> trunc_secs(b) == -((-(b as int)) / 1_000_000_000int),
            i64::MIN <= b <= i64::MAX,
    ;
}

/// When the worst kept hit is replaced by one that is no worse, the refreshed bound rules out
/// every split the earlier bound ruled out: pruning never loosens as splits complete.
pub proof fn lemma_bound_never_loosens(
    s: CanSplitDoBetter,
    old_worst: PartialHit,
    new_worst: PartialHit,
    order: SortOrder,
    split: SplitIdAndFooterOffsets,
)
    requires
        hit_fits(s, old_worst),
        hit_fits(s, new_worst),
        order_agrees(s, order),
        !hit_better(old_worst, new_worst, order),
        spec_can_be_better(after_worst_hit(s, new_worst), split),
    ensures
        spec_can_be_better(after_worst_hit(s, old_worst), split),
{
    match s {
        CanSplitDoBetter::SplitIdHigher(_) => {
            let (o, n, y) = (str_bytes(old_worst.split_id), str_bytes(new_worst.split_id), str_bytes(split.split_id));
            if o != n {
                crate::order::lemma_lex_total(o, n);
                if lex_lt(o, n) {
                    lemma_lex_transitive(o, n, y);
                }
            }
        },
        CanSplitDoBetter::SplitTimestampHigher(_) => {
            if let (Some(SortValue::I64(a)), Some(SortValue::I64(b))) = (old_worst.sort_value, new_worst.sort_value) {
                lemma_ceil_secs_monotone(a, b);
            }
        },
        CanSplitDoBetter::SplitTimestampLower(_) => {
            if let (Some(SortValue::I64(a)), Some(SortValue::I64(b))) = (old_worst.sort_value, new_worst.sort_value) {
                lemma_trunc_secs_monotone(b, a);
            }
        },
        _ => {},
    }
}

/// The strategy that a request's sort calls for, with no bound yet.
pub open spec fn strategy_for(request: SearchRequest, timestamp_field_name: Option<String>) -> CanSplitDoBetter {
    if request.sort_fields@.len() == 0 {
        CanSplitDoBetter::SplitIdHigher(None)
    } else if timestamp_field_name.is_some() && request.sort_fields@[0].field_name@ == timestamp_field_name.unwrap()@ {
        if request.sort_fields@[0].sort_order == SortOrder::Desc {
            CanSplitDoBetter::SplitTimestampHigher(None)
        } else {
            CanSplitDoBetter::SplitTimestampLower(None)
        }
    } else {
        CanSplitDoBetter::Uninformative
    }
}

pub proof fn lemma_split_before_transitive(
    s: CanSplitDoBetter,
    a: SplitIdAndFooterOffsets,
    b: SplitIdAndFooterOffsets,
    c: SplitIdAndFooterOffsets,
)
    requires
        split_before(s, a, b),
        split_before(s, b, c),
    ensures
        split_before(s, a, c),
{
    match s {
        CanSplitDoBetter::SplitIdHigher(_) => {
            lemma_lex_transitive(str_bytes(c.split_id), str_bytes(b.split_id), str_bytes(a.split_id));
        },
        _ => {},
    }
}

pub proof fn lemma_split_before_irreflexive(s: CanSplitDoBetter, a: SplitIdAndFooterOffsets)
    ensures
        !split_before(s, a, a),
{
    crate::order::lemma_lex_irreflexive(str_bytes(a.split_id));
}

impl CanSplitDoBetter {
    pub fn from_request(request: &SearchRequest, timestamp_field_name: &Option<String>) -> (r: Self)
        ensures
            r == strategy_for(*request, *timestamp_field_name),
    {
        if request.sort_fields.len() == 0 {
            CanSplitDoBetter::SplitIdHigher(None)
        } else {
            match timestamp_field_name {
                Some(timestamp_field) => {
                    let sort_by = &request.sort_fields[0];
                    if sort_by.field_name == *timestamp_field {
                        if sort_by.sort_order == SortOrder::Desc {
                            CanSplitDoBetter::SplitTimestampHigher(None)
                        } else {
                            CanSplitDoBetter::SplitTimestampLower(None)
                        }
                    } else {
                        CanSplitDoBetter::Uninformative
                    }
                },
                None => CanSplitDoBetter::Uninformative,
            }
        }
    }

    /// Whether split `a` is searched before split `b`.
    pub fn goes_before(&self, a: &SplitIdAndFooterOffsets, b: &SplitIdAndFooterOffsets) -> (r: bool)
        ensures
            r == split_before(*self, *a, *b),
    {
        match self {
            CanSplitDoBetter::Uninformative => false,
            CanSplitDoBetter::SplitIdHigher(_) => str_lt(&b.split_id, &a.split_id),
            CanSplitDoBetter::SplitTimestampHigher(_) => a.timestamp_end() > b.timestamp_end(),
            CanSplitDoBetter::SplitTimestampLower(_) => a.timestamp_start() < b.timestamp_start(),
        }
    }

    /// Index of a split of `splits` that no other split goes before.
    fn first_index(&self, splits: &Vec<SplitIdAndFooterOffsets>) -> (r: usize)
        requires
            splits@.len() > 0,
        ensures
            r < splits@.len(),
            forall|k: int| 0 <= k < splits@.len() ==> !split_before(*self, #[trigger] splits@[k], splits@[r as int]),
    {
        let mut best: usize = 0;
        let mut i: usize = 1;
        proof {
            lemma_split_before_irreflexive(*self, splits@[0]);
        }
        while i < splits.len()
            invariant
                1 <= i <= splits@.len(),
                best < i,
                forall|k: int| 0 <= k < i ==> !split_before(*self, #[trigger] splits@[k], splits@[best as int]),
            decreases splits@.len() - i,
        {
            if self.goes_before(&splits[i], &splits[best]) {
                proof {
                    assert forall|k: int| 0 <= k < i implies !split_before(*self, #[trigger] splits@[k], splits@[i as int]) by {
                        if split_before(*self, splits@[k], splits@[i as int]) {
                            lemma_split_before_transitive(*self, splits@[k], splits@[i as int], splits@[best as int]);
                        }
                    }
                    lemma_split_before_irreflexive(*self, splits@[i as int]);
                }
                best = i;
            }
            i = i + 1;
        }
        best
    }

    /// Reorders `splits` so that those most likely to improve the result come first; keeps
    /// the order as it is when the sort gives no hint.
    pub fn optimize_split_order(&self, splits: &mut Vec<SplitIdAndFooterOffsets>)
        ensures
            final(splits)@.to_multiset() == old(splits)@.to_multiset(),
            sorted_for(*self, final(splits)@),
            (*self matches CanSplitDoBetter::Uninformative) ==> final(splits)@ == old(splits)@,
    {
        if let CanSplitDoBetter::Uninformative = self {
            return;
        }
        let mut rest: Vec<SplitIdAndFooterOffsets> = Vec::new();
        std::mem::swap(splits, &mut rest);
        let ghost orig = rest@;
        let mut out: Vec<SplitIdAndFooterOffsets> = Vec::new();
        proof {
            out@.to_multiset_ensures();
            assert forall|a: SplitIdAndFooterOffsets| out@.to_multiset().count(a) == 0 by {
                assert(!out@.contains(a));
            }
            assert(out@.to_multiset() =~= Multiset::empty());
        }
        while rest.len() > 0
            invariant
                out@.to_multiset().add(rest@.to_multiset()) == orig.to_multiset(),
                sorted_for(*self, out@),
                forall|i: int, j: int|
                    0 <= i < out@.len() && 0 <= j < rest@.len() ==> !split_before(*self, #[trigger] rest@[j], #[trigger] out@[i]),
            decreases rest@.len(),
        {
            let b = self.first_index(&rest);
            let ghost rest_before = rest@;
            let ghost out_before = out@;
            let x = rest.remove(b);
            out.push(x);
            proof {
                rest_before.to_multiset_ensures();
                out_before.to_multiset_ensures();
                assert(rest@ == rest_before.remove(b as int));
                assert(rest_before.remove(b as int).to_multiset() =~= rest_before.to_multiset().remove(rest_before[b as int]));
                assert(out@ == out_before.push(x));
                assert(out_before.push(x).to_multiset() =~= out_before.to_multiset().insert(x));
                assert(rest_before.to_multiset().count(x) > 0) by {
                    assert(rest_before.contains(x)) by {
                        assert(rest_before[b as int] == x);
                    }
                }
                assert(out@.to_multiset().add(rest@.to_multiset()) =~= orig.to_multiset());
                assert forall|i: int, j: int|
                    0 <= i < out@.len() && 0 <= j < rest@.len() implies !split_before(*self, #[trigger] rest@[j], #[trigger] out@[i]) by {
                    let jj = if j < b { j } else { j + 1 };
                    assert(rest@[j] == rest_before[jj]);
                    if i < out_before.len() {
                        assert(out@[i] == out_before[i]);
                    }
                }
                assert forall|i: int, j: int| 0 <= i < j < out@.len() implies !split_before(*self, #[trigger] out@[j], #[trigger] out@[i]) by {
                    if j == out@.len() - 1 {
                        assert(out@[i] == out_before[i]);
                        assert(out@[j] == rest_before[b as int]);
                    } else {
                        assert(out@[i] == out_before[i]);
                        assert(out@[j] == out_before[j]);
                    }
                }
            }
        }
        proof {
            rest@.to_multiset_ensures();
            assert forall|a: SplitIdAndFooterOffsets| rest@.to_multiset().count(a) == 0 by {
                assert(!rest@.contains(a));
            }
            assert(rest@.to_multiset() =~= Multiset::empty());
            assert(out@.to_multiset() =~= orig.to_multiset());
        }
        *splits = out;
    }

    /// Whether `split` may still hold a hit better than the current worst one.
    pub fn can_be_better(&self, split: &SplitIdAndFooterOffsets) -> (r: bool)
        ensures
            r == spec_can_be_better(*self, *split),
    {
        match self {
            CanSplitDoBetter::SplitIdHigher(Some(split_id)) => str_lt(split_id, &split.split_id),
            CanSplitDoBetter::SplitTimestampHigher(Some(timestamp)) => split.timestamp_end() > *timestamp,
            CanSplitDoBetter::SplitTimestampLower(Some(timestamp)) => split.timestamp_start() < *timestamp,
            _ => true,
        }
    }

    /// Records `hit` as the worst hit kept so far: the bound becomes the one `hit` gives.
    pub fn record_new_worst_hit(&mut self, hit: &PartialHit)
        ensures
            *final(self) == after_worst_hit(*old(self), *hit),
    {
        match self {
            CanSplitDoBetter::Uninformative => {},
            CanSplitDoBetter::SplitIdHigher(split_id) => {
                *split_id = Some(hit.split_id.clone());
            },
            CanSplitDoBetter::SplitTimestampHigher(timestamp) => {
                if let Some(SortValue::I64(timestamp_ns)) = hit.sort_value {
                    *timestamp = Some(nanos_to_secs(timestamp_ns, true));
                }
            },
            CanSplitDoBetter::SplitTimestampLower(timestamp) => {
                if let Some(SortValue::I64(timestamp_ns)) = hit.sort_value {
                    *timestamp = Some(nanos_to_secs(timestamp_ns, false));
                }
            },
        }
    }
}

} // verus!
