//! Listing the terms of a field across the segments of a split and across splits: sorted
//! per-segment lists are merged into one sorted list without repeats, cut at `max_hits`.
use itertools::Itertools;
use vstd::prelude::*;

use crate::order::lex_lt;
use crate::request::SplitSearchError;

verus! {

pub open spec fn terms_view(v: Seq<Vec<u8>>) -> Seq<Seq<u8>> {
    v.map_values(|t: Vec<u8>| t@)
}

pub open spec fn lists_view(v: Seq<Vec<Vec<u8>>>) -> Seq<Seq<Seq<u8>>> {
    v.map_values(|l: Vec<Vec<u8>>| terms_view(l@))
}

/// Each term sorts at or after the one before it.
pub open spec fn ascending(s: Seq<Seq<u8>>) -> bool {
    forall|i: int, j: int| 0 <= i < j < s.len() ==> !lex_lt(#[trigger] s[j], #[trigger] s[i])
}

/// Each term sorts strictly after the one before it.
pub open spec fn strictly_ascending(s: Seq<Seq<u8>>) -> bool {
    forall|i: int, j: int| 0 <= i < j < s.len() ==> lex_lt(#[trigger] s[i], #[trigger] s[j])
}

/// `t` is a term of one of the lists.
pub open spec fn in_some_list(lists: Seq<Seq<Seq<u8>>>, t: Seq<u8>) -> bool {
    exists|i: int| 0 <= i < lists.len() && (#[trigger] lists[i]).contains(t)
}

/// Relies on itertools' `kmerge` and `dedup`: `kmerge` yields every element of the lists, in
/// ascending order when each list is ascending; `dedup` drops each element equal to the one
/// before it, so on ascending input nothing repeats.
#[verifier::external_body]
fn kmerge_dedup(lists: Vec<Vec<Vec<u8>>>) -> (r: Vec<Vec<u8>>)
    ensures
        forall|t: Seq<u8>| terms_view(r@).contains(t) <==> in_some_list(lists_view(lists@), t),
        (forall|i: int| 0 <= i < lists@.len() ==> ascending(#[trigger] lists_view(lists@)[i])) ==> strictly_ascending(
            terms_view(r@),
        ),
{
    lists.into_iter().kmerge().dedup().collect()
}

/// The first `limit` terms of `terms`, or all of them without a limit.
fn truncate_terms(terms: Vec<Vec<u8>>, limit: Option<u64>) -> (r: Vec<Vec<u8>>)
    ensures
        terms_view(r@) == match limit {
            Some(n) => if n < terms@.len() {
                terms_view(terms@).take(n as int)
            } else {
                terms_view(terms@)
            },
            None => terms_view(terms@),
        },
{
    let mut terms = terms;
    match limit {
        None => terms,
        Some(n) => {
            let ghost full = terms@;
            if n < terms.len() as u64 {
                terms.truncate(n as usize);
                proof {
                    assert(terms_view(terms@) =~= terms_view(full).take(n as int));
                }
            }
            terms
        },
    }
}

/// Merges sorted term lists into the smallest `max_hits` distinct terms, in order.
pub fn merge_terms(lists: Vec<Vec<Vec<u8>>>, max_hits: Option<u64>) -> (r: Vec<Vec<u8>>)
    ensures
        forall|t: Seq<u8>| terms_view(r@).contains(t) ==> in_some_list(lists_view(lists@), t),
        max_hits matches Some(n) ==> r@.len() <= n,
        (forall|i: int| 0 <= i < lists@.len() ==> ascending(#[trigger] lists_view(lists@)[i])) ==> {
            &&& strictly_ascending(terms_view(r@))
            &&& forall|t: Seq<u8>|
                in_some_list(lists_view(lists@), t) && !terms_view(r@).contains(t) ==> (max_hits.is_some()
                    && r@.len() == max_hits.unwrap() && forall|k: int|
                    0 <= k < r@.len() ==> lex_lt(#[trigger] terms_view(r@)[k], t))
        },
{
    let ghost lv = lists_view(lists@);
    let merged = kmerge_dedup(lists);
    let ghost m = terms_view(merged@);
    let r = truncate_terms(merged, max_hits);
    proof {
        let rv = terms_view(r@);
        assert forall|t: Seq<u8>| rv.contains(t) implies in_some_list(lv, t) by {
            let k = choose|k: int| 0 <= k < rv.len() && rv[k] == t;
            assert(m.contains(t)) by {
                assert(m[k] == t);
            }
        }
        if forall|i: int| 0 <= i < lv.len() ==> ascending(#[trigger] lv[i]) {
            assert(strictly_ascending(rv));
            assert forall|t: Seq<u8>| in_some_list(lv, t) && !rv.contains(t) implies (max_hits.is_some() && r@.len()
                == max_hits.unwrap() && forall|k: int| 0 <= k < r@.len() ==> lex_lt(#[trigger] rv[k], t)) by {
                assert(m.contains(t));
                let j = choose|j: int| 0 <= j < m.len() && m[j] == t;
                if j < rv.len() {
                    assert(rv[j] == t);
                }
                assert forall|k: int| 0 <= k < r@.len() implies lex_lt(#[trigger] rv[k], t) by {
                    assert(rv[k] == m[k]);
                }
            }
        }
    }
    r
}

/// The listing of a field's terms, for one split or merged over several.
#[derive(Clone, Debug)]
pub struct LeafListTermsResponse {
    pub num_hits: u64,
    pub terms: Vec<Vec<u8>>,
    pub num_attempted_splits: u64,
    pub failed_splits: Vec<SplitSearchError>,
}

/// The response for one split, from the term lists of its segments.
pub fn split_list_terms_response(segment_results: Vec<Vec<Vec<u8>>>, max_hits: Option<u64>) -> (r: LeafListTermsResponse)
    ensures
        r.num_hits == r.terms@.len(),
        r.num_attempted_splits == 1,
        r.failed_splits@.len() == 0,
        forall|t: Seq<u8>| terms_view(r.terms@).contains(t) ==> in_some_list(lists_view(segment_results@), t),
        max_hits matches Some(n) ==> r.terms@.len() <= n,
        (forall|i: int| 0 <= i < segment_results@.len() ==> ascending(#[trigger] lists_view(segment_results@)[i]))
            ==> strictly_ascending(terms_view(r.terms@)),
        (forall|i: int| 0 <= i < segment_results@.len() ==> ascending(#[trigger] lists_view(segment_results@)[i]))
            ==> forall|t: Seq<u8>|
            in_some_list(lists_view(segment_results@), t) && !terms_view(r.terms@).contains(t) ==> (max_hits.is_some()
                && r.terms@.len() == max_hits.unwrap() && forall|k: int|
                0 <= k < r.terms@.len() ==> lex_lt(#[trigger] terms_view(r.terms@)[k], t)),
{
    let terms = merge_terms(segment_results, max_hits);
    LeafListTermsResponse {
        num_hits: terms.len() as u64,
        terms,
        num_attempted_splits: 1,
        failed_splits: Vec::new(),
    }
}

/// Merges the responses of the splits that answered, and records each split that failed
/// (its id and error) as a retryable failure. Every split asked counts as attempted.
pub fn merge_leaf_list_terms(
    split_responses: Vec<LeafListTermsResponse>,
    errors: Vec<(String, String)>,
    num_splits: u64,
    max_hits: Option<u64>,
) -> (r: LeafListTermsResponse)
    ensures
        r.num_hits == r.terms@.len(),
        r.num_attempted_splits == num_splits,
        r.failed_splits@.len() == errors@.len(),
        forall|k: int|
            0 <= k < errors@.len() ==> (#[trigger] r.failed_splits@[k]).split_id == errors@[k].0
                && r.failed_splits@[k].error == errors@[k].1 && r.failed_splits@[k].retryable_error,
        max_hits matches Some(n) ==> r.terms@.len() <= n,
        forall|t: Seq<u8>|
            terms_view(r.terms@).contains(t) ==> exists|i: int|
                0 <= i < split_responses@.len() && terms_view(#[trigger] split_responses@[i].terms@).contains(t),
        (forall|i: int| 0 <= i < split_responses@.len() ==> ascending(terms_view(#[trigger] split_responses@[i].terms@)))
            ==> strictly_ascending(terms_view(r.terms@)),
        (forall|i: int| 0 <= i < split_responses@.len() ==> ascending(terms_view(#[trigger] split_responses@[i].terms@)))
            ==> forall|t: Seq<u8>|
            (exists|i: int| 0 <= i < split_responses@.len() && terms_view(#[trigger] split_responses@[i].terms@).contains(t))
                && !terms_view(r.terms@).contains(t) ==> (max_hits.is_some() && r.terms@.len() == max_hits.unwrap()
                && forall|k: int| 0 <= k < r.terms@.len() ==> lex_lt(#[trigger] terms_view(r.terms@)[k], t)),
{
    let ghost responses = split_responses@;
    let n = split_responses.len();
    let mut rest = split_responses;
    let mut lists: Vec<Vec<Vec<u8>>> = Vec::new();
    let mut k: usize = 0;
    while rest.len() > 0
        invariant
            k + rest@.len() == n,
            n == responses.len(),
            rest@ == responses.skip(k as int),
            lists@.len() == k,
            lists_view(lists@) == responses.take(k as int).map_values(|x: LeafListTermsResponse| terms_view(x.terms@)),
        decreases rest@.len(),
    {
        let ghost rest_before = rest@;
        let resp = rest.remove(0);
        let ghost before = lists@;
        proof {
            assert(resp == rest_before[0]);
            assert(rest_before[0] == responses[k as int]);
        }
        let ghost resp_terms = resp.terms@;
        lists.push(resp.terms);
        proof {
            assert(rest@ =~= responses.skip(k as int + 1));
            let target = responses.take(k as int + 1).map_values(|x: LeafListTermsResponse| terms_view(x.terms@));
            let prev = responses.take(k as int).map_values(|x: LeafListTermsResponse| terms_view(x.terms@));
            assert(lists@ == before.push(lists@[k as int]));
            assert forall|q: int| 0 <= q < lists@.len() implies #[trigger] lists_view(lists@)[q] == target[q] by {
                if q < k {
                    assert(lists_view(before)[q] == prev[q]);
                    assert(lists@[q] == before[q]);
                } else {
                    assert(lists@[q]@ == resp_terms);
                }
            }
            assert(lists_view(lists@) =~= responses.take(k as int + 1).map_values(
                |x: LeafListTermsResponse| terms_view(x.terms@),
            ));
        }
        k = k + 1;
    }
    proof {
        assert(responses.take(k as int) =~= responses);
    }
    let ghost lv = lists_view(lists@);
    let terms = merge_terms(lists, max_hits);
    proof {
        assert forall|t: Seq<u8>| terms_view(terms@).contains(t) implies exists|i: int|
            0 <= i < responses.len() && terms_view(#[trigger] responses[i].terms@).contains(t) by {
            let i = choose|i: int| 0 <= i < lv.len() && (#[trigger] lv[i]).contains(t);
            assert(lv[i] == terms_view(responses[i].terms@));
        }
        assert forall|t: Seq<u8>|
            (exists|i: int| 0 <= i < responses.len() && terms_view(#[trigger] responses[i].terms@).contains(t)) implies in_some_list(
            lv,
            t,
        ) by {
            let i = choose|i: int| 0 <= i < responses.len() && terms_view(#[trigger] responses[i].terms@).contains(t);
            assert(lv[i] == terms_view(responses[i].terms@));
        }
        if forall|i: int| 0 <= i < responses.len() ==> ascending(terms_view(#[trigger] responses[i].terms@)) {
            assert forall|i: int| 0 <= i < lv.len() implies ascending(#[trigger] lv[i]) by {
                assert(lv[i] == terms_view(responses[i].terms@));
            }
        }
    }
    let mut failed_splits: Vec<SplitSearchError> = Vec::new();
    let ghost errs = errors@;
    let mut errors = errors;
    let m = errors.len();
    let mut j: usize = 0;
    while errors.len() > 0
        invariant
            j + errors@.len() == m,
            m == errs.len(),
            errors@ == errs.skip(j as int),
            failed_splits@.len() == j,
            forall|q: int|
                0 <= q < j ==> (#[trigger] failed_splits@[q]).split_id == errs[q].0 && failed_splits@[q].error == errs[q].1
                    && failed_splits@[q].retryable_error,
        decreases errors@.len(),
    {
        let (split_id, error) = errors.remove(0);
        proof {
            assert(errs[j as int] == (split_id, error));
        }
        failed_splits.push(SplitSearchError { split_id, error, retryable_error: true });
        proof {
            assert(errors@ =~= errs.skip(j as int + 1));
        }
        j = j + 1;
    }
    LeafListTermsResponse { num_hits: terms.len() as u64, terms, num_attempted_splits: num_splits, failed_splits }
}

} // verus!
