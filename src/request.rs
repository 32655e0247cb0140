//! The search-side values: splits to search, requests, hits and per-split responses.
use vstd::prelude::*;

verus! {

/// A split to search: its id, where its footer lies, and the time range it declares.
#[derive(Clone, Debug)]
pub struct SplitIdAndFooterOffsets {
    pub split_id: String,
    pub split_footer_start: u64,
    pub split_footer_end: u64,
    pub timestamp_start: Option<i64>,
    pub timestamp_end: Option<i64>,
}

pub open spec fn spec_timestamp_start(s: SplitIdAndFooterOffsets) -> i64 {
    match s.timestamp_start {
        Some(t) => t,
        None => i64::MIN,
    }
}

pub open spec fn spec_timestamp_end(s: SplitIdAndFooterOffsets) -> i64 {
    match s.timestamp_end {
        Some(t) => t,
        None => i64::MAX,
    }
}

impl SplitIdAndFooterOffsets {
    /// The first timestamp the split may hold; the smallest one if it declares none.
    pub fn timestamp_start(&self) -> (r: i64)
        ensures
            r == spec_timestamp_start(*self),
    {
        match self.timestamp_start {
            Some(t) => t,
            None => i64::MIN,
        }
    }

    /// The object that stores the split: its id followed by `.split`.
    pub fn split_file_name(&self) -> (r: String)
        ensures
            r@ == self.split_id@ + ".split"@,
    {
        let mut name = self.split_id.clone();
        name.append(".split");
        name
    }

    /// The bytes of the split's footer, as a start (inclusive) and an end (exclusive).
    pub fn footer_range(&self) -> (r: (u64, u64))
        ensures
            r == (self.split_footer_start, self.split_footer_end),
    {
        (self.split_footer_start, self.split_footer_end)
    }

    /// The last timestamp the split may hold; the largest one if it declares none.
    pub fn timestamp_end(&self) -> (r: i64)
        ensures
            r == spec_timestamp_end(*self),
    {
        match self.timestamp_end {
            Some(t) => t,
            None => i64::MAX,
        }
    }
}

#[derive(Clone, Copy, Debug, PartialEq, Eq, Structural)]
pub enum SortOrder {
    Asc,
    Desc,
}

#[derive(Clone, Debug)]
pub struct SortField {
    pub field_name: String,
    pub sort_order: SortOrder,
}

/// A leaf search request, as far as the leaf's decisions read it.
#[derive(Clone, Debug)]
pub struct SearchRequest {
    pub max_hits: u64,
    pub start_offset: u64,
    pub sort_fields: Vec<SortField>,
    pub start_timestamp: Option<i64>,
    pub end_timestamp: Option<i64>,
    /// The exact number of matching documents is asked for.
    pub count_all: bool,
    /// An aggregation is asked for.
    pub has_aggregation: bool,
}

#[derive(Clone, Copy, Debug, PartialEq, Eq, Structural)]
pub enum SortValue {
    U64(u64),
    I64(i64),
    Boolean(bool),
}

/// A candidate hit: the split, segment and document it points to, and its sort value.
#[derive(Clone, Debug)]
pub struct PartialHit {
    pub sort_value: Option<SortValue>,
    pub split_id: String,
    pub segment_ord: u32,
    pub doc_id: u32,
}

/// A split that could not be searched.
#[derive(Clone, Debug)]
pub struct SplitSearchError {
    pub split_id: String,
    pub error: String,
    pub retryable_error: bool,
}

/// The result of searching one split, or the merge of several.
#[derive(Clone, Debug)]
pub struct LeafSearchResponse {
    pub num_hits: u64,
    pub partial_hits: Vec<PartialHit>,
    pub failed_splits: Vec<SplitSearchError>,
    pub num_attempted_splits: u64,
}

} // verus!
