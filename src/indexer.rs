//! The indexer: routes document batches into split builders, keeps the pending checkpoint
//! delta, and decides when the current workbench is sealed and handed downstream.
//!
//! Everything that waits (timers, permits, the metastore, the downstream mailbox) is left to
//! the caller: each handler takes the event and returns what must be sent or scheduled.
use vstd::prelude::*;

use crate::checkpoint::{chains, compose, CheckpointDelta, DeltaMap, IncompatibleCheckpointDelta};

verus! {

/// Partition id of the split that receives the documents of every partition beyond the cap.
pub const OTHER_PARTITION_ID: u64 = 3264326757911759461u64;

/// Full capacity of one pipeline, in milli-cpus.
pub const PIPELINE_FULL_CAPACITY_MILLIS: u32 = 4000;

/// Why a workbench was sealed.
#[derive(Clone, Copy, Debug, PartialEq, Eq, Structural)]
pub enum CommitTrigger {
    Drained,
    ForceCommit,
    MemoryLimit,
    NoMoreDocs,
    NumDocsLimit,
    Timeout,
}

/// How the indexer stopped.
#[derive(Clone, Copy, Debug, PartialEq, Eq, Structural)]
pub enum ActorExitStatus {
    Success,
    Quit,
    DownstreamClosed,
    Killed,
    Failure,
    Panicked,
}

/// The capability under which splits may be published; once killed, the work done under it
/// must be dropped.
#[derive(Clone, Copy, Debug, PartialEq, Eq, Structural)]
pub struct PublishLock {
    pub lock_id: u64,
    pub alive: bool,
}

impl PublishLock {
    pub fn new(lock_id: u64) -> (r: Self)
        ensures
            r.lock_id == lock_id,
            r.alive,
    {
        PublishLock { lock_id, alive: true }
    }

    pub fn is_dead(&self) -> (r: bool)
        ensures
            r == !self.alive,
    {
        !self.alive
    }

    pub fn kill(&mut self)
        ensures
            final(self).lock_id == old(self).lock_id,
            !final(self).alive,
    {
        self.alive = false;
    }
}

/// One document, as the indexer sees it: where it goes and what it weighs.
#[derive(Clone, Copy, Debug, PartialEq, Eq, Structural)]
pub struct ProcessedDoc {
    pub timestamp_opt: Option<i64>,
    pub partition: u64,
    pub num_bytes: u64,
    /// Memory the split writer takes to hold this document.
    pub mem_usage: u64,
}

/// A batch of documents together with the checkpoint delta they account for.
#[derive(Clone, Debug)]
pub struct ProcessedDocBatch {
    pub docs: Vec<ProcessedDoc>,
    pub checkpoint_delta: CheckpointDelta,
    pub force_commit: bool,
}

#[derive(Clone, Copy, Debug, PartialEq, Eq, Structural)]
pub struct IndexingSettings {
    pub split_num_docs_target: u64,
    pub heap_size: u64,
    pub commit_timeout_micros: u64,
}

#[derive(Clone, Copy, Debug, PartialEq, Eq, Structural)]
pub struct PipelineMetrics {
    pub cpu_millis: u32,
    pub throughput_mb_per_sec: u16,
}

#[derive(Clone, Copy, Debug, PartialEq, Eq, Structural)]
pub struct IndexerCounters {
    pub num_splits_emitted: u64,
    pub num_split_batches_emitted: u64,
    pub num_docs_in_workbench: u64,
    pub pipeline_metrics_opt: Option<PipelineMetrics>,
}

/// The attributes of a split under construction.
#[derive(Clone, Debug)]
pub struct SplitAttrs {
    pub split_id: String,
    pub partition_id: u64,
    pub num_docs: u64,
    pub uncompressed_docs_size_in_bytes: u64,
    pub time_range: Option<(i64, i64)>,
    pub delete_opstamp: u64,
}

#[derive(Clone, Debug)]
pub struct IndexedSplitBuilder {
    pub split_attrs: SplitAttrs,
}

/// The splits of a sealed workbench, ready for serialization.
#[derive(Clone, Debug)]
pub struct IndexedSplitBatch {
    pub splits: Vec<IndexedSplitBuilder>,
    pub checkpoint_delta: CheckpointDelta,
    pub publish_lock: PublishLock,
    pub publish_token_opt: Option<String>,
    pub commit_trigger: CommitTrigger,
}

/// A checkpoint-only update, for a sealed workbench that holds no document.
#[derive(Clone, Debug)]
pub struct EmptySplit {
    pub checkpoint_delta: CheckpointDelta,
    pub publish_lock: PublishLock,
    pub publish_token_opt: Option<String>,
}

/// What a sealed workbench sends downstream.
#[derive(Clone, Debug)]
pub enum IndexerOutput {
    SplitBatch(IndexedSplitBatch),
    EmptySplit(EmptySplit),
}

#[derive(Clone, Debug)]
pub enum IndexerError {
    /// The batch's delta does not chain onto the workbench's pending delta.
    IncompatibleCheckpointDelta(IncompatibleCheckpointDelta),
}

/// What handling a batch asks of the caller.
#[derive(Clone, Debug)]
pub struct IndexBatchOutcome {
    /// A workbench was created: schedule a commit timeout for this workbench id.
    pub commit_timeout_workbench_id: Option<u64>,
    pub output: Option<IndexerOutput>,
}

/// What handling a drained mailbox asks of the caller.
#[derive(Clone, Debug)]
pub struct DrainedOutcome {
    pub output: Option<IndexerOutput>,
    /// Pause the indexer and resume it after this many microseconds.
    pub pause_micros: Option<u64>,
}

/// The documents held by the splits under construction, split ids set aside.
pub struct SplitStats {
    pub partition_id: u64,
    pub num_docs: nat,
    pub num_bytes: u64,
    pub time_range: Option<(i64, i64)>,
    pub delete_opstamp: u64,
}

pub struct WorkbenchDocs {
    pub splits: Seq<SplitStats>,
    pub other: Option<SplitStats>,
}

pub open spec fn sat_add(a: u64, b: u64) -> u64 {
    if a + b > u64::MAX {
        u64::MAX
    } else {
        (a + b) as u64
    }
}

pub open spec fn min_i64(a: i64, b: i64) -> i64 {
    if a <= b {
        a
    } else {
        b
    }
}

pub open spec fn max_i64(a: i64, b: i64) -> i64 {
    if a >= b {
        a
    } else {
        b
    }
}

/// The time range widened to cover `ts`.
pub open spec fn recorded(ts: i64, range: Option<(i64, i64)>) -> Option<(i64, i64)> {
    match range {
        Some((start, end)) => Some((min_i64(ts, start), max_i64(ts, end))),
        None => Some((ts, ts)),
    }
}

pub open spec fn stats_of(b: IndexedSplitBuilder) -> SplitStats {
    SplitStats {
        partition_id: b.split_attrs.partition_id,
        num_docs: b.split_attrs.num_docs as nat,
        num_bytes: b.split_attrs.uncompressed_docs_size_in_bytes,
        time_range: b.split_attrs.time_range,
        delete_opstamp: b.split_attrs.delete_opstamp,
    }
}

pub open spec fn stats_seq(s: Seq<IndexedSplitBuilder>) -> Seq<SplitStats> {
    s.map_values(|b: IndexedSplitBuilder| stats_of(b))
}

pub open spec fn fresh_stats(partition_id: u64, delete_opstamp: u64) -> SplitStats {
    SplitStats { partition_id, num_docs: 0, num_bytes: 0, time_range: None, delete_opstamp }
}

/// A split's attributes after it receives `doc`.
pub open spec fn add_doc(s: SplitStats, doc: ProcessedDoc) -> SplitStats {
    SplitStats {
        partition_id: s.partition_id,
        num_docs: s.num_docs + 1,
        num_bytes: sat_add(s.num_bytes, doc.num_bytes),
        time_range: match doc.timestamp_opt {
            Some(ts) => recorded(ts, s.time_range),
            None => s.time_range,
        },
        delete_opstamp: s.delete_opstamp,
    }
}

pub open spec fn has_partition(s: Seq<SplitStats>, p: u64) -> bool {
    exists|i: int| 0 <= i < s.len() && (#[trigger] s[i]).partition_id == p
}

/// Routes one document: to the split of its partition, else to a new split while fewer than
/// `max` partitions have one, else to the shared overflow split.
pub open spec fn route_doc(w: WorkbenchDocs, doc: ProcessedDoc, max: nat, opstamp: u64) -> WorkbenchDocs {
    if has_partition(w.splits, doc.partition) {
        let i = choose|i: int| 0 <= i < w.splits.len() && (#[trigger] w.splits[i]).partition_id == doc.partition;
        WorkbenchDocs { splits: w.splits.update(i, add_doc(w.splits[i], doc)), other: w.other }
    } else if w.splits.len() < max {
        WorkbenchDocs {
            splits: w.splits.push(add_doc(fresh_stats(doc.partition, opstamp), doc)),
            other: w.other,
        }
    } else {
        let o = match w.other {
            Some(o) => o,
            None => fresh_stats(OTHER_PARTITION_ID, opstamp),
        };
        WorkbenchDocs { splits: w.splits, other: Some(add_doc(o, doc)) }
    }
}

pub open spec fn route_docs(w: WorkbenchDocs, docs: Seq<ProcessedDoc>, max: nat, opstamp: u64) -> WorkbenchDocs
    decreases docs.len(),
{
    if docs.len() == 0 {
        w
    } else {
        route_doc(route_docs(w, docs.drop_last(), max, opstamp), docs.last(), max, opstamp)
    }
}

pub open spec fn mem_after(m: u64, docs: Seq<ProcessedDoc>) -> u64
    decreases docs.len(),
{
    if docs.len() == 0 {
        m
    } else {
        sat_add(mem_after(m, docs.drop_last()), docs.last().mem_usage)
    }
}

pub open spec fn sum_docs(s: Seq<SplitStats>) -> nat
    decreases s.len(),
{
    if s.len() == 0 {
        0
    } else {
        sum_docs(s.drop_last()) + s.last().num_docs
    }
}

pub open spec fn total_docs(w: WorkbenchDocs) -> nat {
    sum_docs(w.splits) + match w.other {
        Some(o) => o.num_docs,
        None => 0,
    }
}

/// The splits a sealed workbench hands over: one per partition, then the overflow split.
pub open spec fn sealed(w: WorkbenchDocs) -> Seq<SplitStats> {
    match w.other {
        Some(o) => w.splits.push(o),
        None => w.splits,
    }
}

pub open spec fn empty_docs() -> WorkbenchDocs {
    WorkbenchDocs { splits: Seq::empty(), other: None }
}

/// The documents are laid out as routing lays them out: one split per partition, at most
/// `max` of them, and an overflow split only once all `max` are taken.
pub open spec fn docs_wf(w: WorkbenchDocs, max: nat) -> bool {
    &&& forall|i: int, j: int|
        0 <= i < w.splits.len() && 0 <= j < w.splits.len() && i != j ==> (#[trigger] w.splits[i]).partition_id
            != (#[trigger] w.splits[j]).partition_id
    &&& w.splits.len() <= max
    &&& w.other.is_some() ==> w.splits.len() == max && w.other.unwrap().partition_id == OTHER_PARTITION_ID
}

/// `out` is what sealing a workbench holding `w`, with pending delta `delta`, sends.
pub open spec fn sealed_as(
    out: Option<IndexerOutput>,
    w: WorkbenchDocs,
    delta: DeltaMap,
    lock: PublishLock,
    token: Option<String>,
    trigger: CommitTrigger,
) -> bool {
    if sealed(w).len() > 0 {
        out matches Some(IndexerOutput::SplitBatch(b)) && stats_seq(b.splits@) == sealed(w)
            && b.checkpoint_delta@ == delta && b.checkpoint_delta.wf() && b.commit_trigger == trigger
            && b.publish_lock == lock && b.publish_token_opt == token
    } else if delta != DeltaMap::empty() {
        out matches Some(IndexerOutput::EmptySplit(e)) && e.checkpoint_delta@ == delta
            && e.checkpoint_delta.wf() && e.publish_lock == lock && e.publish_token_opt == token
    } else {
        out.is_none()
    }
}

/// Number of documents that an output carries.
pub open spec fn output_docs(out: Option<IndexerOutput>) -> nat {
    match out {
        Some(IndexerOutput::SplitBatch(b)) => sum_docs(stats_seq(b.splits@)),
        _ => 0,
    }
}

/// The split builders a workbench hands over: one per partition, then the overflow builder.
pub open spec fn builders_of(wb: IndexingWorkbench) -> Seq<IndexedSplitBuilder> {
    match wb.other_indexed_split_opt {
        Some(o) => wb.indexed_splits@.push(o),
        None => wb.indexed_splits@,
    }
}

/// The documents in flight in a workbench.
pub struct IndexingWorkbench {
    pub workbench_id: u64,
    pub create_micros: u64,
    pub indexed_splits: Vec<IndexedSplitBuilder>,
    pub other_indexed_split_opt: Option<IndexedSplitBuilder>,
    pub checkpoint_delta: CheckpointDelta,
    pub publish_lock: PublishLock,
    pub publish_token_opt: Option<String>,
    pub last_delete_opstamp: u64,
    pub memory_usage: u64,
}

impl IndexingWorkbench {
    pub open spec fn docs(&self) -> WorkbenchDocs {
        WorkbenchDocs {
            splits: stats_seq(self.indexed_splits@),
            other: match self.other_indexed_split_opt {
                Some(o) => Some(stats_of(o)),
                None => None,
            },
        }
    }
}

/// Relies on `ulid::Ulid::new` and `Ulid::to_string`: a fresh id, 26 base-32 characters.
#[verifier::external_body]
fn new_split_id() -> (r: String)
    ensures
        r@.len() == 26,
{
    ulid::Ulid::new().to_string()
}

/// Widens `time_range` to cover `timestamp`.
pub fn record_timestamp(timestamp: i64, time_range: &mut Option<(i64, i64)>)
    ensures
        *final(time_range) == recorded(timestamp, *old(time_range)),
{
    let new_range = match *time_range {
        Some((start, end)) => {
            let lo = if timestamp <= start {
                timestamp
            } else {
                start
            };
            let hi = if timestamp >= end {
                timestamp
            } else {
                end
            };
            (lo, hi)
        },
        None => (timestamp, timestamp),
    };
    *time_range = Some(new_range);
}

pub struct Indexer {
    pub indexing_settings: IndexingSettings,
    pub max_num_partitions: u32,
    pub cooperative_indexing: bool,
    pub publish_lock: PublishLock,
    pub publish_token_opt: Option<String>,
    pub indexing_workbench_opt: Option<IndexingWorkbench>,
    pub counters: IndexerCounters,
    pub next_workbench_id: u64,
}

proof fn lemma_sum_docs_bound(s: Seq<SplitStats>, i: int)
    requires
        0 <= i < s.len(),
    ensures
        s[i].num_docs <= sum_docs(s),
    decreases s.len(),
{
    if i < s.len() - 1 {
        lemma_sum_docs_bound(s.drop_last(), i);
    }
}

proof fn lemma_sum_docs_update(s: Seq<SplitStats>, i: int, x: SplitStats)
    requires
        0 <= i < s.len(),
    ensures
        sum_docs(s.update(i, x)) == sum_docs(s) - s[i].num_docs + x.num_docs,
    decreases s.len(),
{
    let u = s.update(i, x);
    if i == s.len() - 1 {
        assert(u.drop_last() =~= s.drop_last());
    } else {
        assert(u.drop_last() =~= s.drop_last().update(i, x));
        lemma_sum_docs_update(s.drop_last(), i, x);
    }
}

proof fn lemma_sum_docs_push(s: Seq<SplitStats>, x: SplitStats)
    ensures
        sum_docs(s.push(x)) == sum_docs(s) + x.num_docs,
{
    assert(s.push(x).drop_last() =~= s);
}

/// Routing one document keeps the layout well formed and adds exactly one document.
proof fn lemma_route_doc(w: WorkbenchDocs, doc: ProcessedDoc, max: nat, opstamp: u64)
    requires
        docs_wf(w, max),
        max > 0,
    ensures
        docs_wf(route_doc(w, doc, max, opstamp), max),
        total_docs(route_doc(w, doc, max, opstamp)) == total_docs(w) + 1,
        forall|p: u64| has_partition(w.splits, p) ==> has_partition(route_doc(w, doc, max, opstamp).splits, p),
        route_doc(w, doc, max, opstamp).splits.len() >= w.splits.len(),
        w.other.is_some() ==> route_doc(w, doc, max, opstamp).other.is_some(),
        has_partition(route_doc(w, doc, max, opstamp).splits, doc.partition) || (
        route_doc(w, doc, max, opstamp).splits.len() == max && route_doc(w, doc, max, opstamp).other.is_some()),
{
    let r = route_doc(w, doc, max, opstamp);
    if has_partition(w.splits, doc.partition) {
        let i = choose|i: int| 0 <= i < w.splits.len() && (#[trigger] w.splits[i]).partition_id == doc.partition;
        lemma_sum_docs_update(w.splits, i, add_doc(w.splits[i], doc));
        assert forall|p: u64| has_partition(w.splits, p) implies has_partition(r.splits, p) by {
            let j = choose|j: int| 0 <= j < w.splits.len() && (#[trigger] w.splits[j]).partition_id == p;
            assert(r.splits[j].partition_id == p);
        }
        assert(r.splits[i].partition_id == doc.partition);
    } else if w.splits.len() < max {
        lemma_sum_docs_push(w.splits, add_doc(fresh_stats(doc.partition, opstamp), doc));
        assert forall|p: u64| has_partition(w.splits, p) implies has_partition(r.splits, p) by {
            let j = choose|j: int| 0 <= j < w.splits.len() && (#[trigger] w.splits[j]).partition_id == p;
            assert(r.splits[j].partition_id == p);
        }
        assert forall|i: int, j: int|
            0 <= i < r.splits.len() && 0 <= j < r.splits.len() && i != j implies (#[trigger] r.splits[i]).partition_id
                != (#[trigger] r.splits[j]).partition_id by {
            if i == w.splits.len() as int {
                assert(w.splits[j].partition_id != doc.partition);
            } else if j == w.splits.len() as int {
                assert(w.splits[i].partition_id != doc.partition);
            } else {
                assert(w.splits[i] == r.splits[i] && w.splits[j] == r.splits[j]);
            }
        }
        assert(r.splits[w.splits.len() as int].partition_id == doc.partition);
    } else {
    }
}

/// Routing a run of documents keeps the layout well formed, adds each document once, and
/// leaves every document's partition either with a split of its own or, once `max`
/// partitions have one, with the overflow split.
pub proof fn lemma_route_docs(w: WorkbenchDocs, docs: Seq<ProcessedDoc>, max: nat, opstamp: u64)
    requires
        docs_wf(w, max),
        max > 0,
    ensures
        docs_wf(route_docs(w, docs, max, opstamp), max),
        total_docs(route_docs(w, docs, max, opstamp)) == total_docs(w) + docs.len(),
        forall|k: int|
            0 <= k < docs.len() ==> has_partition(
                route_docs(w, docs, max, opstamp).splits,
                (#[trigger] docs[k]).partition,
            ) || (route_docs(w, docs, max, opstamp).splits.len() == max && route_docs(
                w,
                docs,
                max,
                opstamp,
            ).other.is_some()),
    decreases docs.len(),
{
    if docs.len() > 0 {
        let t = docs.drop_last();
        lemma_route_docs(w, t, max, opstamp);
        let m = route_docs(w, t, max, opstamp);
        lemma_route_doc(m, docs.last(), max, opstamp);
        assert forall|k: int| 0 <= k < docs.len() implies has_partition(
            route_docs(w, docs, max, opstamp).splits,
            (#[trigger] docs[k]).partition,
        ) || (route_docs(w, docs, max, opstamp).splits.len() == max && route_docs(
            w,
            docs,
            max,
            opstamp,
        ).other.is_some()) by {
            if k < t.len() {
                assert(t[k] == docs[k]);
            }
        }
    }
}

/// Every document routed past the first `max` partitions lands in the one overflow split:
/// after routing, the partitions with a split of their own are distinct and at most `max`,
/// a document's partition lacks a split only when all `max` are taken and the overflow
/// split, tagged `OTHER_PARTITION_ID`, exists; and no document is lost or counted twice.
pub proof fn lemma_partition_overflow(docs: Seq<ProcessedDoc>, max: nat, opstamp: u64)
    requires
        max > 0,
    ensures
        docs_wf(route_docs(empty_docs(), docs, max, opstamp), max),
        total_docs(route_docs(empty_docs(), docs, max, opstamp)) == docs.len(),
        forall|k: int|
            0 <= k < docs.len() && !has_partition(
                route_docs(empty_docs(), docs, max, opstamp).splits,
                (#[trigger] docs[k]).partition,
            ) ==> route_docs(empty_docs(), docs, max, opstamp).splits.len() == max && route_docs(
                empty_docs(),
                docs,
                max,
                opstamp,
            ).other.unwrap().partition_id == OTHER_PARTITION_ID,
{
    assert(sum_docs(Seq::<SplitStats>::empty()) == 0);
    lemma_route_docs(empty_docs(), docs, max, opstamp);
}

/// Records `doc` in split `b`: one more document, its bytes, and its timestamp.
fn add_doc_to_split(b: &mut IndexedSplitBuilder, doc: &ProcessedDoc)
    requires
        old(b).split_attrs.num_docs < u64::MAX,
    ensures
        stats_of(*final(b)) == add_doc(stats_of(*old(b)), *doc),
{
    b.split_attrs.num_docs = b.split_attrs.num_docs + 1;
    b.split_attrs.uncompressed_docs_size_in_bytes = b.split_attrs.uncompressed_docs_size_in_bytes.saturating_add(doc.num_bytes);
    match doc.timestamp_opt {
        Some(ts) => record_timestamp(ts, &mut b.split_attrs.time_range),
        None => {},
    }
}

fn new_split_builder(partition_id: u64, delete_opstamp: u64) -> (r: IndexedSplitBuilder)
    ensures
        stats_of(r) == fresh_stats(partition_id, delete_opstamp),
        r.split_attrs.split_id@.len() == 26,
{
    IndexedSplitBuilder {
        split_attrs: SplitAttrs {
            split_id: new_split_id(),
            partition_id,
            num_docs: 0,
            uncompressed_docs_size_in_bytes: 0,
            time_range: None,
            delete_opstamp,
        },
    }
}

impl IndexingWorkbench {
    /// Where the split of `partition_id` stands, if it has one.
    fn find_split(&self, partition_id: u64) -> (r: Option<usize>)
        ensures
            r.is_none() ==> forall|k: int|
                0 <= k < self.indexed_splits@.len() ==> (#[trigger] self.indexed_splits@[k]).split_attrs.partition_id
                    != partition_id,
            r.is_some() ==> r.unwrap() < self.indexed_splits@.len()
                && self.indexed_splits@[r.unwrap() as int].split_attrs.partition_id == partition_id,
    {
        let mut i: usize = 0;
        while i < self.indexed_splits.len()
            invariant
                i <= self.indexed_splits@.len(),
                forall|k: int| 0 <= k < i ==> (#[trigger] self.indexed_splits@[k]).split_attrs.partition_id != partition_id,
            decreases self.indexed_splits@.len() - i,
        {
            if self.indexed_splits[i].split_attrs.partition_id == partition_id {
                return Some(i);
            }
            i = i + 1;
        }
        None
    }

    /// Routes `doc` to its split, creating that split or the overflow split as needed.
    fn add_doc(&mut self, doc: &ProcessedDoc, max_num_partitions: u32)
        requires
            docs_wf(old(self).docs(), max_num_partitions as nat),
            max_num_partitions > 0,
            total_docs(old(self).docs()) < u64::MAX,
        ensures
            final(self).docs() == route_doc(old(self).docs(), *doc, max_num_partitions as nat, old(self).last_delete_opstamp),
            final(self).memory_usage == sat_add(old(self).memory_usage, doc.mem_usage),
            final(self).workbench_id == old(self).workbench_id,
            final(self).create_micros == old(self).create_micros,
            final(self).checkpoint_delta == old(self).checkpoint_delta,
            final(self).publish_lock == old(self).publish_lock,
            final(self).publish_token_opt == old(self).publish_token_opt,
            final(self).last_delete_opstamp == old(self).last_delete_opstamp,
    {
        let ghost w = self.docs();
        let n = self.indexed_splits.len();
        let found = self.find_split(doc.partition);
        proof {
            if found.is_none() {
                assert(!has_partition(w.splits, doc.partition)) by {
                    if has_partition(w.splits, doc.partition) {
                        let k = choose|k: int| 0 <= k < w.splits.len() && (#[trigger] w.splits[k]).partition_id == doc.partition;
                        assert(self.indexed_splits@[k].split_attrs.partition_id == doc.partition);
                    }
                }
            }
        }
        match found {
            Some(j) => {
                proof {
                    assert(w.splits[j as int].partition_id == doc.partition);
                    assert(has_partition(w.splits, doc.partition));
                    let c = choose|c: int| 0 <= c < w.splits.len() && (#[trigger] w.splits[c]).partition_id == doc.partition;
                    assert(c == j as int);
                    lemma_sum_docs_bound(w.splits, c);
                }
                let ghost before = self.indexed_splits@;
                add_doc_to_split(&mut self.indexed_splits[j], doc);
                proof {
                    assert(stats_seq(self.indexed_splits@) =~= w.splits.update(j as int, add_doc(w.splits[j as int], *doc)));
                }
            },
            None => {
                if n < max_num_partitions as usize {
                    let mut b = new_split_builder(doc.partition, self.last_delete_opstamp);
                    add_doc_to_split(&mut b, doc);
                    let ghost before = self.indexed_splits@;
                    self.indexed_splits.push(b);
                    proof {
                        assert(stats_seq(self.indexed_splits@) =~= w.splits.push(add_doc(fresh_stats(doc.partition, self.last_delete_opstamp), *doc)));
                    }
                } else {
                    let mut o = match self.other_indexed_split_opt.take() {
                        Some(o) => o,
                        None => new_split_builder(OTHER_PARTITION_ID, self.last_delete_opstamp),
                    };
                    add_doc_to_split(&mut o, doc);
                    self.other_indexed_split_opt = Some(o);
                }
            },
        }
        self.memory_usage = self.memory_usage.saturating_add(doc.mem_usage);
    }

    /// Routes every document of `docs`, in order.
    fn add_docs(&mut self, docs: &Vec<ProcessedDoc>, max_num_partitions: u32)
        requires
            docs_wf(old(self).docs(), max_num_partitions as nat),
            max_num_partitions > 0,
            total_docs(old(self).docs()) + docs@.len() <= u64::MAX,
        ensures
            final(self).docs() == route_docs(old(self).docs(), docs@, max_num_partitions as nat, old(self).last_delete_opstamp),
            docs_wf(final(self).docs(), max_num_partitions as nat),
            total_docs(final(self).docs()) == total_docs(old(self).docs()) + docs@.len(),
            final(self).memory_usage == mem_after(old(self).memory_usage, docs@),
            final(self).workbench_id == old(self).workbench_id,
            final(self).create_micros == old(self).create_micros,
            final(self).checkpoint_delta == old(self).checkpoint_delta,
            final(self).publish_lock == old(self).publish_lock,
            final(self).publish_token_opt == old(self).publish_token_opt,
            final(self).last_delete_opstamp == old(self).last_delete_opstamp,
    {
        let ghost w0 = self.docs();
        let ghost m0 = self.memory_usage;
        let ghost max = max_num_partitions as nat;
        let ghost opstamp = self.last_delete_opstamp;
        let ghost wb0 = *self;
        let mut k: usize = 0;
        proof {
            assert(docs@.take(0) =~= Seq::<ProcessedDoc>::empty());
        }
        while k < docs.len()
            invariant
                k <= docs@.len(),
                max > 0,
                max == max_num_partitions as nat,
                total_docs(w0) + docs@.len() <= u64::MAX,
                self.docs() == route_docs(w0, docs@.take(k as int), max, opstamp),
                docs_wf(self.docs(), max),
                total_docs(self.docs()) == total_docs(w0) + k,
                self.memory_usage == mem_after(m0, docs@.take(k as int)),
                self.workbench_id == wb0.workbench_id,
                self.create_micros == wb0.create_micros,
                self.checkpoint_delta == wb0.checkpoint_delta,
                self.publish_lock == wb0.publish_lock,
                self.publish_token_opt == wb0.publish_token_opt,
                self.last_delete_opstamp == opstamp,
            decreases docs@.len() - k,
        {
            let ghost before = self.docs();
            self.add_doc(&docs[k], max_num_partitions);
            proof {
                lemma_route_doc(before, docs@[k as int], max, opstamp);
                let t1 = docs@.take(k as int + 1);
                assert(t1.drop_last() =~= docs@.take(k as int));
                assert(t1.last() == docs@[k as int]);
            }
            k = k + 1;
        }
        proof {
            assert(docs@.take(docs@.len() as int) =~= docs@);
        }
    }
}

/// Which trigger, if any, fires once a batch is in: memory first, then document count, then an
/// explicit request.
pub open spec fn batch_trigger(memory: u64, num_docs: int, force_commit: bool, settings: IndexingSettings) -> Option<CommitTrigger> {
    if memory >= settings.heap_size {
        Some(CommitTrigger::MemoryLimit)
    } else if num_docs >= settings.split_num_docs_target {
        Some(CommitTrigger::NumDocsLimit)
    } else if force_commit {
        Some(CommitTrigger::ForceCommit)
    } else {
        None
    }
}

pub open spec fn clamp_cpu_millis(elapsed: u64, timeout: u64) -> u32 {
    if elapsed >= timeout {
        PIPELINE_FULL_CAPACITY_MILLIS
    } else {
        (PIPELINE_FULL_CAPACITY_MILLIS as int * elapsed as int / timeout as int) as u32
    }
}

pub open spec fn throughput(num_bytes: u64, elapsed_micros: u64) -> u16 {
    ((num_bytes as int / (1 + elapsed_micros as int)) % 65536) as u16
}

pub open spec fn sum_bytes(s: Seq<IndexedSplitBuilder>) -> u64
    decreases s.len(),
{
    if s.len() == 0 {
        0
    } else {
        sat_add(sum_bytes(s.drop_last()), s.last().split_attrs.uncompressed_docs_size_in_bytes)
    }
}

/// Bytes of documents held by `splits`, saturating.
fn total_uncompressed_bytes(splits: &Vec<IndexedSplitBuilder>) -> (r: u64)
    ensures
        r == sum_bytes(splits@),
{
    let mut total: u64 = 0;
    let mut i: usize = 0;
    while i < splits.len()
        invariant
            i <= splits@.len(),
            total == sum_bytes(splits@.take(i as int)),
        decreases splits@.len() - i,
    {
        proof {
            assert(splits@.take(i as int + 1).drop_last() =~= splits@.take(i as int));
        }
        total = total.saturating_add(splits[i].split_attrs.uncompressed_docs_size_in_bytes);
        i = i + 1;
    }
    proof {
        assert(splits@.take(splits@.len() as int) =~= splits@);
    }
    total
}

fn clone_token(t: &Option<String>) -> (r: Option<String>)
    ensures
        r == *t,
{
    match t {
        Some(s) => Some(s.clone()),
        None => None,
    }
}

impl Indexer {
    pub open spec fn wf(&self) -> bool {
        &&& self.max_num_partitions > 0
        &&& match self.indexing_workbench_opt {
            Some(wb) => {
                &&& docs_wf(wb.docs(), self.max_num_partitions as nat)
                &&& wb.checkpoint_delta.wf()
                &&& wb.publish_lock == self.publish_lock
                &&& total_docs(wb.docs()) == self.counters.num_docs_in_workbench
            },
            None => self.counters.num_docs_in_workbench == 0,
        }
    }

    /// The documents in the current workbench; none without one.
    pub open spec fn pending_docs(&self) -> WorkbenchDocs {
        match self.indexing_workbench_opt {
            Some(wb) => wb.docs(),
            None => empty_docs(),
        }
    }

    /// The checkpoint delta the current workbench accounts for.
    pub open spec fn pending_delta(&self) -> DeltaMap {
        match self.indexing_workbench_opt {
            Some(wb) => wb.checkpoint_delta@,
            None => DeltaMap::empty(),
        }
    }

    pub open spec fn pending_memory(&self) -> u64 {
        match self.indexing_workbench_opt {
            Some(wb) => wb.memory_usage,
            None => 0,
        }
    }

    /// The settings and identity that no handler changes.
    pub open spec fn same_config(&self, other: &Indexer) -> bool {
        &&& self.indexing_settings == other.indexing_settings
        &&& self.max_num_partitions == other.max_num_partitions
        &&& self.cooperative_indexing == other.cooperative_indexing
    }

    /// Counters after a workbench holding `w` is sealed.
    pub open spec fn sealed_counters(old_counters: IndexerCounters, w: WorkbenchDocs) -> IndexerCounters {
        if sealed(w).len() > 0 {
            IndexerCounters {
                num_splits_emitted: sat_add(old_counters.num_splits_emitted, sealed(w).len() as u64),
                num_split_batches_emitted: sat_add(old_counters.num_split_batches_emitted, 1),
                num_docs_in_workbench: 0,
                pipeline_metrics_opt: old_counters.pipeline_metrics_opt,
            }
        } else {
            old_counters
        }
    }

    /// `post` and `out` are what sealing the workbench of `pre` under `trigger` leaves and sends.
    pub open spec fn seals(pre: Indexer, post: Indexer, out: Option<IndexerOutput>, trigger: CommitTrigger) -> bool {
        match pre.indexing_workbench_opt {
            None => out.is_none() && post.counters == pre.counters,
            Some(wb) => sealed_as(out, wb.docs(), wb.checkpoint_delta@, wb.publish_lock, wb.publish_token_opt, trigger)
                && post.counters == Self::sealed_counters(pre.counters, wb.docs())
                && (out matches Some(IndexerOutput::SplitBatch(b)) ==> b.splits@ == builders_of(wb)),
        }
    }

    pub fn new(indexing_settings: IndexingSettings, max_num_partitions: u32, cooperative_indexing: bool) -> (r: Self)
        requires
            max_num_partitions > 0,
        ensures
            r.wf(),
            r.indexing_settings == indexing_settings,
            r.max_num_partitions == max_num_partitions,
            r.cooperative_indexing == cooperative_indexing,
            r.indexing_workbench_opt.is_none(),
            r.publish_lock == (PublishLock { lock_id: 0, alive: true }),
            r.publish_token_opt.is_none(),
            r.counters == (IndexerCounters {
                num_splits_emitted: 0,
                num_split_batches_emitted: 0,
                num_docs_in_workbench: 0,
                pipeline_metrics_opt: None,
            }),
    {
        Indexer {
            indexing_settings,
            max_num_partitions,
            cooperative_indexing,
            publish_lock: PublishLock::new(0),
            publish_token_opt: None,
            indexing_workbench_opt: None,
            counters: IndexerCounters {
                num_splits_emitted: 0,
                num_split_batches_emitted: 0,
                num_docs_in_workbench: 0,
                pipeline_metrics_opt: None,
            },
            next_workbench_id: 0,
        }
    }

    pub fn observable_state(&self) -> (r: IndexerCounters)
        ensures
            r == self.counters,
    {
        self.counters
    }

    pub fn has_workbench(&self) -> (r: bool)
        ensures
            r == self.indexing_workbench_opt.is_some(),
    {
        self.indexing_workbench_opt.is_some()
    }

    /// Memory held by the current workbench's writers.
    pub fn memory_usage(&self) -> (r: u64)
        ensures
            r == self.pending_memory(),
    {
        match &self.indexing_workbench_opt {
            Some(wb) => wb.memory_usage,
            None => 0,
        }
    }

    /// Takes the current workbench, if any, and returns what it sends downstream: its splits,
    /// or, when it holds none, its checkpoint delta alone if that delta is not empty.
    pub fn send_to_serializer(&mut self, commit_trigger: CommitTrigger) -> (r: Option<IndexerOutput>)
        requires
            old(self).wf(),
        ensures
            final(self).wf(),
            final(self).same_config(old(self)),
            final(self).publish_lock == old(self).publish_lock,
            final(self).publish_token_opt == old(self).publish_token_opt,
            final(self).next_workbench_id == old(self).next_workbench_id,
            final(self).indexing_workbench_opt.is_none(),
            output_docs(r) == old(self).counters.num_docs_in_workbench,
            Self::seals(*old(self), *final(self), r, commit_trigger),
    {
        let wb_opt = self.indexing_workbench_opt.take();
        match wb_opt {
            None => None,
            Some(wb) => {
                let ghost w = wb.docs();
                let IndexingWorkbench {
                    indexed_splits,
                    other_indexed_split_opt,
                    checkpoint_delta,
                    publish_lock,
                    publish_token_opt,
                    ..
                } = wb;
                let mut splits = indexed_splits;
                match other_indexed_split_opt {
                    Some(o) => {
                        let ghost before = splits@;
                        splits.push(o);
                        proof {
                            assert(stats_seq(splits@) =~= stats_seq(before).push(stats_of(o)));
                        }
                    },
                    None => {},
                }
                proof {
                    assert(stats_seq(splits@) == sealed(w));
                    match w.other {
                        Some(o) => lemma_sum_docs_push(w.splits, o),
                        None => {},
                    }
                }
                if splits.len() == 0 {
                    if !checkpoint_delta.is_empty() {
                        Some(IndexerOutput::EmptySplit(EmptySplit { checkpoint_delta, publish_lock, publish_token_opt }))
                    } else {
                        None
                    }
                } else {
                    let num_splits = splits.len() as u64;
                    self.counters.num_docs_in_workbench = 0;
                    self.counters.num_splits_emitted = self.counters.num_splits_emitted.saturating_add(num_splits);
                    self.counters.num_split_batches_emitted = self.counters.num_split_batches_emitted.saturating_add(1);
                    Some(
                        IndexerOutput::SplitBatch(
                            IndexedSplitBatch {
                                splits,
                                checkpoint_delta,
                                publish_lock,
                                publish_token_opt,
                                commit_trigger,
                            },
                        ),
                    )
                }
            },
        }
    }

    /// Counters once a batch of `num_docs` documents in total is in.
    pub open spec fn with_docs(c: IndexerCounters, num_docs: int) -> IndexerCounters {
        IndexerCounters {
            num_splits_emitted: c.num_splits_emitted,
            num_split_batches_emitted: c.num_split_batches_emitted,
            num_docs_in_workbench: num_docs as u64,
            pipeline_metrics_opt: c.pipeline_metrics_opt,
        }
    }

    /// What handling `batch` leaves and returns: under a dead publish lock the workbench is
    /// dropped; a delta that does not chain is refused with nothing added; otherwise the
    /// documents are routed, the delta composed, and the first trigger that fires seals it.
    pub open spec fn batch_handled(
        pre: Indexer,
        post: Indexer,
        batch: ProcessedDocBatch,
        last_delete_opstamp: u64,
        now_micros: u64,
        r: Result<IndexBatchOutcome, IndexerError>,
    ) -> bool {
        let created = pre.indexing_workbench_opt.is_none();
        let workbench_id = match pre.indexing_workbench_opt {
            Some(wb) => wb.workbench_id,
            None => pre.next_workbench_id,
        };
        let create_micros = match pre.indexing_workbench_opt {
            Some(wb) => wb.create_micros,
            None => now_micros,
        };
        let next_id = if created {
            if pre.next_workbench_id == u64::MAX { 0 } else { (pre.next_workbench_id + 1) as u64 }
        } else {
            pre.next_workbench_id
        };
        let scheduled = if created {
            Some(pre.next_workbench_id)
        } else {
            None
        };
        let opstamp = match pre.indexing_workbench_opt {
            Some(wb) => wb.last_delete_opstamp,
            None => last_delete_opstamp,
        };
        let token = match pre.indexing_workbench_opt {
            Some(wb) => wb.publish_token_opt,
            None => pre.publish_token_opt,
        };
        let w = route_docs(pre.pending_docs(), batch.docs@, pre.max_num_partitions as nat, opstamp);
        let delta = compose(pre.pending_delta(), batch.checkpoint_delta@);
        let memory = mem_after(pre.pending_memory(), batch.docs@);
        let num_docs = pre.counters.num_docs_in_workbench + batch.docs@.len();
        &&& post.next_workbench_id == next_id
        &&& if !pre.publish_lock.alive {
            &&& r matches Ok(o)
            &&& o.output.is_none()
            &&& o.commit_timeout_workbench_id == scheduled
            &&& post.indexing_workbench_opt.is_none()
            &&& post.counters == Self::with_docs(pre.counters, 0)
        } else if !chains(pre.pending_delta(), batch.checkpoint_delta@) {
            &&& r.is_err()
            &&& post.pending_docs() == pre.pending_docs()
            &&& post.pending_delta() == pre.pending_delta()
            &&& post.counters == pre.counters
        } else {
            &&& r matches Ok(o)
            &&& o.commit_timeout_workbench_id == scheduled
            &&& match batch_trigger(memory, num_docs, batch.force_commit, pre.indexing_settings) {
                Some(t) => {
                    &&& sealed_as(o.output, w, delta, pre.publish_lock, token, t)
                    &&& post.indexing_workbench_opt.is_none()
                    &&& post.counters == Self::sealed_counters(Self::with_docs(pre.counters, num_docs), w)
                },
                None => {
                    &&& o.output.is_none()
                    &&& post.indexing_workbench_opt.is_some()
                    &&& post.pending_docs() == w
                    &&& post.pending_delta() == delta
                    &&& post.pending_memory() == memory
                    &&& post.counters == Self::with_docs(pre.counters, num_docs)
                    &&& post.indexing_workbench_opt matches Some(wb) && wb.workbench_id == workbench_id
                        && wb.create_micros == create_micros && wb.last_delete_opstamp == opstamp
                        && wb.publish_token_opt == token
                },
            }
        }
    }

    /// Handles a batch of documents. `last_delete_opstamp` stamps the splits of the workbench
    /// this batch creates, if it creates one; `now_micros` is its creation time.
    pub fn index_batch(&mut self, batch: ProcessedDocBatch, last_delete_opstamp: u64, now_micros: u64) -> (r: Result<IndexBatchOutcome, IndexerError>)
        requires
            old(self).wf(),
            batch.checkpoint_delta.wf(),
            old(self).counters.num_docs_in_workbench + batch.docs@.len() <= u64::MAX,
        ensures
            final(self).wf(),
            final(self).same_config(old(self)),
            final(self).publish_lock == old(self).publish_lock,
            final(self).publish_token_opt == old(self).publish_token_opt,
            Self::batch_handled(*old(self), *final(self), batch, last_delete_opstamp, now_micros, r),
    {
        let ghost pre = *self;
        let mut created: Option<u64> = None;
        if self.indexing_workbench_opt.is_none() {
            let id = self.next_workbench_id;
            self.next_workbench_id = if id == u64::MAX {
                0
            } else {
                id + 1
            };
            self.indexing_workbench_opt = Some(
                IndexingWorkbench {
                    workbench_id: id,
                    create_micros: now_micros,
                    indexed_splits: Vec::new(),
                    other_indexed_split_opt: None,
                    checkpoint_delta: CheckpointDelta::new(),
                    publish_lock: self.publish_lock,
                    publish_token_opt: clone_token(&self.publish_token_opt),
                    last_delete_opstamp,
                    memory_usage: 0,
                },
            );
            created = Some(id);
            proof {
                assert(stats_seq(Seq::<IndexedSplitBuilder>::empty()) =~= Seq::<SplitStats>::empty());
                assert(self.pending_docs() == empty_docs());
                assert(sum_docs(Seq::<SplitStats>::empty()) == 0);
            }
        }
        if self.publish_lock.is_dead() {
            self.indexing_workbench_opt = None;
            self.counters.num_docs_in_workbench = 0;
            return Ok(IndexBatchOutcome { commit_timeout_workbench_id: created, output: None });
        }
        let ProcessedDocBatch { docs, checkpoint_delta, force_commit } = batch;
        let mut wb = self.indexing_workbench_opt.take().unwrap();
        match wb.checkpoint_delta.extend(&checkpoint_delta) {
            Err(e) => {
                self.indexing_workbench_opt = Some(wb);
                return Err(IndexerError::IncompatibleCheckpointDelta(e));
            },
            Ok(()) => {},
        }
        wb.add_docs(&docs, self.max_num_partitions);
        self.counters.num_docs_in_workbench = self.counters.num_docs_in_workbench + docs.len() as u64;
        let memory = wb.memory_usage;
        self.indexing_workbench_opt = Some(wb);
        let mut output: Option<IndexerOutput> = None;
        if memory >= self.indexing_settings.heap_size {
            output = self.send_to_serializer(CommitTrigger::MemoryLimit);
        }
        if self.counters.num_docs_in_workbench >= self.indexing_settings.split_num_docs_target {
            let o = self.send_to_serializer(CommitTrigger::NumDocsLimit);
            if output.is_none() {
                output = o;
            }
        }
        if force_commit {
            let o = self.send_to_serializer(CommitTrigger::ForceCommit);
            if output.is_none() {
                output = o;
            }
        }
        Ok(IndexBatchOutcome { commit_timeout_workbench_id: created, output })
    }

    /// Handles the commit timeout scheduled for workbench `workbench_id`: it seals the current
    /// workbench unless that timeout belongs to a workbench already gone.
    pub fn handle_commit_timeout(&mut self, workbench_id: u64) -> (r: Option<IndexerOutput>)
        requires
            old(self).wf(),
        ensures
            final(self).wf(),
            final(self).same_config(old(self)),
            final(self).publish_lock == old(self).publish_lock,
            final(self).publish_token_opt == old(self).publish_token_opt,
            (old(self).indexing_workbench_opt matches Some(wb) && wb.workbench_id != workbench_id) ==> (r.is_none() && *final(self) == *old(self)),
            !(old(self).indexing_workbench_opt matches Some(wb) && wb.workbench_id != workbench_id) ==> (Self::seals(*old(self), *final(self), r, CommitTrigger::Timeout)
                && final(self).indexing_workbench_opt.is_none()),
    {
        match &self.indexing_workbench_opt {
            Some(wb) => {
                if wb.workbench_id != workbench_id {
                    return None;
                }
            },
            None => {},
        }
        self.send_to_serializer(CommitTrigger::Timeout)
    }

    /// Installs a new publish lock. The current workbench is sealed first if its lock is
    /// alive, and dropped with its documents if it is dead.
    pub fn handle_new_publish_lock(&mut self, publish_lock: PublishLock) -> (r: Option<IndexerOutput>)
        requires
            old(self).wf(),
        ensures
            final(self).wf(),
            final(self).same_config(old(self)),
            final(self).publish_lock == publish_lock,
            final(self).publish_token_opt == old(self).publish_token_opt,
            final(self).indexing_workbench_opt.is_none(),
            old(self).publish_lock.alive ==> Self::seals(*old(self), *final(self), r, CommitTrigger::ForceCommit),
            !old(self).publish_lock.alive ==> r.is_none() && final(self).counters == Self::with_docs(old(self).counters, 0),
    {
        let mut output: Option<IndexerOutput> = None;
        if self.publish_lock.is_dead() {
            self.indexing_workbench_opt = None;
            self.counters.num_docs_in_workbench = 0;
        } else {
            output = self.send_to_serializer(CommitTrigger::ForceCommit);
        }
        self.publish_lock = publish_lock;
        output
    }

    /// Installs the publish token that the next workbenches carry.
    pub fn handle_new_publish_token(&mut self, publish_token: String)
        requires
            old(self).wf(),
        ensures
            final(self).wf(),
            final(self).publish_token_opt == Some(publish_token),
            final(self).same_config(old(self)),
            final(self).publish_lock == old(self).publish_lock,
            final(self).indexing_workbench_opt == old(self).indexing_workbench_opt,
            final(self).counters == old(self).counters,
    {
        self.publish_token_opt = Some(publish_token);
    }

    /// The current publish lock was killed: what it guards must be dropped.
    pub fn kill_publish_lock(&mut self)
        requires
            old(self).wf(),
        ensures
            final(self).wf(),
            final(self).same_config(old(self)),
            final(self).publish_lock.lock_id == old(self).publish_lock.lock_id,
            !final(self).publish_lock.alive,
            final(self).pending_docs() == old(self).pending_docs(),
            final(self).pending_delta() == old(self).pending_delta(),
            final(self).counters == old(self).counters,
    {
        self.publish_lock.kill();
        match self.indexing_workbench_opt.take() {
            Some(mut wb) => {
                wb.publish_lock.kill();
                self.indexing_workbench_opt = Some(wb);
            },
            None => {},
        }
    }

    /// Records the load of the pipeline: the share of the commit timeout spent so far, and
    /// the throughput in bytes per microsecond.
    pub fn update_pipeline_metrics(&mut self, elapsed_micros: u64, uncompressed_num_bytes: u64)
        requires
            old(self).wf(),
        ensures
            final(self).wf(),
            final(self).same_config(old(self)),
            final(self).publish_lock == old(self).publish_lock,
            final(self).publish_token_opt == old(self).publish_token_opt,
            final(self).indexing_workbench_opt == old(self).indexing_workbench_opt,
            final(self).counters == (IndexerCounters {
                pipeline_metrics_opt: Some(
                    PipelineMetrics {
                        cpu_millis: clamp_cpu_millis(elapsed_micros, old(self).indexing_settings.commit_timeout_micros),
                        throughput_mb_per_sec: throughput(uncompressed_num_bytes, elapsed_micros),
                    },
                ),
                ..old(self).counters
            }),
    {
        let timeout = self.indexing_settings.commit_timeout_micros;
        let cpu_millis: u32 = if elapsed_micros >= timeout {
            PIPELINE_FULL_CAPACITY_MILLIS
        } else {
            let scaled: u128 = (PIPELINE_FULL_CAPACITY_MILLIS as u128) * (elapsed_micros as u128);
            let q: u128 = scaled / (timeout as u128);
            proof {
                assert(q <= PIPELINE_FULL_CAPACITY_MILLIS) by (nonlinear_arith)
                    requires
                        q == scaled / (timeout as u128),
                        scaled == (PIPELINE_FULL_CAPACITY_MILLIS as u128) * (elapsed_micros as u128),
                        elapsed_micros < timeout,
                        timeout > 0,
                ;
            }
            q as u32
        };
        let per_micro: u128 = (uncompressed_num_bytes as u128) / (1u128 + elapsed_micros as u128);
        let mb_per_sec: u16 = (per_micro % 65536) as u16;
        self.counters.pipeline_metrics_opt = Some(PipelineMetrics { cpu_millis, throughput_mb_per_sec: mb_per_sec });
    }

    /// Handles a drained mailbox. With cooperative indexing, the current workbench is sealed
    /// and the indexer pauses for what is left of the commit timeout.
    pub fn on_drained_messages(&mut self, now_micros: u64) -> (r: DrainedOutcome)
        requires
            old(self).wf(),
        ensures
            final(self).wf(),
            final(self).same_config(old(self)),
            final(self).publish_lock == old(self).publish_lock,
            final(self).publish_token_opt == old(self).publish_token_opt,
            !old(self).cooperative_indexing || old(self).indexing_workbench_opt.is_none() ==> (r.output.is_none()
                && r.pause_micros.is_none() && *final(self) == *old(self)),
            old(self).cooperative_indexing && old(self).indexing_workbench_opt.is_some() ==> ({
                let wb = old(self).indexing_workbench_opt.unwrap();
                let elapsed = if now_micros >= wb.create_micros { (now_micros - wb.create_micros) as u64 } else { 0u64 };
                let timeout = old(self).indexing_settings.commit_timeout_micros;
                &&& sealed_as(r.output, wb.docs(), wb.checkpoint_delta@, wb.publish_lock, wb.publish_token_opt, CommitTrigger::Drained)
                &&& final(self).indexing_workbench_opt.is_none()
                &&& final(self).counters == Self::sealed_counters(
                    IndexerCounters {
                        pipeline_metrics_opt: Some(
                            PipelineMetrics {
                                cpu_millis: clamp_cpu_millis(elapsed, timeout),
                                throughput_mb_per_sec: throughput(sum_bytes(wb.indexed_splits@), elapsed),
                            },
                        ),
                        ..old(self).counters
                    },
                    wb.docs(),
                )
                &&& r.pause_micros == if elapsed >= timeout { None } else { Some((timeout - elapsed) as u64) }
            }),
    {
        if !self.cooperative_indexing {
            return DrainedOutcome { output: None, pause_micros: None };
        }
        let (elapsed, num_bytes) = match &self.indexing_workbench_opt {
            None => {
                return DrainedOutcome { output: None, pause_micros: None };
            },
            Some(wb) => {
                let elapsed: u64 = if now_micros >= wb.create_micros {
                    now_micros - wb.create_micros
                } else {
                    0
                };
                (elapsed, total_uncompressed_bytes(&wb.indexed_splits))
            },
        };
        self.update_pipeline_metrics(elapsed, num_bytes);
        let output = self.send_to_serializer(CommitTrigger::Drained);
        let timeout = self.indexing_settings.commit_timeout_micros;
        let pause_micros = if elapsed >= timeout {
            None
        } else {
            Some(timeout - elapsed)
        };
        DrainedOutcome { output, pause_micros }
    }

    /// Handles the end of the indexer: a graceful exit seals the current workbench; any other
    /// exit drops it unsent.
    pub fn finalize(&mut self, exit_status: ActorExitStatus) -> (r: Option<IndexerOutput>)
        requires
            old(self).wf(),
        ensures
            final(self).wf(),
            final(self).same_config(old(self)),
            (exit_status == ActorExitStatus::Success || exit_status == ActorExitStatus::Quit) ==> (Self::seals(*old(self), *final(self), r, CommitTrigger::NoMoreDocs)
                && final(self).indexing_workbench_opt.is_none()),
            !(exit_status == ActorExitStatus::Success || exit_status == ActorExitStatus::Quit) ==> (r.is_none() && *final(self) == *old(self)),
    {
        match exit_status {
            ActorExitStatus::Success | ActorExitStatus::Quit => self.send_to_serializer(CommitTrigger::NoMoreDocs),
            _ => None,
        }
    }
}

proof fn lemma_sealed_sum(w: WorkbenchDocs)
    ensures
        sum_docs(sealed(w)) == total_docs(w),
{
    match w.other {
        Some(o) => lemma_sum_docs_push(w.splits, o),
        None => {},
    }
}

proof fn lemma_sealed_output_docs(out: Option<IndexerOutput>, w: WorkbenchDocs, delta: DeltaMap, lock: PublishLock, token: Option<String>, t: CommitTrigger)
    requires
        sealed_as(out, w, delta, lock, token, t),
    ensures
        output_docs(out) == total_docs(w),
{
    lemma_sealed_sum(w);
    if sealed(w).len() == 0 {
        assert(sum_docs(sealed(w)) == 0);
    }
}

/// Sealing hands over every pending document exactly once: the output carries as many
/// documents as the workbench counted, and none is left counted after.
pub proof fn lemma_seal_conserves_docs(pre: Indexer, post: Indexer, out: Option<IndexerOutput>, t: CommitTrigger)
    requires
        pre.wf(),
        Indexer::seals(pre, post, out, t),
    ensures
        output_docs(out) == pre.counters.num_docs_in_workbench,
        post.counters.num_docs_in_workbench == 0,
{
    match pre.indexing_workbench_opt {
        Some(wb) => {
            lemma_sealed_output_docs(out, wb.docs(), wb.checkpoint_delta@, wb.publish_lock, wb.publish_token_opt, t);
            lemma_sealed_sum(wb.docs());
        },
        None => {},
    }
}

/// Accepting a batch loses no document and counts none twice: what it sends downstream
/// plus what stays counted in the workbench is what was counted before plus the batch.
pub proof fn lemma_batch_conserves_docs(
    pre: Indexer,
    post: Indexer,
    batch: ProcessedDocBatch,
    last_delete_opstamp: u64,
    now_micros: u64,
    r: Result<IndexBatchOutcome, IndexerError>,
)
    requires
        pre.wf(),
        pre.publish_lock.alive,
        Indexer::batch_handled(pre, post, batch, last_delete_opstamp, now_micros, r),
        r.is_ok(),
    ensures
        output_docs(r.unwrap().output) + post.counters.num_docs_in_workbench
            == pre.counters.num_docs_in_workbench + batch.docs@.len(),
{
    let opstamp = match pre.indexing_workbench_opt {
        Some(wb) => wb.last_delete_opstamp,
        None => last_delete_opstamp,
    };
    let w = route_docs(pre.pending_docs(), batch.docs@, pre.max_num_partitions as nat, opstamp);
    assert(total_docs(pre.pending_docs()) == pre.counters.num_docs_in_workbench) by {
        assert(sum_docs(Seq::<SplitStats>::empty()) == 0);
    }
    assert(docs_wf(pre.pending_docs(), pre.max_num_partitions as nat));
    lemma_route_docs(pre.pending_docs(), batch.docs@, pre.max_num_partitions as nat, opstamp);
    let o = r.unwrap();
    let token = match pre.indexing_workbench_opt {
        Some(wb) => wb.publish_token_opt,
        None => pre.publish_token_opt,
    };
    let delta = compose(pre.pending_delta(), batch.checkpoint_delta@);
    let memory = mem_after(pre.pending_memory(), batch.docs@);
    let num_docs = pre.counters.num_docs_in_workbench + batch.docs@.len();
    match batch_trigger(memory, num_docs, batch.force_commit, pre.indexing_settings) {
        Some(t) => {
            lemma_sealed_output_docs(o.output, w, delta, pre.publish_lock, token, t);
            lemma_sealed_sum(w);
        },
        None => {},
    }
}

/// Once the documents counted in the workbench reach `split_num_docs_target` (and memory is
/// under budget), the batch that reaches it seals one split batch holding them all, tagged
/// `NumDocsLimit`, and the count starts again from zero; below it nothing is sent.
pub proof fn lemma_num_docs_trigger(
    pre: Indexer,
    post: Indexer,
    batch: ProcessedDocBatch,
    last_delete_opstamp: u64,
    now_micros: u64,
    r: Result<IndexBatchOutcome, IndexerError>,
)
    requires
        pre.wf(),
        pre.publish_lock.alive,
        chains(pre.pending_delta(), batch.checkpoint_delta@),
        Indexer::batch_handled(pre, post, batch, last_delete_opstamp, now_micros, r),
        mem_after(pre.pending_memory(), batch.docs@) < pre.indexing_settings.heap_size,
    ensures
        r.is_ok(),
        pre.counters.num_docs_in_workbench + batch.docs@.len() >= pre.indexing_settings.split_num_docs_target
            && batch.docs@.len() + pre.counters.num_docs_in_workbench > 0 ==> ({
            &&& r.unwrap().output matches Some(IndexerOutput::SplitBatch(b))
            &&& b.commit_trigger == CommitTrigger::NumDocsLimit
            &&& output_docs(r.unwrap().output) == pre.counters.num_docs_in_workbench + batch.docs@.len()
            &&& post.counters.num_docs_in_workbench == 0
            &&& post.counters.num_split_batches_emitted == sat_add(pre.counters.num_split_batches_emitted, 1)
        }),
        pre.counters.num_docs_in_workbench + batch.docs@.len() < pre.indexing_settings.split_num_docs_target
            && !batch.force_commit ==> (r.unwrap().output.is_none()
            && post.counters.num_docs_in_workbench == pre.counters.num_docs_in_workbench + batch.docs@.len()),
{
    lemma_batch_conserves_docs(pre, post, batch, last_delete_opstamp, now_micros, r);
    let opstamp = match pre.indexing_workbench_opt {
        Some(wb) => wb.last_delete_opstamp,
        None => last_delete_opstamp,
    };
    let w = route_docs(pre.pending_docs(), batch.docs@, pre.max_num_partitions as nat, opstamp);
    assert(total_docs(pre.pending_docs()) == pre.counters.num_docs_in_workbench) by {
        assert(sum_docs(Seq::<SplitStats>::empty()) == 0);
    }
    lemma_route_docs(pre.pending_docs(), batch.docs@, pre.max_num_partitions as nat, opstamp);
    lemma_sealed_sum(w);
    if total_docs(w) > 0 && sealed(w).len() == 0 {
        assert(sum_docs(sealed(w)) == 0);
    }
}

/// Once the writers' memory reaches `heap_size`, the batch that reaches it seals the
/// workbench under `MemoryLimit`, before the document count or a forced commit is looked at.
pub proof fn lemma_memory_trigger(
    pre: Indexer,
    post: Indexer,
    batch: ProcessedDocBatch,
    last_delete_opstamp: u64,
    now_micros: u64,
    r: Result<IndexBatchOutcome, IndexerError>,
)
    requires
        pre.wf(),
        pre.publish_lock.alive,
        chains(pre.pending_delta(), batch.checkpoint_delta@),
        Indexer::batch_handled(pre, post, batch, last_delete_opstamp, now_micros, r),
        mem_after(pre.pending_memory(), batch.docs@) >= pre.indexing_settings.heap_size,
        pre.counters.num_docs_in_workbench + batch.docs@.len() > 0,
    ensures
        r.unwrap().output matches Some(IndexerOutput::SplitBatch(b)) && b.commit_trigger == CommitTrigger::MemoryLimit,
        post.indexing_workbench_opt.is_none(),
        post.counters.num_docs_in_workbench == 0,
{
    let opstamp = match pre.indexing_workbench_opt {
        Some(wb) => wb.last_delete_opstamp,
        None => last_delete_opstamp,
    };
    let w = route_docs(pre.pending_docs(), batch.docs@, pre.max_num_partitions as nat, opstamp);
    assert(total_docs(pre.pending_docs()) == pre.counters.num_docs_in_workbench) by {
        assert(sum_docs(Seq::<SplitStats>::empty()) == 0);
    }
    lemma_route_docs(pre.pending_docs(), batch.docs@, pre.max_num_partitions as nat, opstamp);
    lemma_sealed_sum(w);
    if sealed(w).len() == 0 {
        assert(sum_docs(sealed(w)) == 0);
    }
}

/// Documents sent under a killed publish lock are dropped: nothing is sent, nothing stays
/// counted, and no workbench is left.
pub proof fn lemma_dead_lock_discards(
    pre: Indexer,
    post: Indexer,
    batch: ProcessedDocBatch,
    last_delete_opstamp: u64,
    now_micros: u64,
    r: Result<IndexBatchOutcome, IndexerError>,
)
    requires
        !pre.publish_lock.alive,
        Indexer::batch_handled(pre, post, batch, last_delete_opstamp, now_micros, r),
    ensures
        r.is_ok(),
        r.unwrap().output.is_none(),
        output_docs(r.unwrap().output) == 0,
        post.counters.num_docs_in_workbench == 0,
        post.indexing_workbench_opt.is_none(),
{
}

} // verus!
