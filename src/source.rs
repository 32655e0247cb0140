//! Batches of raw documents as a source emits them, each with the checkpoint delta it covers.
use vstd::prelude::*;

use crate::checkpoint::{CheckpointDelta, DeltaMap};
use crate::indexer::sat_add;

verus! {

/// Raw documents and the positions they account for.
pub struct RawDocBatch {
    pub docs: Vec<Vec<u8>>,
    pub checkpoint_delta: CheckpointDelta,
    pub force_commit: bool,
}

pub open spec fn docs_view(docs: Seq<Vec<u8>>) -> Seq<Seq<u8>> {
    docs.map_values(|d: Vec<u8>| d@)
}

/// Accumulates the documents and checkpoint delta of the next batch.
pub struct BatchBuilder {
    pub docs: Vec<Vec<u8>>,
    pub num_bytes: u64,
    pub checkpoint_delta: CheckpointDelta,
    pub force_commit: bool,
}

impl BatchBuilder {
    pub open spec fn wf(&self) -> bool {
        self.checkpoint_delta.wf()
    }

    pub fn new() -> (r: Self)
        ensures
            r.wf(),
            r.docs@.len() == 0,
            r.num_bytes == 0,
            r.checkpoint_delta@ == DeltaMap::empty(),
            !r.force_commit,
    {
        BatchBuilder { docs: Vec::new(), num_bytes: 0, checkpoint_delta: CheckpointDelta::new(), force_commit: false }
    }

    /// Adds a document; its length counts toward the batch's size.
    pub fn add_doc(&mut self, doc: Vec<u8>)
        ensures
            docs_view(final(self).docs@) == docs_view(old(self).docs@).push(doc@),
            final(self).num_bytes == sat_add(old(self).num_bytes, doc@.len() as u64),
            final(self).checkpoint_delta == old(self).checkpoint_delta,
            final(self).force_commit == old(self).force_commit,
    {
        let n = doc.len() as u64;
        let ghost before = self.docs@;
        self.num_bytes = self.num_bytes.saturating_add(n);
        self.docs.push(doc);
        proof {
            assert(docs_view(self.docs@) =~= docs_view(before).push(doc@));
        }
    }

    /// Asks the indexer to commit once this batch is in.
    pub fn force_commit(&mut self)
        ensures
            final(self).force_commit,
            final(self).docs == old(self).docs,
            final(self).num_bytes == old(self).num_bytes,
            final(self).checkpoint_delta == old(self).checkpoint_delta,
    {
        self.force_commit = true;
    }

    pub fn build(self) -> (r: RawDocBatch)
        ensures
            r.docs == self.docs,
            r.checkpoint_delta == self.checkpoint_delta,
            r.force_commit == self.force_commit,
    {
        RawDocBatch { docs: self.docs, checkpoint_delta: self.checkpoint_delta, force_commit: self.force_commit }
    }

    /// Empties the batch of its documents and delta; a requested commit stays requested.
    pub fn clear(&mut self)
        ensures
            final(self).wf(),
            final(self).docs@.len() == 0,
            final(self).num_bytes == 0,
            final(self).checkpoint_delta@ == DeltaMap::empty(),
            final(self).force_commit == old(self).force_commit,
    {
        self.docs.clear();
        self.num_bytes = 0;
        self.checkpoint_delta = CheckpointDelta::new();
    }
}

} // verus!
