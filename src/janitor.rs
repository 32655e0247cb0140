//! Counters of the garbage collector.
use vstd::prelude::*;

verus! {

#[derive(Clone, Copy, Debug, PartialEq, Eq, Structural)]
pub struct GarbageCollectorCounters {
    /// The number of passes the garbage collector has performed.
    pub num_passes: usize,
    /// The number of deleted files.
    pub num_deleted_files: usize,
    /// The number of bytes deleted.
    pub num_deleted_bytes: usize,
    /// The number of failed garbage collection runs on an index.
    pub num_failed_gc_run_on_index: usize,
    /// The number of successful garbage collection runs on an index.
    pub num_successful_gc_run_on_index: usize,
    /// The number of failed storage resolutions.
    pub num_failed_storage_resolution: usize,
    /// The number of splits that could not be removed.
    pub num_failed_splits: usize,
}

impl GarbageCollectorCounters {
    pub fn new() -> (r: Self)
        ensures
            r.num_passes == 0,
            r.num_deleted_files == 0,
            r.num_deleted_bytes == 0,
            r.num_failed_gc_run_on_index == 0,
            r.num_successful_gc_run_on_index == 0,
            r.num_failed_storage_resolution == 0,
            r.num_failed_splits == 0,
    {
        GarbageCollectorCounters {
            num_passes: 0,
            num_deleted_files: 0,
            num_deleted_bytes: 0,
            num_failed_gc_run_on_index: 0,
            num_successful_gc_run_on_index: 0,
            num_failed_storage_resolution: 0,
            num_failed_splits: 0,
        }
    }
}

} // verus!
