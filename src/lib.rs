//! Indexing workbench state machine and leaf-search merge engine.
//!
//! - [`indexer`]: routes document batches into per-partition split builders, accumulates the
//!   checkpoint delta, and decides when a workbench is sealed.
//! - [`checkpoint`]: the per-partition delta algebra the indexer relies on, and [`source`]:
//!   the batches a source builds with it.
//! - [`pruning`], [`collector`], [`leaf`]: ordering and pruning of splits, the incremental top-K
//!   merge, and the per-split dispatch decisions of a leaf search; [`leaf_cache`]: the
//!   per-split result cache.
//! - [`footer_cache`]: split footers cached by split id within a byte budget.
//! - [`list_terms`]: merging term listings across segments and splits.
//! - [`cli`]: the command line.
pub mod checkpoint;
pub mod cli;
pub mod collector;
pub mod config_format;
pub mod footer_cache;
pub mod indexer;
pub mod ingest;
pub mod janitor;
pub mod leaf;
pub mod leaf_cache;
pub mod list_terms;
pub mod order;
pub mod pruning;
pub mod query;
pub mod request;
pub mod source;
