//! Collectors: read-only modules that know where a given AI tool leaves its
//! usage data and normalize it into the store.

pub mod claude_code;
pub mod limits;
pub mod ingest;

use vstd::prelude::*;

verus! {

/// Counters of one ingestion pass.
#[derive(Debug, Default)]
pub struct IngestReport {
    pub files_seen: usize,
    pub files_read: usize,
    pub events_added: usize,
    pub lines_skipped: usize,
}

} // verus!
