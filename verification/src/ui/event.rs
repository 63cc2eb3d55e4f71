//! What a copy reports of its progress.
use vstd::prelude::*;

verus! {

/// One report of a running copy.
#[derive(Debug, Clone)]
pub enum CopyEvent {
    /// Copy of a table started. `key` identifies the table in later events;
    /// `namespace` and `table` are the labels to show.
    TableStarted { key: String, namespace: String, table: String },
    /// The queue of a table changed: so many files wait, and so many have
    /// been copied and skipped.
    TableQueueChanged { key: String, queued: u64, copied: u64, skipped: u64 },
    /// A table finished, well or not.
    TableFinished { key: String },
    /// What the table is doing right now; `None` clears it.
    TableStatus { key: String, message: Option<String> },
    /// What is going on apart from any table; `None` clears it.
    GlobalStatus { message: Option<String> },
    /// A file copy began. Skipped files are not reported.
    FileStarted { id: u64, table_key: String, name: String, total_bytes: u64 },
    /// The bytes of a file that have come so far, all told.
    FileProgress { id: u64, copied_bytes: u64 },
    /// A file copy ended, well or not.
    FileFinished { id: u64 },
    /// All work is done.
    Done,
}

} // verus!
