//! The counters of a table copy, and what they report.
use vstd::prelude::*;

use crate::number::{digits, push_decimal};
use crate::ui::event::CopyEvent;
use crate::ui::reporter::Reporter;

verus! {

// ---------------------------------------------------------------------------
// The scan
// ---------------------------------------------------------------------------

/// Counters of the discovery phase. The walk over the manifests and the scan
/// of the destination go on at the same time, and one line tells of both.
pub struct ScanProgress {
    pub table_key: String,
    pub manifest_lists_total: usize,
    pub manifest_lists_done: usize,
    pub manifests_total: usize,
    pub manifests_done: usize,
    pub dst_objects: u64,
}

/// How far the walk has come: manifests once there are any, before that
/// manifest lists.
pub open spec fn walk_text(scan: ScanProgress) -> Option<Seq<char>> {
    if scan.manifests_total > 0 {
        Some(
            "manifests "@ + digits(scan.manifests_done as nat) + "/"@ + digits(
                scan.manifests_total as nat,
            ),
        )
    } else if scan.manifest_lists_total > 0 {
        Some(
            "manifest lists "@ + digits(scan.manifest_lists_done as nat) + "/"@ + digits(
                scan.manifest_lists_total as nat,
            ),
        )
    } else {
        None
    }
}

/// How many objects were found at the destination.
pub open spec fn dst_text(scan: ScanProgress) -> Option<Seq<char>> {
    if scan.dst_objects > 0 {
        Some("dst "@ + digits(scan.dst_objects as nat) + " objects"@)
    } else {
        None
    }
}

/// The line on both. Nothing before there is anything to tell.
pub open spec fn scan_text(scan: ScanProgress) -> Option<Seq<char>> {
    match (walk_text(scan), dst_text(scan)) {
        (Some(walk), Some(dst)) => Some(walk + " · "@ + dst),
        (Some(walk), None) => Some(walk),
        (None, dst) => dst,
    }
}

/// Is this the report of a table's status, and of nothing else?
pub open spec fn reports_status(
    event: Option<CopyEvent>,
    active: bool,
    table_key: Seq<char>,
    text: Option<Seq<char>>,
) -> bool {
    match event {
        Some(event) => active && (event matches CopyEvent::TableStatus { key, message: Some(m) }
            && key@ == table_key && text == Some(m@)),
        None => !active || text is None,
    }
}

impl ScanProgress {
    pub fn new(table_key: &str) -> (r: ScanProgress)
        ensures
            r.table_key@ == table_key@,
            r.manifest_lists_total == 0,
            r.manifest_lists_done == 0,
            r.manifests_total == 0,
            r.manifests_done == 0,
            r.dst_objects == 0,
            scan_text(r) is None,
    {
        ScanProgress {
            table_key: table_key.to_owned(),
            manifest_lists_total: 0,
            manifest_lists_done: 0,
            manifests_total: 0,
            manifests_done: 0,
            dst_objects: 0,
        }
    }

    pub fn record_manifest_list(
        &mut self,
        done: usize,
        total: usize,
        reporter: &Reporter,
    ) -> (r: Option<CopyEvent>)
        ensures
            *final(self) == (ScanProgress {
                manifest_lists_done: done,
                manifest_lists_total: total,
                ..*old(self)
            }),
            reports_status(r, reporter@.active, old(self).table_key@, scan_text(*final(self))),
    {
        self.manifest_lists_done = done;
        self.manifest_lists_total = total;
        self.emit(reporter)
    }

    pub fn record_manifest(&mut self, done: usize, total: usize, reporter: &Reporter) -> (r: Option<
        CopyEvent,
    >)
        ensures
            *final(self) == (ScanProgress {
                manifests_done: done,
                manifests_total: total,
                ..*old(self)
            }),
            reports_status(r, reporter@.active, old(self).table_key@, scan_text(*final(self))),
    {
        self.manifests_done = done;
        self.manifests_total = total;
        self.emit(reporter)
    }

    pub fn record_dst_objects(&mut self, count: u64, reporter: &Reporter) -> (r: Option<CopyEvent>)
        ensures
            *final(self) == (ScanProgress { dst_objects: count, ..*old(self) }),
            reports_status(r, reporter@.active, old(self).table_key@, scan_text(*final(self))),
    {
        self.dst_objects = count;
        self.emit(reporter)
    }

    /// The line on the walk and the scan.
    pub fn text(&self) -> (r: Option<String>)
        ensures
            match r {
                Some(s) => scan_text(*self) == Some(s@),
                None => scan_text(*self) is None,
            },
    {
        let mut out: String = String::new();
        if self.manifests_total > 0 {
            out.append("manifests ");
            push_decimal(&mut out, self.manifests_done as u64);
            out.append("/");
            push_decimal(&mut out, self.manifests_total as u64);
        } else if self.manifest_lists_total > 0 {
            out.append("manifest lists ");
            push_decimal(&mut out, self.manifest_lists_done as u64);
            out.append("/");
            push_decimal(&mut out, self.manifest_lists_total as u64);
        } else if self.dst_objects == 0 {
            return None;
        }
        proof {
            assert(match walk_text(*self) {
                Some(walk) => out@ =~= walk,
                None => out@ =~= Seq::<char>::empty(),
            });
        }
        if self.dst_objects > 0 {
            if self.manifests_total > 0 || self.manifest_lists_total > 0 {
                out.append(" · ");
            }
            out.append("dst ");
            push_decimal(&mut out, self.dst_objects);
            out.append(" objects");
        }
        proof {
            assert(out@ =~= scan_text(*self)->0);
        }
        Some(out)
    }

    fn emit(&self, reporter: &Reporter) -> (r: Option<CopyEvent>)
        ensures
            reports_status(r, reporter@.active, self.table_key@, scan_text(*self)),
    {
        match self.text() {
            Some(text) => reporter.table_status(self.table_key.as_str(), text.as_str()),
            None => None,
        }
    }
}

// ---------------------------------------------------------------------------
// The copy
// ---------------------------------------------------------------------------

/// Counters of the copy phase.
pub struct TableProgress {
    pub key: String,
    /// All files known so far.
    pub total: u64,
    pub copied: u64,
    /// Files that are left alone on purpose: they are at the destination, or
    /// no longer at the source.
    pub skipped: u64,
    /// Files that could not be read or written. They are not logged, so that
    /// the next run tries them again.
    pub failed: u64,
}

impl TableProgress {
    /// The files that are settled, in one way or another.
    pub open spec fn settled(self) -> nat {
        (self.copied + self.skipped + self.failed) as nat
    }

    /// The files that wait. Failed files do not: the bar would never fill.
    pub open spec fn queued(self) -> nat {
        if self.total >= self.settled() {
            (self.total - self.settled()) as nat
        } else {
            0
        }
    }

    /// Is this the report of the counters?
    pub open spec fn reported(self, event: Option<CopyEvent>, active: bool) -> bool {
        match event {
            Some(event) => active && (event matches CopyEvent::TableQueueChanged {
                key,
                queued,
                copied,
                skipped,
            } && key@ == self.key@ && queued == self.queued() && copied == self.copied && skipped
                == self.skipped),
            None => !active,
        }
    }

    pub fn new(key: &str) -> (r: TableProgress)
        ensures
            r.key@ == key@,
            r.total == 0,
            r.copied == 0,
            r.skipped == 0,
            r.failed == 0,
    {
        TableProgress { key: key.to_owned(), total: 0, copied: 0, skipped: 0, failed: 0 }
    }

    /// Tests whether one more file can be settled.
    pub fn can_record(&self) -> (r: bool)
        ensures
            r == (self.settled() < u64::MAX),
    {
        match self.copied.checked_add(self.skipped) {
            Some(n) => match n.checked_add(self.failed) {
                Some(m) => m < u64::MAX,
                None => false,
            },
            None => false,
        }
    }

    pub fn set_total(&mut self, n: u64, reporter: &Reporter) -> (r: Option<CopyEvent>)
        requires
            old(self).settled() <= u64::MAX,
        ensures
            *final(self) == (TableProgress { total: n, ..*old(self) }),
            final(self).reported(r, reporter@.active),
    {
        self.total = n;
        self.emit(reporter)
    }

    pub fn add_total(&mut self, n: u64, reporter: &Reporter) -> (r: Option<CopyEvent>)
        requires
            old(self).settled() <= u64::MAX,
        ensures
            *final(self) == (TableProgress { total: old(self).total.wrapping_add(n), ..*old(self) }),
            final(self).reported(r, reporter@.active),
    {
        self.total = self.total.wrapping_add(n);
        self.emit(reporter)
    }

    pub fn record_copied(&mut self, reporter: &Reporter) -> (r: Option<CopyEvent>)
        requires
            old(self).settled() < u64::MAX,
        ensures
            *final(self) == (TableProgress { copied: (old(self).copied + 1) as u64, ..*old(self) }),
            final(self).reported(r, reporter@.active),
    {
        self.copied = self.copied + 1;
        self.emit(reporter)
    }

    pub fn record_skipped(&mut self, reporter: &Reporter) -> (r: Option<CopyEvent>)
        requires
            old(self).settled() < u64::MAX,
        ensures
            *final(self) == (TableProgress {
                skipped: (old(self).skipped + 1) as u64,
                ..*old(self)
            }),
            final(self).reported(r, reporter@.active),
    {
        self.skipped = self.skipped + 1;
        self.emit(reporter)
    }

    pub fn record_failed(&mut self, reporter: &Reporter) -> (r: Option<CopyEvent>)
        requires
            old(self).settled() < u64::MAX,
        ensures
            *final(self) == (TableProgress { failed: (old(self).failed + 1) as u64, ..*old(self) }),
            final(self).reported(r, reporter@.active),
    {
        self.failed = self.failed + 1;
        self.emit(reporter)
    }

    fn emit(&self, reporter: &Reporter) -> (r: Option<CopyEvent>)
        requires
            self.settled() <= u64::MAX,
        ensures
            self.reported(r, reporter@.active),
    {
        let settled: u64 = self.copied + self.skipped + self.failed;
        let queued: u64 = self.total.saturating_sub(settled);
        reporter.table_queue_changed(self.key.as_str(), queued, self.copied, self.skipped)
    }
}

/// While no more files are settled than are known, every file counts exactly
/// once: it waits, or it was copied, skipped or failed.
pub proof fn every_file_counts_once(progress: TableProgress)
    requires
        progress.settled() <= progress.total,
    ensures
        progress.queued() + progress.copied + progress.skipped + progress.failed == progress.total,
{
}

/// The line on the scan names manifests once there are any, else manifest
/// lists, and behind a dot the objects at the destination if any were found.
/// Each number stands in its place.
pub proof fn line_tells_of_walk_and_scan(scan: ScanProgress)
    ensures
        ({
            let lists = scan.manifest_lists_total > 0;
            let manifests = scan.manifests_total > 0;
            let objects = scan.dst_objects > 0;
            let on_manifests = "manifests "@ + digits(scan.manifests_done as nat) + "/"@ + digits(
                scan.manifests_total as nat,
            );
            let on_lists = "manifest lists "@ + digits(scan.manifest_lists_done as nat) + "/"@
                + digits(scan.manifest_lists_total as nat);
            let on_objects = "dst "@ + digits(scan.dst_objects as nat) + " objects"@;
            &&& manifests && objects ==> scan_text(scan) == Some(
                on_manifests + " · "@ + on_objects,
            )
            &&& manifests && !objects ==> scan_text(scan) == Some(on_manifests)
            &&& !manifests && lists && objects ==> scan_text(scan) == Some(
                on_lists + " · "@ + on_objects,
            )
            &&& !manifests && lists && !objects ==> scan_text(scan) == Some(on_lists)
            &&& !manifests && !lists && objects ==> scan_text(scan) == Some(on_objects)
            &&& !manifests && !lists && !objects ==> scan_text(scan) is None
        }),
{
}

/// What is reported of the counters is what they are, under the key of the
/// table; without a listener nothing is.
pub proof fn counters_are_reported_as_they_are(
    progress: TableProgress,
    event: CopyEvent,
    active: bool,
)
    ensures
        progress.reported(Some(event), active) ==> active && (
        event matches CopyEvent::TableQueueChanged { key, queued, copied, skipped } && key@
            == progress.key@ && copied == progress.copied && skipped == progress.skipped && queued
            == progress.queued()),
        progress.reported(None, active) ==> !active,
{
}

/// A status that is reported is that of the table, in these words. Nothing is
/// kept back from a listener.
pub proof fn status_is_reported_word_for_word(
    event: CopyEvent,
    active: bool,
    table_key: Seq<char>,
    text: Seq<char>,
)
    ensures
        reports_status(Some(event), active, table_key, Some(text)) ==> active && (
        event matches CopyEvent::TableStatus { key, message: Some(m) } && key@ == table_key && m@
            == text),
        !reports_status(Some(event), active, table_key, None),
        reports_status(None, active, table_key, Some(text)) ==> !active,
{
}

/// No file waits once as many are settled as are known, or more. A file that
/// failed does not wait.
pub proof fn nothing_waits_once_all_is_settled(progress: TableProgress)
    requires
        progress.copied + progress.skipped + progress.failed >= progress.total,
    ensures
        progress.queued() == 0,
{
}

} // verus!
