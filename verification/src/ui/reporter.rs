//! Which events a copy reports, and the numbers of its files.
//!
//! Without a listener nothing is reported, and nothing is allocated for it.
use vstd::prelude::*;

use crate::ui::event::CopyEvent;

verus! {

/// The number of a file copy in the events about it.
pub type FileToken = u64;

/// Makes the events of a copy.
pub struct Reporter {
    active: bool,
    next_file_id: u64,
}

/// What a reporter knows.
pub struct ReporterState {
    /// Is there a listener?
    pub active: bool,
    /// The number of the next file.
    pub next_file_id: u64,
}

impl View for Reporter {
    type V = ReporterState;

    closed spec fn view(&self) -> ReporterState {
        ReporterState { active: self.active, next_file_id: self.next_file_id }
    }
}

impl Reporter {
    /// A reporter without a listener.
    pub fn plain() -> (r: Reporter)
        ensures
            !r@.active,
    {
        Reporter { active: false, next_file_id: 1 }
    }

    /// A reporter with a listener. Files are numbered from 1 on.
    pub fn channel() -> (r: Reporter)
        ensures
            r@ == (ReporterState { active: true, next_file_id: 1 }),
    {
        Reporter { active: true, next_file_id: 1 }
    }

    /// Is there a listener?
    pub fn is_active(&self) -> (r: bool)
        ensures
            r == self@.active,
    {
        self.active
    }

    /// Passes the event on if there is a listener.
    pub fn send(&self, event: CopyEvent) -> (r: Option<CopyEvent>)
        ensures
            r == if self@.active {
                Some(event)
            } else {
                None
            },
    {
        if self.active {
            Some(event)
        } else {
            None
        }
    }

    pub fn table_started(&self, key: &str, namespace: &str, table: &str) -> (r: Option<CopyEvent>)
        ensures
            r is Some == self@.active,
            r matches Some(event) ==> (event matches CopyEvent::TableStarted {
                key: k,
                namespace: n,
                table: t,
            } && k@ == key@ && n@ == namespace@ && t@ == table@),
    {
        if !self.active {
            return None;
        }
        self.send(
            CopyEvent::TableStarted {
                key: key.to_owned(),
                namespace: namespace.to_owned(),
                table: table.to_owned(),
            },
        )
    }

    pub fn table_queue_changed(&self, key: &str, queued: u64, copied: u64, skipped: u64) -> (r:
        Option<CopyEvent>)
        ensures
            r is Some == self@.active,
            r matches Some(event) ==> (event matches CopyEvent::TableQueueChanged {
                key: k,
                queued: q,
                copied: c,
                skipped: s,
            } && k@ == key@ && q == queued && c == copied && s == skipped),
    {
        if !self.active {
            return None;
        }
        self.send(CopyEvent::TableQueueChanged { key: key.to_owned(), queued, copied, skipped })
    }

    pub fn table_finished(&self, key: &str) -> (r: Option<CopyEvent>)
        ensures
            r is Some == self@.active,
            r matches Some(event) ==> (event matches CopyEvent::TableFinished { key: k } && k@
                == key@),
    {
        if !self.active {
            return None;
        }
        self.send(CopyEvent::TableFinished { key: key.to_owned() })
    }

    pub fn table_status(&self, key: &str, message: &str) -> (r: Option<CopyEvent>)
        ensures
            r is Some == self@.active,
            r matches Some(event) ==> (event matches CopyEvent::TableStatus {
                key: k,
                message: Some(m),
            } && k@ == key@ && m@ == message@),
    {
        if !self.active {
            return None;
        }
        self.send(CopyEvent::TableStatus { key: key.to_owned(), message: Some(message.to_owned()) })
    }

    pub fn global_status(&self, message: &str) -> (r: Option<CopyEvent>)
        ensures
            r is Some == self@.active,
            r matches Some(event) ==> (event matches CopyEvent::GlobalStatus { message: Some(m) }
                && m@ == message@),
    {
        if !self.active {
            return None;
        }
        self.send(CopyEvent::GlobalStatus { message: Some(message.to_owned()) })
    }

    pub fn clear_global_status(&self) -> (r: Option<CopyEvent>)
        ensures
            r is Some == self@.active,
            r matches Some(event) ==> event == (CopyEvent::GlobalStatus { message: None }),
    {
        self.send(CopyEvent::GlobalStatus { message: None })
    }

    /// Numbers a file copy and announces its start. Without a listener the
    /// number is always 0.
    pub fn file_started(&mut self, table_key: &str, name: &str, total_bytes: u64) -> (r: (
        FileToken,
        Option<CopyEvent>,
    ))
        ensures
            final(self)@.active == old(self)@.active,
            !old(self)@.active ==> r.0 == 0 && r.1 is None && final(self)@ == old(self)@,
            old(self)@.active ==> {
                &&& r.0 == old(self)@.next_file_id
                &&& final(self)@.next_file_id == if old(self)@.next_file_id == u64::MAX {
                    0
                } else {
                    (old(self)@.next_file_id + 1) as u64
                }
                &&& r.1 matches Some(event)
                &&& event matches CopyEvent::FileStarted {
                    id,
                    table_key: k,
                    name: n,
                    total_bytes: t,
                }
                &&& id == r.0
                &&& k@ == table_key@
                &&& n@ == name@
                &&& t == total_bytes
            },
    {
        if !self.active {
            return (0, None);
        }
        let id: u64 = self.next_file_id;
        self.next_file_id = if id == u64::MAX {
            0
        } else {
            id + 1
        };
        let event = self.send(
            CopyEvent::FileStarted {
                id,
                table_key: table_key.to_owned(),
                name: name.to_owned(),
                total_bytes,
            },
        );
        (id, event)
    }

    pub fn file_progress(&self, id: FileToken, copied_bytes: u64) -> (r: Option<CopyEvent>)
        ensures
            r is Some == self@.active,
            r matches Some(event) ==> event == (CopyEvent::FileProgress { id, copied_bytes }),
    {
        self.send(CopyEvent::FileProgress { id, copied_bytes })
    }

    pub fn file_finished(&self, id: FileToken) -> (r: Option<CopyEvent>)
        ensures
            r is Some == self@.active,
            r matches Some(event) ==> event == (CopyEvent::FileFinished { id }),
    {
        self.send(CopyEvent::FileFinished { id })
    }

    /// The last event.
    pub fn done(&self) -> (r: Option<CopyEvent>)
        ensures
            r is Some == self@.active,
            r matches Some(event) ==> event == CopyEvent::Done,
    {
        self.send(CopyEvent::Done)
    }
}

} // verus!
