//! The state that the display of a copy is drawn from.
use vstd::prelude::*;

use crate::text::same_text;
use crate::time::Moment;
use crate::ui::event::CopyEvent;
use crate::ui::speed::{
    lemma_total_of_recorded, lemma_total_of_shifted, total, SpeedState, SpeedTracker, NUM_BUCKETS,
};

verus! {

/// The latest that is known of a running copy.
pub struct State {
    pub started_at: Moment,
    /// Progress of each table, by its key.
    pub tables: Vec<(String, TableState)>,
    /// The file copies in flight, in the order in which they began.
    pub files: Vec<FileState>,
    /// All bytes that have come so far, of finished files and of others.
    pub overall_bytes_copied: u64,
    pub overall_copied: u64,
    pub overall_skipped: u64,
    pub overall_queued: u64,
    /// What is going on apart from any table.
    pub global_status: Option<String>,
    pub speed: SpeedTracker,
    /// The rate when it was last sampled; `None` before the first byte.
    pub cached_bytes_per_sec: Option<u64>,
}

/// Progress of one table.
pub struct TableState {
    pub namespace: String,
    pub table: String,
    pub queued: u64,
    pub copied: u64,
    pub skipped: u64,
    pub finished: bool,
    /// What the table is doing right now. Cleared when it finishes.
    pub status: Option<String>,
}

/// Progress of one file copy.
pub struct FileState {
    pub id: u64,
    pub name: String,
    pub total_bytes: u64,
    pub copied_bytes: u64,
}

// ---------------------------------------------------------------------------
// The model
// ---------------------------------------------------------------------------

pub open spec fn text_of(s: Option<String>) -> Option<Seq<char>> {
    match s {
        Some(s) => Some(s@),
        None => None,
    }
}

#[verifier::ext_equal]
pub struct TableView {
    pub namespace: Seq<char>,
    pub table: Seq<char>,
    pub queued: nat,
    pub copied: nat,
    pub skipped: nat,
    pub finished: bool,
    pub status: Option<Seq<char>>,
}

#[verifier::ext_equal]
pub struct FileView {
    pub id: u64,
    pub name: Seq<char>,
    pub total_bytes: nat,
    pub copied_bytes: nat,
}

#[verifier::ext_equal]
pub struct StateView {
    pub started_at: nat,
    pub tables: Seq<(Seq<char>, TableView)>,
    pub files: Seq<FileView>,
    pub bytes_copied: nat,
    pub copied: nat,
    pub skipped: nat,
    pub queued: nat,
    pub global_status: Option<Seq<char>>,
    pub speed: SpeedState,
    pub rate: Option<u64>,
}

impl View for TableState {
    type V = TableView;

    open spec fn view(&self) -> TableView {
        TableView {
            namespace: self.namespace@,
            table: self.table@,
            queued: self.queued as nat,
            copied: self.copied as nat,
            skipped: self.skipped as nat,
            finished: self.finished,
            status: text_of(self.status),
        }
    }
}

impl View for FileState {
    type V = FileView;

    open spec fn view(&self) -> FileView {
        FileView {
            id: self.id,
            name: self.name@,
            total_bytes: self.total_bytes as nat,
            copied_bytes: self.copied_bytes as nat,
        }
    }
}

pub open spec fn table_views(tables: Seq<(String, TableState)>) -> Seq<(Seq<char>, TableView)> {
    tables.map_values(|t: (String, TableState)| (t.0@, t.1@))
}

pub open spec fn file_views(files: Seq<FileState>) -> Seq<FileView> {
    files.map_values(|f: FileState| f@)
}

impl View for State {
    type V = StateView;

    open spec fn view(&self) -> StateView {
        StateView {
            started_at: self.started_at@,
            tables: table_views(self.tables@),
            files: file_views(self.files@),
            bytes_copied: self.overall_bytes_copied as nat,
            copied: self.overall_copied as nat,
            skipped: self.overall_skipped as nat,
            queued: self.overall_queued as nat,
            global_status: text_of(self.global_status),
            speed: self.speed@,
            rate: self.cached_bytes_per_sec,
        }
    }
}

/// The position of the table with the key; the number of tables if there is
/// none.
pub open spec fn table_at(tables: Seq<(Seq<char>, TableView)>, key: Seq<char>) -> int
    decreases tables.len(),
{
    if tables.len() == 0 || tables[0].0 == key {
        0
    } else {
        1 + table_at(tables.skip(1), key)
    }
}

/// The tables with the one with the key set to `table`, in the place of the
/// one that had the key before or else at the end.
pub open spec fn put(
    tables: Seq<(Seq<char>, TableView)>,
    key: Seq<char>,
    table: TableView,
) -> Seq<(Seq<char>, TableView)> {
    let i = table_at(tables, key);
    if i < tables.len() {
        tables.update(i, (key, table))
    } else {
        tables.push((key, table))
    }
}

/// The tables with the one with the key changed, if there is one.
pub open spec fn changed(
    tables: Seq<(Seq<char>, TableView)>,
    key: Seq<char>,
    change: spec_fn(TableView) -> TableView,
) -> Seq<(Seq<char>, TableView)> {
    let i = table_at(tables, key);
    if i < tables.len() {
        tables.update(i, (tables[i].0, change(tables[i].1)))
    } else {
        tables
    }
}

/// The position of the file with the number; the number of files if there is
/// none.
pub open spec fn file_at(files: Seq<FileView>, id: u64) -> int
    decreases files.len(),
{
    if files.len() == 0 || files[0].id == id {
        0
    } else {
        1 + file_at(files.skip(1), id)
    }
}

/// Numbers of files, over all tables.
pub struct Totals {
    pub queued: nat,
    pub copied: nat,
    pub skipped: nat,
}

impl Totals {
    /// Does each number fit a machine word?
    pub open spec fn fit(self) -> bool {
        self.queued <= u64::MAX && self.copied <= u64::MAX && self.skipped <= u64::MAX
    }
}

/// The numbers of files of all tables together.
pub open spec fn totals(tables: Seq<(Seq<char>, TableView)>) -> Totals
    decreases tables.len(),
{
    if tables.len() == 0 {
        Totals { queued: 0, copied: 0, skipped: 0 }
    } else {
        let rest = totals(tables.drop_last());
        let table = tables.last().1;
        Totals {
            queued: rest.queued + table.queued,
            copied: rest.copied + table.copied,
            skipped: rest.skipped + table.skipped,
        }
    }
}

pub open spec fn fresh_table(namespace: Seq<char>, table: Seq<char>) -> TableView {
    TableView {
        namespace,
        table,
        queued: 0,
        copied: 0,
        skipped: 0,
        finished: false,
        status: None,
    }
}

impl StateView {
    pub open spec fn start(now: nat) -> StateView {
        StateView {
            started_at: now,
            tables: Seq::empty(),
            files: Seq::empty(),
            bytes_copied: 0,
            copied: 0,
            skipped: 0,
            queued: 0,
            global_status: None,
            speed: SpeedState::start(),
            rate: None,
        }
    }

    /// How many bytes the report of a file's progress adds: those beyond the
    /// last report, none if the report is out of order.
    pub open spec fn delta(self, id: u64, copied_bytes: nat) -> nat {
        let i = file_at(self.files, id);
        if i < self.files.len() && copied_bytes > self.files[i].copied_bytes {
            (copied_bytes - self.files[i].copied_bytes) as nat
        } else {
            0
        }
    }

    pub open spec fn with_tables(self, tables: Seq<(Seq<char>, TableView)>) -> StateView {
        StateView { tables, ..self }
    }

    /// The state with its totals counted from its tables.
    pub open spec fn totalled(self) -> StateView {
        StateView {
            queued: totals(self.tables).queued,
            copied: totals(self.tables).copied,
            skipped: totals(self.tables).skipped,
            ..self
        }
    }

    /// The state after the event, which is taken in at `now`.
    pub open spec fn applied(self, event: CopyEvent, now: nat) -> StateView {
        match event {
            CopyEvent::TableStarted { key, namespace, table } => self.with_tables(
                put(self.tables, key@, fresh_table(namespace@, table@)),
            ),
            CopyEvent::TableQueueChanged { key, queued, copied, skipped } => self.with_tables(
                changed(
                    self.tables,
                    key@,
                    |t: TableView|
                        TableView {
                            queued: queued as nat,
                            copied: copied as nat,
                            skipped: skipped as nat,
                            ..t
                        },
                ),
            ).totalled(),
            CopyEvent::TableFinished { key } => self.with_tables(
                changed(
                    self.tables,
                    key@,
                    |t: TableView| TableView { finished: true, status: None, ..t },
                ),
            ),
            CopyEvent::TableStatus { key, message } => self.with_tables(
                changed(
                    self.tables,
                    key@,
                    |t: TableView| TableView { status: text_of(message), ..t },
                ),
            ),
            CopyEvent::GlobalStatus { message } => StateView {
                global_status: text_of(message),
                ..self
            },
            CopyEvent::FileStarted { id, table_key, name, total_bytes } => if file_at(
                self.files,
                id,
            ) < self.files.len() {
                self
            } else {
                StateView {
                    files: self.files.push(
                        FileView {
                            id,
                            name: name@,
                            total_bytes: total_bytes as nat,
                            copied_bytes: 0,
                        },
                    ),
                    ..self
                }
            },
            CopyEvent::FileProgress { id, copied_bytes } => {
                let i = file_at(self.files, id);
                if i < self.files.len() {
                    let delta = self.delta(id, copied_bytes as nat);
                    StateView {
                        files: self.files.update(
                            i,
                            FileView { copied_bytes: copied_bytes as nat, ..self.files[i] },
                        ),
                        bytes_copied: self.bytes_copied + delta,
                        speed: if delta > 0 {
                            self.speed.recorded(delta, now)
                        } else {
                            self.speed
                        },
                        ..self
                    }
                } else {
                    self
                }
            },
            CopyEvent::FileFinished { id } => {
                let i = file_at(self.files, id);
                if i < self.files.len() {
                    StateView { files: self.files.remove(i), ..self }
                } else {
                    self
                }
            },
            CopyEvent::Done => self,
        }
    }

    /// Do the sums that the event calls for fit?
    pub open spec fn fits(self, event: CopyEvent) -> bool {
        match event {
            CopyEvent::TableQueueChanged { .. } => totals(self.applied(event, 0).tables).fit(),
            CopyEvent::FileProgress { id, copied_bytes } => self.bytes_copied + self.delta(
                id,
                copied_bytes as nat,
            ) <= u64::MAX,
            _ => true,
        }
    }

    /// Keys and file numbers stand once each, and no more bytes count for
    /// the rate than have come at all.
    pub open spec fn wf(self) -> bool {
        &&& forall|i: int, j: int|
            0 <= i < j < self.tables.len() ==> (#[trigger] self.tables[i]).0 != (
            #[trigger] self.tables[j]).0
        &&& forall|i: int, j: int|
            0 <= i < j < self.files.len() ==> (#[trigger] self.files[i]).id != (
            #[trigger] self.files[j]).id
        &&& self.speed.recent.len() == NUM_BUCKETS
        &&& total(self.speed.recent) <= self.bytes_copied
    }
}

proof fn lemma_table_at(tables: Seq<(Seq<char>, TableView)>, key: Seq<char>, i: int)
    requires
        0 <= i <= tables.len(),
        forall|j: int| 0 <= j < i ==> (#[trigger] tables[j]).0 != key,
        i < tables.len() ==> tables[i].0 == key,
    ensures
        table_at(tables, key) == i,
    decreases tables.len(),
{
    if i > 0 {
        assert(tables[0].0 != key);
        let rest = tables.skip(1);
        assert forall|j: int| 0 <= j < i - 1 implies (#[trigger] rest[j]).0 != key by {
            assert(rest[j] == tables[j + 1]);
        }
        lemma_table_at(rest, key, i - 1);
    }
}

proof fn lemma_table_found(tables: Seq<(Seq<char>, TableView)>, key: Seq<char>)
    ensures
        0 <= table_at(tables, key) <= tables.len(),
        forall|j: int| 0 <= j < table_at(tables, key) ==> (#[trigger] tables[j]).0 != key,
        table_at(tables, key) < tables.len() ==> tables[table_at(tables, key)].0 == key,
    decreases tables.len(),
{
    if tables.len() > 0 && tables[0].0 != key {
        let rest = tables.skip(1);
        lemma_table_found(rest, key);
        assert forall|j: int| 0 <= j < table_at(tables, key) implies (#[trigger] tables[j]).0
            != key by {
            if j > 0 {
                assert(rest[j - 1] == tables[j]);
            }
        }
    }
}

proof fn lemma_file_at(files: Seq<FileView>, id: u64, i: int)
    requires
        0 <= i <= files.len(),
        forall|j: int| 0 <= j < i ==> (#[trigger] files[j]).id != id,
        i < files.len() ==> files[i].id == id,
    ensures
        file_at(files, id) == i,
    decreases files.len(),
{
    if i > 0 {
        assert(files[0].id != id);
        let rest = files.skip(1);
        assert forall|j: int| 0 <= j < i - 1 implies (#[trigger] rest[j]).id != id by {
            assert(rest[j] == files[j + 1]);
        }
        lemma_file_at(rest, id, i - 1);
    }
}

proof fn lemma_totals_grow(tables: Seq<(Seq<char>, TableView)>, i: int)
    requires
        0 <= i <= tables.len(),
    ensures
        totals(tables.take(i)).queued <= totals(tables).queued,
        totals(tables.take(i)).copied <= totals(tables).copied,
        totals(tables.take(i)).skipped <= totals(tables).skipped,
    decreases tables.len() - i,
{
    if i < tables.len() {
        lemma_totals_grow(tables.drop_last(), i);
        assert(tables.drop_last().take(i) =~= tables.take(i));
    } else {
        assert(tables.take(i) =~= tables);
    }
}

impl State {
    pub fn new(started_at: Moment) -> (r: State)
        ensures
            r@ == StateView::start(started_at@),
            r@.wf(),
    {
        let r = State {
            started_at,
            tables: Vec::new(),
            files: Vec::new(),
            overall_bytes_copied: 0,
            overall_copied: 0,
            overall_skipped: 0,
            overall_queued: 0,
            global_status: None,
            speed: SpeedTracker::new(),
            cached_bytes_per_sec: None,
        };
        proof {
            assert(r@.tables =~= Seq::<(Seq<char>, TableView)>::empty());
            assert(r@.files =~= Seq::<FileView>::empty());
            crate::ui::speed::lemma_start_is_empty();
        }
        r
    }

    /// Samples the rate, so that it falls while nothing comes.
    pub fn refresh_speed(&mut self, now: Moment)
        requires
            old(self)@.wf(),
        ensures
            final(self)@.wf(),
            final(self)@ == (StateView {
                speed: old(self)@.speed.advanced(now@),
                rate: match old(self)@.speed.rate(now@) {
                    Some(rate) => Some(rate as u64),
                    None => None,
                },
                ..old(self)@
            }),
    {
        proof {
            let speed = self.speed@;
            if speed.bucket_at(now@) > speed.last {
                lemma_total_of_shifted(speed, (speed.bucket_at(now@) - speed.last) as nat);
            }
        }
        self.cached_bytes_per_sec = self.speed.bytes_per_sec(now);
    }

    /// The position of the table with the key, or the number of tables.
    fn find_table(&self, key: &str) -> (r: usize)
        ensures
            r == table_at(self@.tables, key@),
            r <= self.tables@.len(),
    {
        let mut i: usize = 0;
        while i < self.tables.len()
            invariant
                i <= self.tables@.len(),
                forall|j: int| 0 <= j < i ==> (#[trigger] self@.tables[j]).0 != key@,
            ensures
                i <= self.tables@.len(),
                forall|j: int| 0 <= j < i ==> (#[trigger] self@.tables[j]).0 != key@,
                i < self.tables@.len() ==> self@.tables[i as int].0 == key@,
            decreases self.tables@.len() - i,
        {
            if same_text(self.tables[i].0.as_str(), key) {
                break;
            }
            i += 1;
        }
        proof {
            lemma_table_at(self@.tables, key@, i as int);
        }
        i
    }

    /// The position of the file with the number, or the number of files.
    fn find_file(&self, id: u64) -> (r: usize)
        ensures
            r == file_at(self@.files, id),
            r <= self.files@.len(),
    {
        let mut i: usize = 0;
        while i < self.files.len()
            invariant
                i <= self.files@.len(),
                forall|j: int| 0 <= j < i ==> (#[trigger] self@.files[j]).id != id,
            ensures
                i <= self.files@.len(),
                forall|j: int| 0 <= j < i ==> (#[trigger] self@.files[j]).id != id,
                i < self.files@.len() ==> self@.files[i as int].id == id,
            decreases self.files@.len() - i,
        {
            if self.files[i].id == id {
                break;
            }
            i += 1;
        }
        proof {
            lemma_file_at(self@.files, id, i as int);
        }
        i
    }

    /// Counts the totals from the tables.
    fn recompute_totals(&mut self)
        requires
            totals(old(self)@.tables).fit(),
        ensures
            final(self)@ == old(self)@.totalled(),
    {
        let mut q: u64 = 0;
        let mut c: u64 = 0;
        let mut s: u64 = 0;
        let mut i: usize = 0;
        let ghost tables = self@.tables;
        proof {
            assert(tables.take(0) =~= Seq::<(Seq<char>, TableView)>::empty());
        }
        while i < self.tables.len()
            invariant
                i <= self.tables@.len(),
                tables == table_views(self.tables@),
                totals(tables).fit(),
                totals(tables.take(i as int)) == (Totals {
                    queued: q as nat,
                    copied: c as nat,
                    skipped: s as nat,
                }),
            decreases self.tables@.len() - i,
        {
            proof {
                assert(tables.take(i + 1).drop_last() =~= tables.take(i as int));
                assert(tables.take(i + 1).last() == tables[i as int]);
                lemma_totals_grow(tables, i + 1);
            }
            q += self.tables[i].1.queued;
            c += self.tables[i].1.copied;
            s += self.tables[i].1.skipped;
            i += 1;
        }
        proof {
            assert(tables.take(i as int) =~= tables);
        }
        self.overall_queued = q;
        self.overall_copied = c;
        self.overall_skipped = s;
    }

    /// Takes in an event.
    pub fn apply(&mut self, ev: CopyEvent, now: Moment)
        requires
            old(self)@.wf(),
            old(self)@.fits(ev),
        ensures
            final(self)@ == old(self)@.applied(ev, now@),
            final(self)@.wf(),
    {
        let ghost before = self@;
        match ev {
            CopyEvent::TableStarted { key, namespace, table } => {
                let i = self.find_table(key.as_str());
                let fresh = TableState {
                    namespace,
                    table,
                    queued: 0,
                    copied: 0,
                    skipped: 0,
                    finished: false,
                    status: None,
                };
                proof {
                    lemma_table_found(before.tables, key@);
                }
                if i < self.tables.len() {
                    self.tables[i].1 = fresh;
                } else {
                    self.tables.push((key, fresh));
                }
                proof {
                    assert(self@.tables =~= before.applied(ev, now@).tables);
                }
            },
            CopyEvent::TableQueueChanged { key, queued, copied, skipped } => {
                let i = self.find_table(key.as_str());
                if i < self.tables.len() {
                    self.tables[i].1.queued = queued;
                    self.tables[i].1.copied = copied;
                    self.tables[i].1.skipped = skipped;
                }
                proof {
                    assert(self@.tables =~= before.applied(ev, now@).tables);
                }
                self.recompute_totals();
            },
            CopyEvent::TableFinished { key } => {
                let i = self.find_table(key.as_str());
                if i < self.tables.len() {
                    self.tables[i].1.finished = true;
                    self.tables[i].1.status = None;
                }
                proof {
                    assert(self@.tables =~= before.applied(ev, now@).tables);
                }
            },
            CopyEvent::TableStatus { key, message } => {
                let i = self.find_table(key.as_str());
                if i < self.tables.len() {
                    self.tables[i].1.status = message;
                }
                proof {
                    assert(self@.tables =~= before.applied(ev, now@).tables);
                }
            },
            CopyEvent::GlobalStatus { message } => {
                self.global_status = message;
            },
            CopyEvent::FileStarted { id, name, total_bytes, .. } => {
                let i = self.find_file(id);
                proof {
                    lemma_file_found(before.files, id);
                }
                if i == self.files.len() {
                    self.files.push(FileState { id, name, total_bytes, copied_bytes: 0 });
                    proof {
                        assert(self@.files =~= before.applied(ev, now@).files);
                    }
                }
            },
            CopyEvent::FileProgress { id, copied_bytes } => {
                let i = self.find_file(id);
                if i < self.files.len() {
                    let delta: u64 = copied_bytes.saturating_sub(self.files[i].copied_bytes);
                    self.files[i].copied_bytes = copied_bytes;
                    if delta > 0 {
                        proof {
                            lemma_total_of_recorded(before.speed, delta as nat, now@);
                        }
                        self.overall_bytes_copied += delta;
                        self.speed.record(delta, now);
                    }
                    proof {
                        assert(self@.files =~= before.applied(ev, now@).files);
                    }
                }
            },
            CopyEvent::FileFinished { id } => {
                let i = self.find_file(id);
                if i < self.files.len() {
                    self.files.remove(i);
                    proof {
                        assert(self@.files =~= before.files.remove(i as int));
                    }
                }
            },
            CopyEvent::Done => {},
        }
    }
}

proof fn lemma_file_found(files: Seq<FileView>, id: u64)
    ensures
        0 <= file_at(files, id) <= files.len(),
        forall|j: int| 0 <= j < file_at(files, id) ==> (#[trigger] files[j]).id != id,
        file_at(files, id) < files.len() ==> files[file_at(files, id)].id == id,
    decreases files.len(),
{
    if files.len() > 0 && files[0].id != id {
        let rest = files.skip(1);
        lemma_file_found(rest, id);
        assert forall|j: int| 0 <= j < file_at(files, id) implies (#[trigger] files[j]).id
            != id by {
            if j > 0 {
                assert(rest[j - 1] == files[j]);
            }
        }
    }
}

// ---------------------------------------------------------------------------
// Which table stands in the header
// ---------------------------------------------------------------------------

/// The table to show in the header: of those that are not finished the one
/// with the shortest queue, the first such if there are several.
pub open spec fn featured_at(tables: Seq<(Seq<char>, TableView)>) -> Option<int>
    decreases tables.len(),
{
    if tables.len() == 0 {
        None
    } else {
        let last = tables.last().1;
        match featured_at(tables.drop_last()) {
            Some(i) => if !last.finished && last.queued < tables[i].1.queued {
                Some(tables.len() - 1)
            } else {
                Some(i)
            },
            None => if !last.finished {
                Some(tables.len() - 1)
            } else {
                None
            },
        }
    }
}

/// A finished table is never featured, and no table that is at work has a
/// shorter queue than the featured one. There is one as long as any table is
/// at work.
pub proof fn featured_table_is_closest_to_its_end(tables: Seq<(Seq<char>, TableView)>)
    ensures
        match featured_at(tables) {
            Some(i) => {
                &&& 0 <= i < tables.len()
                &&& !tables[i].1.finished
                &&& forall|j: int|
                    0 <= j < tables.len() && !(#[trigger] tables[j]).1.finished
                        ==> tables[i].1.queued <= tables[j].1.queued
            },
            None => forall|j: int| 0 <= j < tables.len() ==> (#[trigger] tables[j]).1.finished,
        },
    decreases tables.len(),
{
    if tables.len() > 0 {
        let init = tables.drop_last();
        featured_table_is_closest_to_its_end(init);
        assert forall|j: int| 0 <= j < tables.len() - 1 implies #[trigger] tables[j]
            == init[j] by {}
    }
}

impl State {
    /// The position of the table to show in the header.
    fn find_featured(&self) -> (r: Option<usize>)
        ensures
            match r {
                Some(i) => featured_at(self@.tables) == Some(i as int) && i < self.tables@.len(),
                None => featured_at(self@.tables) is None,
            },
    {
        let mut best: Option<usize> = None;
        let mut i: usize = 0;
        let ghost tables = self@.tables;
        proof {
            assert(tables.take(0) =~= Seq::<(Seq<char>, TableView)>::empty());
        }
        while i < self.tables.len()
            invariant
                i <= self.tables@.len(),
                tables == self@.tables,
                match best {
                    Some(b) => featured_at(tables.take(i as int)) == Some(b as int) && b < i,
                    None => featured_at(tables.take(i as int)) is None,
                },
            decreases self.tables@.len() - i,
        {
            proof {
                assert(tables.take(i + 1).drop_last() =~= tables.take(i as int));
                assert(tables.take(i + 1).last() == tables[i as int]);
            }
            if !self.tables[i].1.finished {
                match best {
                    Some(b) => {
                        if self.tables[i].1.queued < self.tables[b].1.queued {
                            best = Some(i);
                        }
                    },
                    None => {
                        best = Some(i);
                    },
                }
            }
            i += 1;
        }
        proof {
            assert(tables.take(i as int) =~= tables);
        }
        best
    }

    /// The table to show in the header: the one closest to its end.
    pub fn featured_table(&self) -> (r: Option<&TableState>)
        ensures
            match r {
                Some(t) => featured_at(self@.tables) matches Some(i) && t@ == self@.tables[i].1,
                None => featured_at(self@.tables) is None,
            },
    {
        match self.find_featured() {
            Some(i) => Some(&self.tables[i].1),
            None => None,
        }
    }

    /// Tests whether the sums that the event calls for fit.
    pub fn can_apply(&self, ev: &CopyEvent) -> (r: bool)
        ensures
            r == self@.fits(*ev),
    {
        match ev {
            CopyEvent::TableQueueChanged { key, queued, copied, skipped } => {
                let at = self.find_table(key.as_str());
                let mut q: u64 = 0;
                let mut c: u64 = 0;
                let mut s: u64 = 0;
                let mut i: usize = 0;
                let ghost tables = self@.applied(*ev, 0).tables;
                proof {
                    assert(tables.take(0) =~= Seq::<(Seq<char>, TableView)>::empty());
                }
                while i < self.tables.len()
                    invariant
                        i <= self.tables@.len(),
                        at == table_at(self@.tables, key@),
                        *ev == (CopyEvent::TableQueueChanged {
                            key: *key,
                            queued: *queued,
                            copied: *copied,
                            skipped: *skipped,
                        }),
                        tables == self@.applied(*ev, 0).tables,
                        tables.len() == self.tables@.len(),
                        totals(tables.take(i as int)) == (Totals {
                            queued: q as nat,
                            copied: c as nat,
                            skipped: s as nat,
                        }),
                    decreases self.tables@.len() - i,
                {
                    proof {
                        assert(tables.take(i + 1).drop_last() =~= tables.take(i as int));
                        assert(tables.take(i + 1).last() == tables[i as int]);
                        lemma_totals_grow(tables, i + 1);
                    }
                    let (dq, dc, ds): (u64, u64, u64) = if i == at {
                        (*queued, *copied, *skipped)
                    } else {
                        (self.tables[i].1.queued, self.tables[i].1.copied, self.tables[i].1.skipped)
                    };
                    match (q.checked_add(dq), c.checked_add(dc), s.checked_add(ds)) {
                        (Some(nq), Some(nc), Some(ns)) => {
                            q = nq;
                            c = nc;
                            s = ns;
                        },
                        _ => {
                            return false;
                        },
                    }
                    i += 1;
                }
                proof {
                    assert(tables.take(i as int) =~= tables);
                }
                true
            },
            CopyEvent::FileProgress { id, copied_bytes } => {
                let i = self.find_file(*id);
                if i < self.files.len() {
                    let delta: u64 = copied_bytes.saturating_sub(self.files[i].copied_bytes);
                    self.overall_bytes_copied.checked_add(delta).is_some()
                } else {
                    true
                }
            },
            _ => true,
        }
    }
}

// ---------------------------------------------------------------------------
// What the byte count is
// ---------------------------------------------------------------------------

/// No event takes bytes away, and none but a report of progress adds any: in
/// particular the end of a file does not count its bytes a second time.
pub proof fn only_progress_moves_the_byte_count(state: StateView, event: CopyEvent, now: nat)
    ensures
        state.applied(event, now).bytes_copied >= state.bytes_copied,
        !(event is FileProgress) ==> state.applied(event, now).bytes_copied == state.bytes_copied
            && state.applied(event, now).speed == state.speed,
{
}

/// The state after a file has reported its progress, one report after the
/// other, each taken in at its time.
pub open spec fn progressed(
    state: StateView,
    id: u64,
    reports: Seq<u64>,
    nows: Seq<nat>,
) -> StateView
    decreases reports.len(),
{
    if reports.len() == 0 {
        state
    } else {
        progressed(state, id, reports.drop_last(), nows).applied(
            CopyEvent::FileProgress { id, copied_bytes: reports.last() },
            nows[reports.len() - 1],
        )
    }
}

/// While the reports of a file do not fall, the byte count runs with them:
/// at any time it has grown by what the last report is beyond the first
/// known progress of the file.
pub proof fn byte_count_follows_progress(
    state: StateView,
    id: u64,
    reports: Seq<u64>,
    nows: Seq<nat>,
)
    requires
        file_at(state.files, id) < state.files.len(),
        reports.len() > 0,
        reports[0] >= state.files[file_at(state.files, id)].copied_bytes,
        forall|i: int, j: int| 0 <= i <= j < reports.len() ==> reports[i] <= reports[j],
    ensures
        progressed(state, id, reports, nows).bytes_copied == state.bytes_copied + reports.last()
            - state.files[file_at(state.files, id)].copied_bytes,
{
    lemma_progressed(state, id, reports, nows);
}

proof fn lemma_progressed(state: StateView, id: u64, reports: Seq<u64>, nows: Seq<nat>)
    requires
        file_at(state.files, id) < state.files.len(),
        reports.len() > 0,
        reports[0] >= state.files[file_at(state.files, id)].copied_bytes,
        forall|i: int, j: int| 0 <= i <= j < reports.len() ==> reports[i] <= reports[j],
    ensures
        progressed(state, id, reports, nows).bytes_copied == state.bytes_copied + reports.last()
            - state.files[file_at(state.files, id)].copied_bytes,
        progressed(state, id, reports, nows).files.len() == state.files.len(),
        file_at(progressed(state, id, reports, nows).files, id) == file_at(state.files, id),
        progressed(state, id, reports, nows).files[file_at(state.files, id)].copied_bytes
            == reports.last(),
    decreases reports.len(),
{
    let at = file_at(state.files, id);
    let before = progressed(state, id, reports.drop_last(), nows);
    let after = progressed(state, id, reports, nows);
    if reports.len() > 1 {
        let init = reports.drop_last();
        assert forall|i: int, j: int| 0 <= i <= j < init.len() implies init[i] <= init[j] by {
            assert(reports[i] <= reports[j]);
        }
        lemma_progressed(state, id, init, nows);
        assert(init.last() == reports[reports.len() - 2]);
        assert(reports[reports.len() - 2] <= reports[reports.len() - 1]);
    } else {
        assert(reports.drop_last() =~= Seq::<u64>::empty());
    }
    assert(file_at(before.files, id) == at);
    lemma_file_found(before.files, id);
    assert(after.files =~= before.files.update(
        at,
        FileView { copied_bytes: reports.last() as nat, ..before.files[at] },
    ));
    assert forall|j: int| 0 <= j < at implies (#[trigger] after.files[j]).id != id by {
        assert(before.files[j].id != id);
    }
    lemma_file_at(after.files, id, at);
}

// ---------------------------------------------------------------------------
// What the events do
// ---------------------------------------------------------------------------

/// A table is found by its key wherever it stands, the first one if there are
/// several; behind all tables if none has the key. So is a file by its number.
pub proof fn tables_and_files_are_found(state: StateView, key: Seq<char>, id: u64, i: int)
    ensures
        0 <= i <= state.tables.len() && (forall|j: int|
            0 <= j < i ==> (#[trigger] state.tables[j]).0 != key) && (i < state.tables.len()
            ==> state.tables[i].0 == key) ==> table_at(state.tables, key) == i,
        0 <= i <= state.files.len() && (forall|j: int|
            0 <= j < i ==> (#[trigger] state.files[j]).id != id) && (i < state.files.len()
            ==> state.files[i].id == id) ==> file_at(state.files, id) == i,
{
    lemma_table_found(state.tables, key);
    lemma_file_found(state.files, id);
    let t = table_at(state.tables, key);
    let f = file_at(state.files, id);
    if 0 <= t < i {
        assert(t < state.tables.len() ==> state.tables[t].0 == key);
    }
    if 0 <= i < t {
        assert(state.tables[i].0 != key);
    }
    if 0 <= f < i {
        assert(f < state.files.len() ==> state.files[f].id == id);
    }
    if 0 <= i < f {
        assert(state.files[i].id != id);
    }
}

/// A table that starts is at work and has no files yet, whatever was known
/// under its key before. A new one goes behind the others; no other table
/// changes.
pub proof fn started_table_begins_anew(
    state: StateView,
    key: String,
    namespace: String,
    table: String,
    now: nat,
)
    ensures
        ({
            let after = state.applied(CopyEvent::TableStarted { key, namespace, table }, now);
            let i = table_at(state.tables, key@);
            &&& after.tables.len() == if i < state.tables.len() {
                state.tables.len()
            } else {
                state.tables.len() + 1
            }
            &&& after.tables[i].0 == key@
            &&& after.tables[i].1.namespace == namespace@
            &&& after.tables[i].1.table == table@
            &&& after.tables[i].1.queued == 0
            &&& after.tables[i].1.copied == 0
            &&& after.tables[i].1.skipped == 0
            &&& !after.tables[i].1.finished
            &&& after.tables[i].1.status is None
            &&& forall|j: int|
                0 <= j < state.tables.len() && j != i ==> #[trigger] after.tables[j]
                    == state.tables[j]
            &&& after == StateView { tables: after.tables, ..state }
        }),
{
    lemma_table_found(state.tables, key@);
}

/// New counts of a table take the place of its old ones, and the totals are
/// the sums over all tables. Nothing else of any table changes.
pub proof fn new_counts_replace_the_old(
    state: StateView,
    key: String,
    queued: u64,
    copied: u64,
    skipped: u64,
    now: nat,
)
    ensures
        ({
            let after = state.applied(
                CopyEvent::TableQueueChanged { key, queued, copied, skipped },
                now,
            );
            let i = table_at(state.tables, key@);
            &&& after.tables.len() == state.tables.len()
            &&& i < state.tables.len() ==> after.tables[i] == (
                state.tables[i].0,
                TableView {
                    queued: queued as nat,
                    copied: copied as nat,
                    skipped: skipped as nat,
                    ..state.tables[i].1
                },
            )
            &&& forall|j: int|
                0 <= j < state.tables.len() && j != i ==> #[trigger] after.tables[j]
                    == state.tables[j]
            &&& after.queued == totals(after.tables).queued
            &&& after.copied == totals(after.tables).copied
            &&& after.skipped == totals(after.tables).skipped
            &&& after.files == state.files
            &&& after.global_status == state.global_status
            &&& after.rate == state.rate
        }),
{
    lemma_table_found(state.tables, key@);
}

/// A table that is finished keeps its counts, and has nothing more to say.
/// What it is doing is told until then, in the words of its last report.
/// Other tables do not change, nor does anything if the key is unknown.
pub proof fn finished_table_falls_silent(
    state: StateView,
    key: String,
    message: Option<String>,
    now: nat,
)
    ensures
        ({
            let finished = state.applied(CopyEvent::TableFinished { key }, now);
            let told = state.applied(CopyEvent::TableStatus { key, message }, now);
            let i = table_at(state.tables, key@);
            &&& finished.tables.len() == state.tables.len() && told.tables.len()
                == state.tables.len()
            &&& i < state.tables.len() ==> {
                &&& finished.tables[i].0 == state.tables[i].0
                &&& finished.tables[i].1 == TableView {
                    finished: true,
                    status: None,
                    ..state.tables[i].1
                }
                &&& told.tables[i].0 == state.tables[i].0
                &&& told.tables[i].1 == TableView {
                    status: told.tables[i].1.status,
                    ..state.tables[i].1
                }
                &&& message matches Some(text) ==> told.tables[i].1.status == Some(text@)
                &&& message is None ==> told.tables[i].1.status is None
            }
            &&& forall|j: int|
                0 <= j < state.tables.len() && j != i ==> #[trigger] finished.tables[j]
                    == state.tables[j]
            &&& forall|j: int|
                0 <= j < state.tables.len() && j != i ==> #[trigger] told.tables[j]
                    == state.tables[j]
            &&& finished == StateView { tables: finished.tables, ..state }
            &&& told == StateView { tables: told.tables, ..state }
        }),
{
    lemma_table_found(state.tables, key@);
}

/// The general status is what was last reported of it.
pub proof fn general_status_is_the_last_report(
    state: StateView,
    message: Option<String>,
    now: nat,
)
    ensures
        ({
            let after = state.applied(CopyEvent::GlobalStatus { message }, now);
            &&& message matches Some(text) ==> after.global_status == Some(text@)
            &&& message is None ==> after.global_status is None
            &&& after == StateView { global_status: after.global_status, ..state }
            &&& state.applied(CopyEvent::Done, now) == state
        }),
{
}

/// A file that begins is shown behind the others, with nothing copied yet,
/// unless its number is known. A file that ends is shown no more; the others
/// stay in their order.
pub proof fn files_come_and_go(
    state: StateView,
    id: u64,
    table_key: String,
    name: String,
    total_bytes: u64,
    now: nat,
)
    ensures
        ({
            let begun = state.applied(
                CopyEvent::FileStarted { id, table_key, name, total_bytes },
                now,
            );
            let ended = state.applied(CopyEvent::FileFinished { id }, now);
            let i = file_at(state.files, id);
            let known = i < state.files.len();
            &&& known ==> begun == state
            &&& !known ==> {
                &&& begun.files.len() == state.files.len() + 1
                &&& begun.files.drop_last() == state.files
                &&& begun.files.last().id == id
                &&& begun.files.last().name == name@
                &&& begun.files.last().total_bytes == total_bytes
                &&& begun.files.last().copied_bytes == 0
            }
            &&& begun == StateView { files: begun.files, ..state }
            &&& known ==> ended.files == state.files.take(i) + state.files.skip(i + 1)
            &&& !known ==> ended == state
            &&& ended == StateView { files: ended.files, ..state }
        }),
{
    lemma_file_found(state.files, id);
    let i = file_at(state.files, id);
    let begun = state.applied(CopyEvent::FileStarted { id, table_key, name, total_bytes }, now);
    if i < state.files.len() {
        assert(state.files.remove(i) =~= state.files.take(i) + state.files.skip(i + 1));
    } else {
        assert(begun.files.drop_last() =~= state.files);
    }
}

/// A report of progress sets what was copied of its file. What is new in it
/// counts for all bytes and for the rate; a report that falls behind the last
/// one counts for neither. A file that is not known changes nothing.
pub proof fn progress_counts_what_is_new(state: StateView, id: u64, copied_bytes: u64, now: nat)
    ensures
        ({
            let after = state.applied(CopyEvent::FileProgress { id, copied_bytes }, now);
            let i = file_at(state.files, id);
            if i < state.files.len() {
                let known = state.files[i].copied_bytes;
                &&& after.files.len() == state.files.len()
                &&& after.files[i] == FileView {
                    copied_bytes: copied_bytes as nat,
                    ..state.files[i]
                }
                &&& forall|j: int|
                    0 <= j < state.files.len() && j != i ==> #[trigger] after.files[j]
                        == state.files[j]
                &&& copied_bytes > known ==> {
                    &&& after.bytes_copied + known == state.bytes_copied + copied_bytes
                    &&& after.speed == state.speed.recorded((copied_bytes - known) as nat, now)
                }
                &&& copied_bytes <= known ==> after.bytes_copied == state.bytes_copied
                    && after.speed == state.speed
                &&& after.tables == state.tables
                &&& after.rate == state.rate
            } else {
                after == state
            }
        }),
{
    lemma_file_found(state.files, id);
}

/// The totals over the tables are those over any two parts of them together;
/// for one table they are its own numbers.
pub proof fn totals_add_up(
    a: Seq<(Seq<char>, TableView)>,
    b: Seq<(Seq<char>, TableView)>,
    one: (Seq<char>, TableView),
)
    ensures
        totals(Seq::empty()) == (Totals { queued: 0, copied: 0, skipped: 0 }),
        totals(seq![one]) == (Totals {
            queued: one.1.queued,
            copied: one.1.copied,
            skipped: one.1.skipped,
        }),
        totals(a + b).queued == totals(a).queued + totals(b).queued,
        totals(a + b).copied == totals(a).copied + totals(b).copied,
        totals(a + b).skipped == totals(a).skipped + totals(b).skipped,
    decreases b.len(),
{
    assert(seq![one].drop_last() =~= Seq::<(Seq<char>, TableView)>::empty());
    assert(seq![one].last() == one);
    reveal_with_fuel(totals, 2);
    if b.len() == 0 {
        assert(a + b =~= a);
    } else {
        assert((a + b).drop_last() =~= a + b.drop_last());
        totals_add_up(a, b.drop_last(), one);
    }
}

/// Of tables with queues of one length the first is featured.
pub proof fn first_of_equal_queues_is_featured(tables: Seq<(Seq<char>, TableView)>, j: int)
    requires
        0 <= j < tables.len(),
        !tables[j].1.finished,
    ensures
        featured_at(tables) matches Some(i) && (j < i ==> tables[i].1.queued < tables[j].1.queued),
    decreases tables.len(),
{
    let init = tables.drop_last();
    featured_table_is_closest_to_its_end(init);
    featured_table_is_closest_to_its_end(tables);
    if j < init.len() {
        assert(init[j] == tables[j]);
        first_of_equal_queues_is_featured(init, j);
        let i = featured_at(init)->0;
        assert(init[i] == tables[i]);
    }
}

/// A copy starts with nothing known and nothing counted.
pub proof fn nothing_is_known_at_the_start(now: nat)
    ensures
        ({
            let state = StateView::start(now);
            &&& state.started_at == now
            &&& state.tables.len() == 0 && state.files.len() == 0
            &&& state.bytes_copied == 0 && state.copied == 0 && state.skipped == 0 && state.queued
                == 0
            &&& state.global_status is None && state.rate is None
            &&& state.speed.rate(now) is None
            &&& state.wf()
        }),
{
    crate::ui::speed::lemma_start_is_empty();
}

/// An event is taken in unless a sum that it calls for has more than 64 bits:
/// one of the totals after new counts, or all bytes after a report of
/// progress.
pub proof fn only_sums_beyond_a_word_do_not_fit(state: StateView, event: CopyEvent)
    ensures
        !(event is TableQueueChanged) && !(event is FileProgress) ==> state.fits(event),
        event is TableQueueChanged ==> (state.fits(event) <==> {
            let after = state.applied(event, 0);
            &&& after.queued <= 0xffff_ffff_ffff_ffff
            &&& after.copied <= 0xffff_ffff_ffff_ffff
            &&& after.skipped <= 0xffff_ffff_ffff_ffff
        }),
        event is FileProgress ==> (state.fits(event) || state.bytes_copied
            <= 0xffff_ffff_ffff_ffff ==> (state.fits(event) <==> state.applied(
            event,
            0,
        ).bytes_copied <= 0xffff_ffff_ffff_ffff)),
{
    if let CopyEvent::FileProgress { id, copied_bytes } = event {
        lemma_file_found(state.files, id);
    }
}

} // verus!
