//! The copy of all tables of a namespace.
use vstd::prelude::*;

use crate::cli::{CopyArgs, Scope};
use crate::copy::table::TableStats;
use crate::iceberg::layout::{
    join, joined, joined_path_ends_with_its_name, last_part, last_segment,
};
use crate::order::texts;
use crate::s3_url::S3Location;
use crate::text::repeated;

verus! {

/// The name of a namespace for display: the last segment of its prefix.
pub open spec fn label_of(prefix: Seq<char>) -> Seq<char> {
    match last_part(prefix) {
        Some(name) => name,
        None => prefix,
    }
}

pub fn namespace_label(prefix: &str) -> (r: String)
    ensures
        r@ == label_of(prefix@),
{
    match last_segment(prefix) {
        Some(name) => name.to_owned(),
        None => prefix.to_owned(),
    }
}

/// How many tables may copy files, or files be read, at the same time: one at
/// least, whatever was asked for.
pub fn at_least_one(parallel: usize) -> (r: usize)
    ensures
        r == if parallel == 0 {
            1
        } else {
            parallel
        },
{
    if parallel == 0 {
        1
    } else {
        parallel
    }
}

/// What is said of a namespace without tables.
pub fn no_tables_message(from: &str) -> (r: String)
    ensures
        r@ == "no Iceberg tables found under "@ + from@
            + " — expected UUID-named subdirectories with a metadata/ folder"@,
{
    let mut out: String = "no Iceberg tables found under ".to_owned();
    out.append(from);
    out.append(" — expected UUID-named subdirectories with a metadata/ folder");
    out
}

/// One table within the copy of a namespace.
pub struct TableCopy {
    /// The prefix of the table in the source bucket.
    pub src_prefix: String,
    /// The prefix of the table in the destination bucket.
    pub dst_prefix: String,
    /// The URL of the table at the source, as it stands in metadata files.
    pub src_url: String,
    pub dst_url: String,
    pub scope: Scope,
    /// Files in flight.
    pub parallelism: usize,
    /// The key of the table in events: its UUID.
    pub table_key: String,
    pub namespace_label: String,
}

/// Is this the copy of the table?
pub open spec fn is_copy_of(
    copy: TableCopy,
    args: CopyArgs,
    src_prefix: Seq<char>,
    dst_prefix: Seq<char>,
    table: Seq<char>,
) -> bool {
    &&& copy.src_prefix@ == joined(src_prefix, table)
    &&& copy.dst_prefix@ == joined(dst_prefix, table)
    &&& copy.src_url@ == joined(args.from@, table)
    &&& copy.dst_url@ == joined(args.to@, table)
    &&& copy.scope == args.scope
    &&& copy.parallelism == args.copy_parallel
    &&& copy.table_key@ == table
    &&& copy.namespace_label@ == label_of(src_prefix)
}

/// The copies to make for the tables of a namespace.
pub fn table_copies(
    args: &CopyArgs,
    src: &S3Location,
    dst: &S3Location,
    tables: &Vec<String>,
) -> (r: Vec<TableCopy>)
    ensures
        r@.len() == tables@.len(),
        forall|i: int|
            0 <= i < tables@.len() ==> is_copy_of(
                #[trigger] r@[i],
                *args,
                src.prefix@,
                dst.prefix@,
                texts(tables@)[i],
            ),
{
    let mut out: Vec<TableCopy> = Vec::new();
    let mut i: usize = 0;
    while i < tables.len()
        invariant
            i <= tables@.len(),
            out@.len() == i,
            forall|j: int|
                0 <= j < i ==> is_copy_of(
                    #[trigger] out@[j],
                    *args,
                    src.prefix@,
                    dst.prefix@,
                    texts(tables@)[j],
                ),
        decreases tables@.len() - i,
    {
        let table = tables[i].as_str();
        out.push(
            TableCopy {
                src_prefix: join(src.prefix.as_str(), table),
                dst_prefix: join(dst.prefix.as_str(), table),
                src_url: join(args.from.as_str(), table),
                dst_url: join(args.to.as_str(), table),
                scope: args.scope,
                parallelism: args.copy_parallel,
                table_key: table.to_owned(),
                namespace_label: namespace_label(src.prefix.as_str()),
            },
        );
        i += 1;
    }
    out
}

// ---------------------------------------------------------------------------
// Waiting for the tables
// ---------------------------------------------------------------------------

/// What happened while the tables were being copied.
pub enum NamespaceEvent {
    /// The table at the prefix is done.
    TableDone { prefix: String, stats: TableStats },
    /// The copy of the table at the prefix failed.
    TableFailed { prefix: String },
    /// A table's task was cancelled.
    TaskCancelled,
    /// A table's task broke down, with this said of it.
    TaskPanicked { reason: String },
    /// No task is left.
    NoTaskLeft,
    /// The user wants to stop.
    Interrupted,
}

/// What to do then.
#[derive(Debug, Clone, Copy, PartialEq, Eq, Structural)]
pub enum NamespaceStep {
    /// Wait for the next event.
    Wait,
    /// Stop the tasks that are left and finish with what is done.
    Abandon,
    /// Finish: no table is left.
    Finish,
}

/// What the tables did that are done, and what went wrong first.
pub struct NamespaceRun {
    pub results: Vec<TableStats>,
    pub failure: Option<String>,
}

/// A run, for contracts.
#[verifier::ext_equal]
pub struct NamespaceState {
    pub results: Seq<TableStats>,
    pub failure: Option<Seq<char>>,
}

impl View for NamespaceRun {
    type V = NamespaceState;

    open spec fn view(&self) -> NamespaceState {
        NamespaceState {
            results: self.results@,
            failure: match self.failure {
                Some(text) => Some(text@),
                None => None,
            },
        }
    }
}

/// What is said of an event that is a failure.
pub open spec fn failure_text(event: NamespaceEvent) -> Option<Seq<char>> {
    match event {
        NamespaceEvent::TableFailed { prefix } => Some("table "@ + prefix@),
        NamespaceEvent::TaskPanicked { reason } => Some("table task panicked: "@ + reason@),
        _ => None,
    }
}

impl NamespaceState {
    pub open spec fn start() -> NamespaceState {
        NamespaceState { results: Seq::empty(), failure: None }
    }

    /// The run after an event: a table that is done is counted, and the
    /// first failure is kept.
    pub open spec fn next(self, event: NamespaceEvent) -> NamespaceState {
        NamespaceState {
            results: match event {
                NamespaceEvent::TableDone { stats, .. } => self.results.push(stats),
                _ => self.results,
            },
            failure: match self.failure {
                Some(text) => Some(text),
                None => failure_text(event),
            },
        }
    }

    /// The run after the events, one after the other.
    pub open spec fn after(events: Seq<NamespaceEvent>) -> NamespaceState
        decreases events.len(),
    {
        if events.len() == 0 {
            NamespaceState::start()
        } else {
            NamespaceState::after(events.drop_last()).next(events.last())
        }
    }
}

impl NamespaceRun {
    pub fn new() -> (r: NamespaceRun)
        ensures
            r@ == NamespaceState::start(),
    {
        NamespaceRun { results: Vec::new(), failure: None }
    }

    /// Goes on after an event. A table that fails does not stop the others:
    /// the failure is kept for the end. A cancelled task is passed over.
    pub fn take(&mut self, event: NamespaceEvent) -> (r: NamespaceStep)
        ensures
            final(self)@ == old(self)@.next(event),
            r == match event {
                NamespaceEvent::NoTaskLeft => NamespaceStep::Finish,
                NamespaceEvent::Interrupted => NamespaceStep::Abandon,
                _ => NamespaceStep::Wait,
            },
    {
        match event {
            NamespaceEvent::TableDone { prefix: _, stats } => {
                self.results.push(stats);
                NamespaceStep::Wait
            },
            NamespaceEvent::TableFailed { prefix } => {
                if self.failure.is_none() {
                    let mut out: String = "table ".to_owned();
                    out.append(prefix.as_str());
                    self.failure = Some(out);
                }
                NamespaceStep::Wait
            },
            NamespaceEvent::TaskCancelled => NamespaceStep::Wait,
            NamespaceEvent::TaskPanicked { reason } => {
                if self.failure.is_none() {
                    let mut out: String = "table task panicked: ".to_owned();
                    out.append(reason.as_str());
                    self.failure = Some(out);
                }
                NamespaceStep::Wait
            },
            NamespaceEvent::NoTaskLeft => NamespaceStep::Finish,
            NamespaceEvent::Interrupted => NamespaceStep::Abandon,
        }
    }

    /// The end of a run: what the tables did, or the first failure if there
    /// was one.
    pub fn finish(self) -> (r: Result<Vec<TableStats>, String>)
        ensures
            match r {
                Ok(results) => self@.failure is None && results@ == self@.results,
                Err(text) => self@.failure == Some(text@),
            },
    {
        match self.failure {
            Some(text) => Err(text),
            None => Ok(self.results),
        }
    }
}

/// A table that fails does not stop its siblings: every table that is done is
/// counted, whatever came before, and the run ends in a failure exactly if
/// there was one.
pub proof fn siblings_of_a_failed_table_are_counted(events: Seq<NamespaceEvent>)
    ensures
        forall|i: int|
            0 <= i < events.len() ==> ((#[trigger] events[i]) matches NamespaceEvent::TableDone {
                stats,
                ..
            } ==> NamespaceState::after(events).results.contains(stats)),
        NamespaceState::after(events).failure is Some <==> exists|i: int|
            0 <= i < events.len() && failure_text(#[trigger] events[i]) is Some,
    decreases events.len(),
{
    if events.len() > 0 {
        let init = events.drop_last();
        let last = events.len() - 1;
        siblings_of_a_failed_table_are_counted(init);
        let before = NamespaceState::after(init).results;
        let after = NamespaceState::after(events).results;
        assert forall|i: int| 0 <= i < events.len() implies ((
        #[trigger] events[i]) matches NamespaceEvent::TableDone { stats, .. } ==> after.contains(
            stats,
        )) by {
            if events[i] is TableDone {
                let stats = events[i]->stats;
                if i < last {
                    assert(init[i] == events[i]);
                    assert(before.contains(stats));
                    let k = choose|k: int| 0 <= k < before.len() && before[k] == stats;
                    assert(after[k] == stats);
                } else {
                    assert(after[after.len() - 1] == stats);
                }
            }
        }
        if exists|i: int| 0 <= i < init.len() && failure_text(#[trigger] init[i]) is Some {
            let i = choose|i: int| 0 <= i < init.len() && failure_text(#[trigger] init[i]) is Some;
            assert(failure_text(events[i]) is Some);
        }
        if exists|i: int| 0 <= i < events.len() && failure_text(#[trigger] events[i]) is Some {
            let i = choose|i: int|
                0 <= i < events.len() && failure_text(#[trigger] events[i]) is Some;
            if i < last {
                assert(failure_text(init[i]) is Some);
            }
        }
    }
}

/// The sums over all tables: copied, skipped, failed.
pub open spec fn sums(results: Seq<TableStats>) -> (nat, nat, nat)
    decreases results.len(),
{
    if results.len() == 0 {
        (0, 0, 0)
    } else {
        let (copied, skipped, failed) = sums(results.drop_last());
        let last = results.last();
        (copied + last.copied as nat, skipped + last.skipped as nat, failed + last.failed as nat)
    }
}

/// Do the sums fit?
pub open spec fn sums_fit(results: Seq<TableStats>) -> bool {
    let (copied, skipped, failed) = sums(results);
    copied <= u64::MAX && skipped <= u64::MAX && failed <= u64::MAX
}

/// Adds up what the tables did; `None` if a sum does not fit.
pub fn totals(results: &Vec<TableStats>) -> (r: Option<TableStats>)
    ensures
        match r {
            Some(t) => (t.copied as nat, t.skipped as nat, t.failed as nat) == sums(results@),
            None => !sums_fit(results@),
        },
{
    let mut t = TableStats { copied: 0, skipped: 0, failed: 0 };
    let mut i: usize = 0;
    proof {
        assert(results@.take(0) =~= Seq::<TableStats>::empty());
    }
    while i < results.len()
        invariant
            i <= results@.len(),
            (t.copied as nat, t.skipped as nat, t.failed as nat) == sums(results@.take(i as int)),
        decreases results@.len() - i,
    {
        proof {
            assert(results@.take(i + 1).drop_last() =~= results@.take(i as int));
            lemma_sums_grow(results@, i + 1);
        }
        let last = results[i];
        let copied: u64 = match t.copied.checked_add(last.copied) {
            Some(n) => n,
            None => return None,
        };
        let skipped: u64 = match t.skipped.checked_add(last.skipped) {
            Some(n) => n,
            None => return None,
        };
        let failed: u64 = match t.failed.checked_add(last.failed) {
            Some(n) => n,
            None => return None,
        };
        t = TableStats { copied, skipped, failed };
        i += 1;
    }
    proof {
        assert(results@.take(results@.len() as int) =~= results@);
    }
    Some(t)
}

proof fn lemma_sums_grow(results: Seq<TableStats>, n: int)
    requires
        0 <= n <= results.len(),
    ensures
        ({
            let (a, b, c) = sums(results.take(n));
            let (x, y, z) = sums(results);
            a <= x && b <= y && c <= z
        }),
    decreases results.len() - n,
{
    if n < results.len() {
        assert(results.take(n + 1).drop_last() =~= results.take(n));
        lemma_sums_grow(results, n + 1);
    } else {
        assert(results.take(n) =~= results);
    }
}

/// A namespace is shown by the name that its prefix ends with, slashes behind
/// it or not.
pub proof fn namespace_is_shown_by_its_name(dir: Seq<char>, name: Seq<char>, slashes: nat)
    requires
        name.len() > 0,
        !name.contains('/'),
    ensures
        label_of(dir + "/"@ + name + repeated('/', slashes)) == name,
        label_of(name + repeated('/', slashes)) == name,
        label_of(Seq::empty()) == Seq::<char>::empty(),
{
    joined_path_ends_with_its_name(dir, name, slashes);
    joined_path_ends_with_its_name(dir, name, 0);
    assert(repeated('/', 0) =~= Seq::<char>::empty());
}

/// A table keeps its name: at the source, at the destination and in both
/// URLs it stands under the same name, which is also its key. All tables
/// share what was asked for.
pub proof fn copy_keeps_the_name_of_the_table(
    copy: TableCopy,
    args: CopyArgs,
    src_prefix: Seq<char>,
    dst_prefix: Seq<char>,
    table: Seq<char>,
)
    requires
        is_copy_of(copy, args, src_prefix, dst_prefix, table),
    ensures
        copy.src_prefix@ == src_prefix + "/"@ + table,
        copy.dst_prefix@ == dst_prefix + "/"@ + table,
        copy.src_url@ == args.from@ + "/"@ + table,
        copy.dst_url@ == args.to@ + "/"@ + table,
        copy.table_key@ == table,
        copy.scope == args.scope,
        copy.parallelism == args.copy_parallel,
        copy.namespace_label@ == label_of(src_prefix),
{
}

/// How many tables are done.
pub open spec fn tables_done(events: Seq<NamespaceEvent>) -> nat
    decreases events.len(),
{
    if events.len() == 0 {
        0
    } else if events.last() is TableDone {
        tables_done(events.drop_last()) + 1
    } else {
        tables_done(events.drop_last())
    }
}

/// Each table that is done counts once, in the place in which it was done.
pub proof fn tables_count_as_they_are_done(events: Seq<NamespaceEvent>, i: int)
    requires
        0 <= i < events.len(),
        events[i] is TableDone,
    ensures
        NamespaceState::after(events).results.len() == tables_done(events),
        tables_done(events.take(i)) < tables_done(events),
        NamespaceState::after(events).results[tables_done(events.take(i)) as int]
            == events[i]->stats,
    decreases events.len(),
{
    let init = events.drop_last();
    lemma_results_count(events);
    lemma_results_count(init);
    if i < init.len() {
        tables_count_as_they_are_done(init, i);
        assert(init.take(i) =~= events.take(i));
    } else {
        assert(events.take(i) =~= init);
    }
}

proof fn lemma_results_count(events: Seq<NamespaceEvent>)
    ensures
        NamespaceState::after(events).results.len() == tables_done(events),
    decreases events.len(),
{
    if events.len() > 0 {
        lemma_results_count(events.drop_last());
    }
}

/// What goes wrong first is what is reported: which table failed, or what a
/// task said when it broke down. A cancelled task is no failure, nor is the
/// end or a wish to stop.
pub proof fn first_failure_is_reported(events: Seq<NamespaceEvent>, i: int)
    requires
        0 <= i < events.len(),
        forall|j: int|
            0 <= j < i ==> !((#[trigger] events[j]) is TableFailed) && !(events[j] is TaskPanicked),
    ensures
        events[i] matches NamespaceEvent::TableFailed { prefix } ==> NamespaceState::after(
            events,
        ).failure == Some("table "@ + prefix@),
        events[i] matches NamespaceEvent::TaskPanicked { reason } ==> NamespaceState::after(
            events,
        ).failure == Some("table task panicked: "@ + reason@),
        i == events.len() - 1 && !(events[i] is TableFailed) && !(events[i] is TaskPanicked)
            ==> NamespaceState::after(events).failure is None,
    decreases events.len(),
{
    let init = events.drop_last();
    if i < init.len() {
        assert(init[i] == events[i]);
        assert forall|j: int| 0 <= j < i implies !((#[trigger] init[j]) is TableFailed) && !(init[j]
            is TaskPanicked) by {
            assert(init[j] == events[j]);
        }
        first_failure_is_reported(init, i);
    } else if i > 0 {
        assert forall|j: int| 0 <= j < i implies !((#[trigger] init[j]) is TableFailed) && !(init[j]
            is TaskPanicked) by {
            assert(init[j] == events[j]);
        }
        assert(!(init[i - 1] is TableFailed));
        first_failure_is_reported(init, i - 1);
    }
}

/// The sums over the tables are the sums over any two parts of them together;
/// for one table they are its own numbers, each in its place.
pub proof fn sums_add_up(a: Seq<TableStats>, b: Seq<TableStats>, one: TableStats)
    ensures
        sums(Seq::empty()) == (0nat, 0nat, 0nat),
        sums(seq![one]) == (one.copied as nat, one.skipped as nat, one.failed as nat),
        sums(a + b).0 == sums(a).0 + sums(b).0,
        sums(a + b).1 == sums(a).1 + sums(b).1,
        sums(a + b).2 == sums(a).2 + sums(b).2,
    decreases b.len(),
{
    assert(seq![one].drop_last() =~= Seq::<TableStats>::empty());
    assert(seq![one].last() == one);
    reveal_with_fuel(sums, 2);
    if b.len() == 0 {
        assert(a + b =~= a);
    } else {
        assert((a + b).drop_last() =~= a + b.drop_last());
        sums_add_up(a, b.drop_last(), one);
    }
}

/// The sums fit exactly if each of them is a number of at most 64 bits.
pub proof fn sums_fit_in_a_word(results: Seq<TableStats>)
    ensures
        sums_fit(results) <==> sums(results).0 <= 0xffff_ffff_ffff_ffff && sums(results).1
            <= 0xffff_ffff_ffff_ffff && sums(results).2 <= 0xffff_ffff_ffff_ffff,
{
}

} // verus!
