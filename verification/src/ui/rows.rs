//! The lines that show a running copy, and the summary of a finished one.
use vstd::prelude::*;

use crate::number::{digits, push_decimal};
use crate::order::{
    before, is_sorted_order, positions, sorted_names_come_in_order, sorted_order, texts,
};
use crate::text::{align_right, columns_are_filled_up, flush_right};
use crate::time::Span;
use crate::ui::copy::{
    featured_at, featured_table_is_closest_to_its_end, FileState, FileView, State, StateView,
    TableState, TableView,
};
use crate::ui::format::{
    elapsed_text, format_elapsed, format_rate, format_size, lifetime_rate, rate_text, size_text,
    truncate, truncated,
};

verus! {

/// Rows of the log panel: six lines, and a rule above and below them.
pub const LOG_LINES: u16 = 8;

/// Rows for tables: as many as copy at once by default.
pub const MAX_TABLE_ROWS: u16 = 4;

/// Rows for files. More may be in flight than the eye can scan.
pub const MAX_FILE_ROWS: u16 = 5;

/// Rows of the whole display: a header, a status line, the log, the tables
/// and the files.
pub const VIEWPORT_HEIGHT: u16 = 19;

// ---------------------------------------------------------------------------
// Header and status
// ---------------------------------------------------------------------------

/// The status to show: that of the featured table, else the general one.
pub open spec fn status_line(state: StateView) -> Seq<char> {
    let of_table = match featured_at(state.tables) {
        Some(i) => state.tables[i].1.status,
        None => None,
    };
    match (of_table, state.global_status) {
        (Some(s), _) => s,
        (None, Some(s)) => s,
        (None, None) => ""@,
    }
}

/// The status to show.
pub fn status_text(state: &State) -> (r: String)
    ensures
        r@ == status_line(state@),
{
    match state.featured_table() {
        Some(t) => {
            if let Some(s) = &t.status {
                return s.clone();
            }
        },
        None => {},
    }
    match &state.global_status {
        Some(s) => s.clone(),
        None => "".to_owned(),
    }
}

/// The parts of the header.
pub struct HeaderLine {
    pub elapsed: String,
    pub namespace: String,
    pub table: String,
    pub totals: String,
}

/// The totals in the header.
pub open spec fn totals_text(state: StateView) -> Seq<char> {
    "  ·  "@ + digits(state.copied + state.skipped) + "/"@ + digits(
        state.queued + state.copied + state.skipped,
    ) + " files  ·  "@ + size_text(state.bytes_copied) + " copied  ·  "@ + rate_text(state.rate)
}

/// Does the number of all files fit?
pub open spec fn header_fits(state: StateView) -> bool {
    state.queued + state.copied + state.skipped <= u64::MAX
}

/// Tests whether the number of all files fits.
pub fn can_head(state: &State) -> (r: bool)
    ensures
        r == header_fits(state@),
{
    match state.overall_queued.checked_add(state.overall_copied) {
        Some(n) => n.checked_add(state.overall_skipped).is_some(),
        None => false,
    }
}

/// The header at a time after the start.
pub fn header_line(state: &State, elapsed: Span) -> (r: HeaderLine)
    requires
        header_fits(state@),
    ensures
        r.elapsed@ == elapsed_text(elapsed.whole_secs()),
        r.namespace@ == match featured_at(state@.tables) {
            Some(i) => state@.tables[i].1.namespace,
            None => "—"@,
        },
        r.table@ == match featured_at(state@.tables) {
            Some(i) => state@.tables[i].1.table,
            None => "—"@,
        },
        r.totals@ == totals_text(state@),
{
    let (namespace, table) = match state.featured_table() {
        Some(t) => (t.namespace.clone(), t.table.clone()),
        None => ("—".to_owned(), "—".to_owned()),
    };
    let total: u64 = state.overall_queued + state.overall_copied + state.overall_skipped;
    let done: u64 = state.overall_copied + state.overall_skipped;
    let mut totals: String = "  ·  ".to_owned();
    push_decimal(&mut totals, done);
    totals.append("/");
    push_decimal(&mut totals, total);
    totals.append(" files  ·  ");
    totals.append(format_size(state.overall_bytes_copied).as_str());
    totals.append(" copied  ·  ");
    totals.append(format_rate(state.cached_bytes_per_sec).as_str());
    HeaderLine { elapsed: format_elapsed(elapsed), namespace, table, totals }
}

// ---------------------------------------------------------------------------
// Rows
// ---------------------------------------------------------------------------

/// The widths of the columns of a row, left to right. A blank stands on
/// either side of the bar.
pub struct RowLayout {
    pub name: u16,
    pub bar: u16,
    pub label: u16,
}

/// The columns of a row: a fifth for the name, but not less than a minimum;
/// a fixed width for the label; the rest for the bar.
pub open spec fn is_layout(r: RowLayout, width: nat, min_name: nat, label: nat) -> bool {
    let fifth = width / 5;
    let name = if fifth < min_name {
        min_name
    } else {
        fifth
    };
    &&& r.name == name
    &&& r.label == label
    &&& r.bar == if width >= name + label + 2 {
        (width - name - label - 2) as nat
    } else {
        0
    }
}

fn layout(width: u16, min_name: u16, label: u16) -> (r: RowLayout)
    ensures
        is_layout(r, width as nat, min_name as nat, label as nat),
{
    let fifth: u16 = width / 5;
    let name: u16 = if fifth < min_name {
        min_name
    } else {
        fifth
    };
    let bar: u16 = width.saturating_sub(name).saturating_sub(label).saturating_sub(2);
    RowLayout { name, bar, label }
}

/// One row of the file list.
pub enum FileRow {
    /// There is no room but for the name.
    Name(String),
    /// The name, a bar, and how many bytes of how many.
    Full { layout: RowLayout, name: String, size_label: String },
}

/// Bytes copied of all bytes, flush right.
pub open spec fn size_label_text(file: FileView) -> Seq<char> {
    flush_right(size_text(file.copied_bytes) + " / "@ + size_text(file.total_bytes), 22)
}

pub fn file_row(file: &FileState, width: u16) -> (r: FileRow)
    ensures
        match r {
            FileRow::Name(name) => width < 20 && name@ == file@.name,
            FileRow::Full { layout, name, size_label } => {
                &&& width >= 20
                &&& is_layout(layout, width as nat, 8, 22)
                &&& name@ == truncated(file@.name, layout.name as nat)
                &&& size_label@ == size_label_text(file@)
            },
        },
{
    if width < 20 {
        return FileRow::Name(file.name.clone());
    }
    let layout = layout(width, 8, 22);
    let name = truncate(file.name.as_str(), layout.name as usize);
    let mut sizes: String = format_size(file.copied_bytes);
    sizes.append(" / ");
    sizes.append(format_size(file.total_bytes).as_str());
    let size_label = align_right(sizes.as_str(), 22);
    FileRow::Full { layout, name, size_label }
}

/// What stands in the middle of a table's row.
pub enum TableBar {
    /// What the table is doing before any file is known.
    Status(String),
    /// How many files of how many are done.
    Progress { done: u64, total: u64 },
}

/// One row of the table list.
pub enum TableRow {
    /// There is no room but for the name.
    Name(String),
    /// The name, a bar or a status, and how many files of how many.
    Full { layout: RowLayout, name: String, bar: TableBar, count_label: String },
}

/// All files of a table.
pub open spec fn files_of(table: TableView) -> nat {
    table.queued + table.copied + table.skipped
}

/// Tests whether the number of all files of the table fits.
pub fn can_show(table: &TableState) -> (r: bool)
    ensures
        r == (files_of(table@) <= u64::MAX),
{
    match table.queued.checked_add(table.copied) {
        Some(n) => n.checked_add(table.skipped).is_some(),
        None => false,
    }
}

pub fn table_row(table: &TableState, width: u16) -> (r: TableRow)
    requires
        files_of(table@) <= u64::MAX,
    ensures
        match r {
            TableRow::Name(name) => width < 30 && name@ == table@.table,
            TableRow::Full { layout, name, bar, count_label } => {
                let total = files_of(table@);
                let done = table@.copied + table@.skipped;
                &&& width >= 30
                &&& is_layout(layout, width as nat, 10, 18)
                &&& name@ == truncated(table@.table, layout.name as nat)
                &&& match bar {
                    TableBar::Status(s) => total == 0 && s@ == match table@.status {
                        Some(status) => status,
                        None => "(starting)"@,
                    },
                    TableBar::Progress { done: d, total: t } => total != 0 && d == done && t
                        == total,
                }
                &&& count_label@ == if total == 0 {
                    ""@
                } else {
                    flush_right(digits(done) + "/"@ + digits(total), 18)
                }
            },
        },
{
    if width < 30 {
        return TableRow::Name(table.table.clone());
    }
    let layout = layout(width, 10, 18);
    let name = truncate(table.table.as_str(), layout.name as usize);
    let total: u64 = table.queued + table.copied + table.skipped;
    let done: u64 = table.copied + table.skipped;
    if total == 0 {
        let status = match &table.status {
            Some(s) => s.clone(),
            None => "(starting)".to_owned(),
        };
        TableRow::Full { layout, name, bar: TableBar::Status(status), count_label: "".to_owned() }
    } else {
        let mut count: String = String::new();
        push_decimal(&mut count, done);
        count.append("/");
        push_decimal(&mut count, total);
        proof {
            assert(count@ =~= digits(done as nat) + "/"@ + digits(total as nat));
        }
        let count_label = align_right(count.as_str(), 18);
        TableRow::Full { layout, name, bar: TableBar::Progress { done, total }, count_label }
    }
}

// ---------------------------------------------------------------------------
// Which tables are listed
// ---------------------------------------------------------------------------

/// The positions of the tables that are not finished.
pub open spec fn active_at(tables: Seq<(Seq<char>, TableView)>) -> Seq<int>
    decreases tables.len(),
{
    if tables.len() == 0 {
        Seq::empty()
    } else {
        let rest = active_at(tables.drop_last());
        if tables.last().1.finished {
            rest
        } else {
            rest.push(tables.len() - 1)
        }
    }
}

/// The labels of the tables at the positions.
pub open spec fn labels_at(tables: Seq<(Seq<char>, TableView)>, at: Seq<int>) -> Seq<Seq<char>> {
    at.map_values(|i: int| tables[i].1.table)
}

/// Are these the positions of all unfinished tables, by their labels?
pub open spec fn is_listing(tables: Seq<(Seq<char>, TableView)>, listed: Seq<int>) -> bool {
    let active = active_at(tables);
    exists|order: Seq<int>| #[trigger]
        is_sorted_order(labels_at(tables, active), order) && listed == order.map_values(
            |k: int| active[k],
        )
}

/// The positions of the unfinished tables in the order of their labels, so
/// that rows do not jump about while tables copy.
pub fn listed_tables(state: &State) -> (r: Vec<usize>)
    ensures
        is_listing(state@.tables, positions(r@)),
        forall|i: int| 0 <= i < r@.len() ==> #[trigger] r@[i] < state.tables@.len(),
{
    let ghost tables = state@.tables;
    let mut active: Vec<usize> = Vec::new();
    let mut labels: Vec<String> = Vec::new();
    let mut i: usize = 0;
    proof {
        assert(tables.take(0) =~= Seq::<(Seq<char>, TableView)>::empty());
        assert(positions(active@) =~= Seq::<int>::empty());
    }
    while i < state.tables.len()
        invariant
            i <= state.tables@.len(),
            tables == state@.tables,
            positions(active@) == active_at(tables.take(i as int)),
            labels@.len() == active@.len(),
            forall|k: int|
                0 <= k < active@.len() ==> #[trigger] active@[k] < state.tables@.len()
                    && labels@[k]@ == tables[active@[k] as int].1.table,
        decreases state.tables@.len() - i,
    {
        proof {
            assert(tables.take(i + 1).drop_last() =~= tables.take(i as int));
            assert(tables.take(i + 1).last() == tables[i as int]);
        }
        if !state.tables[i].1.finished {
            let ghost before = positions(active@);
            active.push(i);
            labels.push(state.tables[i].1.table.clone());
            proof {
                assert(positions(active@) =~= before.push(i as int));
            }
        }
        i += 1;
    }
    proof {
        assert(tables.take(i as int) =~= tables);
        assert(texts(labels@) =~= labels_at(tables, active_at(tables)));
    }
    let order = sorted_order(&labels);
    let mut out: Vec<usize> = Vec::new();
    let mut k: usize = 0;
    while k < order.len()
        invariant
            k <= order@.len(),
            is_sorted_order(texts(labels@), positions(order@)),
            labels@.len() == active@.len(),
            forall|k: int|
                0 <= k < active@.len() ==> #[trigger] active@[k] < state.tables@.len(),
            out@.len() == k,
            forall|j: int|
                0 <= j < k ==> #[trigger] out@[j] == active@[order@[j] as int] && out@[j]
                    < state.tables@.len(),
        decreases order@.len() - k,
    {
        proof {
            assert(positions(order@)[k as int] == order@[k as int]);
        }
        out.push(active[order[k]]);
        k += 1;
    }
    proof {
        let at = active_at(tables);
        assert forall|j: int| 0 <= j < out@.len() implies positions(out@)[j] == positions(
            order@,
        ).map_values(|k: int| at[k])[j] by {
            assert(positions(order@)[j] == order@[j]);
            assert(out@[j] == active@[order@[j] as int]);
            assert(at[order@[j] as int] == positions(active@)[order@[j] as int]);
        }
        assert(positions(out@) =~= positions(order@).map_values(|k: int| at[k]));
    }
    out
}

// ---------------------------------------------------------------------------
// Summary
// ---------------------------------------------------------------------------

/// How many files were copied and skipped.
pub open spec fn counts_text(copied: nat, skipped: nat) -> Seq<char> {
    digits(copied) + " copied, "@ + digits(skipped) + " skipped ("@ + digits(copied + skipped)
        + " total)"@
}

/// The lines on the copy as a whole. The rate is the average over the whole
/// time: the rate of the moment means nothing after the end.
pub open spec fn summary_head(state: StateView, elapsed: Span, rate: Option<u64>) -> Seq<
    Seq<char>,
> {
    seq![
        ""@,
        "Copy summary"@,
        "  Elapsed : "@ + elapsed_text(elapsed.whole_secs()),
        "  Tables  : "@ + digits(state.tables.len()),
        "  Files   : "@ + counts_text(state.copied, state.skipped),
        "  Bytes   : "@ + size_text(state.bytes_copied) + " transferred ("@ + rate_text(rate)
            + ")"@,
    ]
}

/// The line on one table.
pub open spec fn table_line(table: TableView) -> Seq<char> {
    "  "@ + table.table + "  "@ + counts_text(table.copied, table.skipped)
}

/// The average rate over a time.
pub open spec fn average(bytes: nat, secs: nat) -> Option<u64> {
    if bytes == 0 {
        None
    } else {
        Some((bytes / (if secs < 1 {
            1
        } else {
            secs
        })) as u64)
    }
}

/// The labels of all tables.
pub open spec fn all_labels(tables: Seq<(Seq<char>, TableView)>) -> Seq<Seq<char>> {
    tables.map_values(|t: (Seq<char>, TableView)| t.1.table)
}

/// Are these the lines of the summary: those on the whole, and one on each
/// table in the order of their labels?
pub open spec fn is_summary(state: StateView, elapsed: Span, lines: Seq<Seq<char>>) -> bool {
    let head = summary_head(
        state,
        elapsed,
        average(state.bytes_copied, elapsed.whole_secs()),
    );
    if state.tables.len() == 0 {
        lines == head
    } else {
        exists|order: Seq<int>| #[trigger]
            is_sorted_order(all_labels(state.tables), order) && lines == head + seq![
                ""@,
                "Tables:"@,
            ] + order.map_values(|i: int| table_line(state.tables[i].1))
    }
}

/// Do the sums in the summary fit?
pub open spec fn summary_fits(state: StateView) -> bool {
    &&& state.copied + state.skipped <= u64::MAX
    &&& forall|i: int|
        0 <= i < state.tables.len() ==> (#[trigger] state.tables[i]).1.copied
            + state.tables[i].1.skipped <= u64::MAX
}

/// Tests whether the sums in the summary fit.
pub fn can_summarise(state: &State) -> (r: bool)
    ensures
        r == summary_fits(state@),
{
    if state.overall_copied.checked_add(state.overall_skipped).is_none() {
        return false;
    }
    let mut i: usize = 0;
    while i < state.tables.len()
        invariant
            i <= state.tables@.len(),
            state@.copied + state@.skipped <= u64::MAX,
            forall|j: int|
                0 <= j < i ==> (#[trigger] state@.tables[j]).1.copied + state@.tables[j].1.skipped
                    <= u64::MAX,
        decreases state.tables@.len() - i,
    {
        let table = &state.tables[i].1;
        if table.copied.checked_add(table.skipped).is_none() {
            proof {
                assert(state@.tables[i as int].1 == table@);
            }
            return false;
        }
        i += 1;
    }
    true
}

fn push_counts(out: &mut String, copied: u64, skipped: u64)
    requires
        copied + skipped <= u64::MAX,
    ensures
        final(out)@ == old(out)@ + counts_text(copied as nat, skipped as nat),
{
    let ghost start = out@;
    push_decimal(out, copied);
    out.append(" copied, ");
    push_decimal(out, skipped);
    out.append(" skipped (");
    push_decimal(out, copied + skipped);
    out.append(" total)");
    proof {
        assert(out@ =~= start + counts_text(copied as nat, skipped as nat));
    }
}

fn head_lines(state: &State, elapsed: Span) -> (r: Vec<String>)
    requires
        summary_fits(state@),
    ensures
        texts(r@) == summary_head(
            state@,
            elapsed,
            average(state@.bytes_copied, elapsed.whole_secs()),
        ),
{
    let mut time: String = "  Elapsed : ".to_owned();
    time.append(format_elapsed(elapsed).as_str());
    let mut tables: String = "  Tables  : ".to_owned();
    push_decimal(&mut tables, state.tables.len() as u64);
    let mut files: String = "  Files   : ".to_owned();
    push_counts(&mut files, state.overall_copied, state.overall_skipped);
    let rate = lifetime_rate(state.overall_bytes_copied, elapsed);
    let mut bytes: String = "  Bytes   : ".to_owned();
    bytes.append(format_size(state.overall_bytes_copied).as_str());
    bytes.append(" transferred (");
    bytes.append(format_rate(rate).as_str());
    bytes.append(")");
    let mut out: Vec<String> = Vec::new();
    out.push("".to_owned());
    out.push("Copy summary".to_owned());
    out.push(time);
    out.push(tables);
    out.push(files);
    out.push(bytes);
    proof {
        assert(texts(out@) =~= summary_head(
            state@,
            elapsed,
            average(state@.bytes_copied, elapsed.whole_secs()),
        ));
    }
    out
}

/// The summary of a copy that took so long.
pub fn summary(state: &State, elapsed: Span) -> (r: Vec<String>)
    requires
        summary_fits(state@),
    ensures
        is_summary(state@, elapsed, texts(r@)),
{
    let mut out: Vec<String> = head_lines(state, elapsed);
    if state.tables.len() == 0 {
        return out;
    }
    let ghost head = texts(out@);
    let ghost tables = state@.tables;
    out.push("".to_owned());
    out.push("Tables:".to_owned());
    let ghost titled = head + seq![""@, "Tables:"@];
    proof {
        assert(texts(out@) =~= titled);
    }
    let mut labels: Vec<String> = Vec::new();
    let mut i: usize = 0;
    while i < state.tables.len()
        invariant
            i <= state.tables@.len(),
            labels@.len() == i,
            forall|j: int| 0 <= j < i ==> (#[trigger] labels@[j])@ == state@.tables[j].1.table,
        decreases state.tables@.len() - i,
    {
        labels.push(state.tables[i].1.table.clone());
        i += 1;
    }
    proof {
        assert(texts(labels@) =~= all_labels(tables));
    }
    let order = sorted_order(&labels);
    let ghost places = positions(order@);
    let ghost lines = places.map_values(|i: int| table_line(tables[i].1));
    let mut k: usize = 0;
    while k < order.len()
        invariant
            k <= order@.len(),
            tables == state@.tables,
            summary_fits(state@),
            places == positions(order@),
            is_sorted_order(all_labels(tables), places),
            lines == places.map_values(|i: int| table_line(tables[i].1)),
            texts(out@) == titled + lines.take(k as int),
        decreases order@.len() - k,
    {
        proof {
            assert(places[k as int] == order@[k as int]);
            assert(0 <= places[k as int] < tables.len());
        }
        let at: usize = order[k];
        let table = &state.tables[at].1;
        proof {
            assert(tables[at as int].1 == table@);
        }
        let mut line: String = "  ".to_owned();
        line.append(table.table.as_str());
        line.append("  ");
        push_counts(&mut line, table.copied, table.skipped);
        let ghost before = texts(out@);
        out.push(line);
        proof {
            assert(line@ =~= table_line(tables[at as int].1));
            assert(texts(out@) =~= before.push(line@));
            assert(lines.take(k + 1) =~= lines.take(k as int).push(lines[k as int]));
            assert(texts(out@) =~= titled + lines.take(k + 1));
        }
        k += 1;
    }
    proof {
        assert(lines.take(k as int) =~= lines);
        assert(is_sorted_order(all_labels(state@.tables), places));
    }
    out
}

// ---------------------------------------------------------------------------
// Keys
// ---------------------------------------------------------------------------

/// A key on the keyboard.
#[derive(Debug, Clone, Copy, PartialEq, Eq, Structural)]
pub enum Key {
    Char(char),
    Esc,
    Other,
}

/// Does the key, pressed with or without the control key, end the display?
pub fn is_quit_key(key: Key, control: bool) -> (r: bool)
    ensures
        r == ((key == Key::Char('c') && control) || key == Key::Char('q') || key == Key::Esc),
{
    match key {
        Key::Char(c) => (c == 'c' && control) || c == 'q',
        Key::Esc => true,
        Key::Other => false,
    }
}

/// What the featured table is doing goes before what goes on apart from any
/// table. If neither has anything to say, nothing is shown.
pub proof fn status_of_the_featured_table_goes_first(state: StateView, i: int)
    requires
        featured_at(state.tables) == Some(i),
    ensures
        state.tables[i].1.status matches Some(s) ==> status_line(state) == s,
        state.tables[i].1.status is None ==> (state.global_status matches Some(s) ==> status_line(
            state,
        ) == s),
        state.tables[i].1.status is None && state.global_status is None ==> status_line(state)
            == ""@,
{
}

/// Without a featured table the general status is shown, if there is one.
pub proof fn general_status_stands_alone(state: StateView)
    requires
        forall|i: int| 0 <= i < state.tables.len() ==> (#[trigger] state.tables[i]).1.finished,
    ensures
        state.global_status matches Some(s) ==> status_line(state) == s,
        state.global_status is None ==> status_line(state) == ""@,
{
    featured_table_is_closest_to_its_end(state.tables);
}

/// The header says how many files are settled of all that are known, how much
/// was copied and how fast it goes.
pub proof fn header_counts_settled_of_known(state: StateView, settled: nat, known: nat)
    requires
        settled == state.copied + state.skipped,
        known == settled + state.queued,
    ensures
        totals_text(state) == "  ·  "@ + digits(settled) + "/"@ + digits(known) + " files  ·  "@
            + size_text(state.bytes_copied) + " copied  ·  "@ + rate_text(state.rate),
{
}

/// A row that is wide enough is filled exactly: name, bar and label with a
/// blank on either side of the bar. The label keeps its width, and the name
/// gets a fifth of the row, but never less than its minimum.
pub proof fn columns_fill_the_row(r: RowLayout, width: nat, min_name: nat, label: nat)
    requires
        is_layout(r, width, min_name, label),
    ensures
        r.label == label,
        r.name >= min_name,
        5 * r.name <= width || r.name == min_name,
        width < 5 * (r.name + 1),
        width >= r.name + r.label + 2 ==> r.name + r.bar + r.label + 2 == width,
        width < r.name + r.label + 2 ==> r.bar == 0,
{
}

/// The label of a file ends with how much was copied of how much, and is 22
/// characters wide unless that takes more.
pub proof fn label_tells_copied_of_all(file: FileView)
    ensures
        ({
            let text = size_text(file.copied_bytes) + " / "@ + size_text(file.total_bytes);
            let label = size_label_text(file);
            &&& label.skip(label.len() - text.len()) == text
            &&& text.len() <= 22 ==> label.len() == 22
            &&& text.len() >= 22 ==> label == text
        }),
{
    let text = size_text(file.copied_bytes) + " / "@ + size_text(file.total_bytes);
    columns_are_filled_up(text, ' ', 22);
}

/// Every file of a table waits, was copied or was skipped.
pub proof fn files_wait_or_are_settled(table: TableView)
    ensures
        files_of(table) == table.queued + (table.copied + table.skipped),
{
}

proof fn lemma_active(tables: Seq<(Seq<char>, TableView)>)
    ensures
        forall|i: int| #[trigger]
            active_at(tables).contains(i) <==> 0 <= i < tables.len() && !tables[i].1.finished,
        active_at(tables).no_duplicates(),
        forall|k: int| 0 <= k < active_at(tables).len() ==> #[trigger] active_at(tables)[k]
            < tables.len(),
    decreases tables.len(),
{
    if tables.len() > 0 {
        let init = tables.drop_last();
        let last = tables.len() - 1;
        lemma_active(init);
        let rest = active_at(init);
        let all = active_at(tables);
        assert forall|i: int| #[trigger]
            all.contains(i) <==> 0 <= i < tables.len() && !tables[i].1.finished by {
            assert(rest.contains(i) <==> 0 <= i < init.len() && !init[i].1.finished);
            if rest.contains(i) {
                let k = choose|k: int| 0 <= k < rest.len() && rest[k] == i;
                assert(all[k] == i);
            }
            if all.contains(i) {
                let k = choose|k: int| 0 <= k < all.len() && all[k] == i;
                if k < rest.len() {
                    assert(rest[k] == i);
                }
            }
            if i == last && !tables[last].1.finished {
                assert(all[rest.len() as int] == last);
            }
        }
    }
}

/// Exactly the tables that are not finished are listed, each once, in the
/// order of their labels.
pub proof fn tables_at_work_are_listed_by_label(
    tables: Seq<(Seq<char>, TableView)>,
    listed: Seq<int>,
)
    requires
        is_listing(tables, listed),
    ensures
        listed.no_duplicates(),
        forall|i: int| #[trigger]
            listed.contains(i) <==> 0 <= i < tables.len() && !tables[i].1.finished,
        forall|a: int, b: int|
            0 <= a < b < listed.len() ==> !before(
                tables[#[trigger] listed[b]].1.table,
                tables[#[trigger] listed[a]].1.table,
            ),
{
    let active = active_at(tables);
    let labels = labels_at(tables, active);
    let order = choose|order: Seq<int>| #[trigger]
        is_sorted_order(labels, order) && listed == order.map_values(|k: int| active[k]);
    lemma_active(tables);
    assert forall|i: int| #[trigger]
        listed.contains(i) <==> 0 <= i < tables.len() && !tables[i].1.finished by {
        if listed.contains(i) {
            let k = choose|k: int| 0 <= k < listed.len() && listed[k] == i;
            assert(active[order[k]] == i);
            assert(active.contains(i));
        }
        if active.contains(i) {
            let k = choose|k: int| 0 <= k < active.len() && active[k] == i;
            sorted_names_come_in_order(labels, order, k);
            let j = choose|j: int| 0 <= j < order.len() && order[j] == k;
            assert(listed[j] == i);
        }
    }
    assert forall|a: int, b: int| 0 <= a < b < listed.len() implies listed[a] != listed[b]
        && !before(
        tables[#[trigger] listed[b]].1.table,
        tables[#[trigger] listed[a]].1.table,
    ) by {
        sorted_names_come_in_order(labels, order, order[a]);
        assert(order[a] != order[b]);
        assert(labels[order[a]] == tables[listed[a]].1.table);
        assert(labels[order[b]] == tables[listed[b]].1.table);
    }
}

/// The counts in the summary name the copied files, then the skipped ones,
/// then both together.
pub proof fn counts_add_up_in_the_summary(copied: nat, skipped: nat, both: nat)
    requires
        both == copied + skipped,
    ensures
        counts_text(copied, skipped) == digits(copied) + " copied, "@ + digits(skipped)
            + " skipped ("@ + digits(both) + " total)"@,
{
}

/// The average rate, times the seconds, gives the bytes again but for less
/// than one for each second. A time below a second counts as one; of nothing
/// there is no rate.
pub proof fn average_is_over_the_whole_time(bytes: u64, secs: nat)
    ensures
        average(bytes as nat, secs) is None <==> bytes == 0,
        average(bytes as nat, 0) == average(bytes as nat, 1),
        bytes > 0 && secs > 0 ==> {
            let rate = average(bytes as nat, secs)->0 as nat;
            rate * secs <= bytes < (rate + 1) * secs
        },
{
    if bytes > 0 && secs > 0 {
        let b = bytes as nat;
        assert(b / secs <= b) by (nonlinear_arith)
            requires
                secs > 0,
        ;
        assert((b / secs) * secs <= b && b < (b / secs + 1) * secs) by (nonlinear_arith)
            requires
                secs > 0,
        ;
    }
}

/// The summary of a copy: how long it took, how many tables and files there
/// were, how much was transferred and how fast; then a line on each table, in
/// the order of their labels.
pub proof fn summary_tells_of_all_tables(
    state: StateView,
    elapsed: Span,
    lines: Seq<Seq<char>>,
    i: int,
)
    requires
        is_summary(state, elapsed, lines),
        0 <= i < state.tables.len(),
    ensures
        lines.len() == 8 + state.tables.len(),
        lines[1] == "Copy summary"@,
        lines[2] == "  Elapsed : "@ + elapsed_text(elapsed.whole_secs()),
        lines[3] == "  Tables  : "@ + digits(state.tables.len()),
        lines[4] == "  Files   : "@ + counts_text(state.copied, state.skipped),
        lines[5] == "  Bytes   : "@ + size_text(state.bytes_copied) + " transferred ("@ + rate_text(
            average(state.bytes_copied, elapsed.whole_secs()),
        ) + ")"@,
        lines[7] == "Tables:"@,
        exists|k: int|
            8 <= k < lines.len() && #[trigger] lines[k] == "  "@ + state.tables[i].1.table + "  "@
                + counts_text(state.tables[i].1.copied, state.tables[i].1.skipped),
{
    let labels = all_labels(state.tables);
    let head = summary_head(state, elapsed, average(state.bytes_copied, elapsed.whole_secs()));
    let order = choose|order: Seq<int>| #[trigger]
        is_sorted_order(labels, order) && lines == head + seq![""@, "Tables:"@]
            + order.map_values(|i: int| table_line(state.tables[i].1));
    sorted_names_come_in_order(labels, order, i);
    let k = choose|k: int| 0 <= k < order.len() && order[k] == i;
    assert(lines[8 + k] == table_line(state.tables[i].1));
}

/// Without any table the summary ends behind its head.
pub proof fn summary_without_tables_is_its_head(
    state: StateView,
    elapsed: Span,
    lines: Seq<Seq<char>>,
)
    requires
        is_summary(state, elapsed, lines),
        state.tables.len() == 0,
    ensures
        lines.len() == 6,
        lines[3] == "  Tables  : "@ + digits(0),
        lines[4] == "  Files   : "@ + counts_text(state.copied, state.skipped),
{
}

/// In the summary no table stands behind one whose label comes after its own.
pub proof fn summary_lists_tables_by_label(
    state: StateView,
    elapsed: Span,
    lines: Seq<Seq<char>>,
    a: int,
    b: int,
)
    requires
        is_summary(state, elapsed, lines),
        8 <= a < b < lines.len(),
    ensures
        exists|i: int, j: int|
            0 <= i < state.tables.len() && 0 <= j < state.tables.len() && lines[a]
                == #[trigger] table_line(state.tables[i].1) && lines[b] == #[trigger] table_line(
                state.tables[j].1,
            ) && !before(state.tables[j].1.table, state.tables[i].1.table),
{
    let labels = all_labels(state.tables);
    let head = summary_head(state, elapsed, average(state.bytes_copied, elapsed.whole_secs()));
    let order = choose|order: Seq<int>| #[trigger]
        is_sorted_order(labels, order) && lines == head + seq![""@, "Tables:"@]
            + order.map_values(|i: int| table_line(state.tables[i].1));
    let i = order[a - 8];
    let j = order[b - 8];
    sorted_names_come_in_order(labels, order, i);
    assert(lines[a] == table_line(state.tables[i].1));
    assert(lines[b] == table_line(state.tables[j].1));
    assert(labels[i] == state.tables[i].1.table);
    assert(labels[j] == state.tables[j].1.table);
}

/// What is shown is a number of at most 64 bits: all files in the header, the
/// settled ones of the whole and of each table in the summary.
pub proof fn shown_numbers_fit_in_a_word(state: StateView)
    ensures
        header_fits(state) <==> state.queued + state.copied + state.skipped
            <= 0xffff_ffff_ffff_ffff,
        summary_fits(state) <==> state.copied + state.skipped <= 0xffff_ffff_ffff_ffff && forall|
            i: int,
        |
            0 <= i < state.tables.len() ==> (#[trigger] state.tables[i]).1.copied
                + state.tables[i].1.skipped <= 0xffff_ffff_ffff_ffff,
{
}

} // verus!
