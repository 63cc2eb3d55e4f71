//! The current snapshot of a table, and some before it.
use vstd::prelude::*;

use crate::clock::{utc_text, utc_time};
use crate::iceberg::ident::{uuid_text, write_uuid};
use crate::iceberg::metadata::{MetadataFile, MetadataView};
use crate::iceberg::model::{Metadata, Snapshot, Summary};
use crate::number::{decimal, digits, signed_decimal, signed_digits};
use crate::order::texts;
use crate::text::after_last;

verus! {

/// How many snapshots before the current one are shown.
pub const PREVIOUS_SNAPSHOTS_TO_SHOW: usize = 3;

/// A time in milliseconds since 1970 as text; as a number if the calendar
/// does not reach so far.
pub open spec fn timestamp_text(ms: i64) -> Seq<char> {
    match utc_text(ms) {
        Some(text) => text,
        None => signed_digits(ms as int) + " ms since epoch"@,
    }
}

/// The text for a time, given what the calendar makes of it.
pub fn timestamp_or_number(ms: i64, text: Option<String>) -> (r: String)
    ensures
        r@ == match text {
            Some(text) => text@,
            None => signed_digits(ms as int) + " ms since epoch"@,
        },
{
    match text {
        Some(text) => text,
        None => {
            let mut out: String = signed_decimal(ms);
            out.append(" ms since epoch");
            out
        },
    }
}

/// A time in milliseconds since 1970 as text.
pub fn format_timestamp(ms: i64) -> (r: String)
    ensures
        r@ == timestamp_text(ms),
{
    timestamp_or_number(ms, utc_time(ms))
}

// ---------------------------------------------------------------------------
// One snapshot
// ---------------------------------------------------------------------------

/// The position of the snapshot with the id: the last one if there are
/// several.
pub open spec fn last_snapshot_at(snapshots: Seq<Snapshot>, id: i64) -> Option<int>
    decreases snapshots.len(),
{
    if snapshots.len() == 0 {
        None
    } else if snapshots.last().snapshot_id == id {
        Some(snapshots.len() - 1)
    } else {
        last_snapshot_at(snapshots.drop_last(), id)
    }
}

/// Finds the snapshot with the id: the last one if there are several.
pub fn find_last_snapshot(snapshots: &Vec<Snapshot>, id: i64) -> (r: Option<&Snapshot>)
    ensures
        match r {
            Some(s) => {
                &&& last_snapshot_at(snapshots@, id) matches Some(i)
                &&& 0 <= i < snapshots@.len()
                &&& *s == snapshots@[i]
                &&& s.snapshot_id == id
            },
            None => last_snapshot_at(snapshots@, id) is None,
        },
{
    let mut n: usize = snapshots.len();
    proof {
        assert(snapshots@.take(n as int) =~= snapshots@);
    }
    while n > 0
        invariant
            n <= snapshots@.len(),
            last_snapshot_at(snapshots@, id) == last_snapshot_at(snapshots@.take(n as int), id),
        decreases n,
    {
        proof {
            assert(snapshots@.take(n as int).drop_last() =~= snapshots@.take(n - 1));
        }
        if snapshots[n - 1].snapshot_id == id {
            return Some(&snapshots[n - 1]);
        }
        n -= 1;
    }
    None
}

/// One line for a value, if there is one.
pub open spec fn value_line(head: Seq<char>, value: Option<Seq<char>>) -> Seq<Seq<char>> {
    match value {
        Some(v) => seq![head + v],
        None => Seq::empty(),
    }
}

/// The lines on what a snapshot changed.
pub open spec fn summary_text(summary: Summary, indent: Seq<char>) -> Seq<Seq<char>> {
    value_line(indent + "Operation         : "@, summary.value_for("operation"@)) + value_line(
        indent + "Added records     : "@,
        summary.value_for("added-records"@),
    ) + value_line(
        indent + "Deleted records   : "@,
        summary.value_for("deleted-records"@),
    ) + value_line(
        indent + "Added data files  : "@,
        summary.value_for("added-data-files"@),
    ) + value_line(
        indent + "Deleted data files: "@,
        summary.value_for("deleted-data-files"@),
    )
}

/// The lines on the snapshot with the id. It may have expired and be gone
/// from the metadata, which is said then.
pub open spec fn snapshot_text(snapshots: Seq<Snapshot>, id: i64, indent: Seq<char>) -> Seq<
    Seq<char>,
> {
    match last_snapshot_at(snapshots, id) {
        None => seq![
            indent + "ID: "@ + signed_digits(id as int) + " (expired / not in metadata)"@,
        ],
        Some(i) => seq![
            indent + "ID                : "@ + signed_digits(snapshots[i].snapshot_id as int),
            indent + "Timestamp         : "@ + timestamp_text(snapshots[i].timestamp_ms),
        ] + summary_text(snapshots[i].summary, indent),
    }
}

fn indented(indent: &str, head: &str, value: &str) -> (r: String)
    ensures
        r@ == indent@ + head@ + value@,
{
    let mut out: String = indent.to_owned();
    out.append(head);
    out.append(value);
    out
}

fn push_line(out: &mut Vec<String>, line: String)
    ensures
        texts(final(out)@) == texts(old(out)@).push(line@),
{
    let ghost before = texts(out@);
    out.push(line);
    proof {
        assert(texts(out@) =~= before.push(line@));
    }
}

fn push_value(out: &mut Vec<String>, indent: &str, head: &str, value: Option<&str>)
    ensures
        texts(final(out)@) == texts(old(out)@) + value_line(
            indent@ + head@,
            match value {
                Some(v) => Some(v@),
                None => None,
            },
        ),
{
    let ghost before = texts(out@);
    if let Some(v) = value {
        push_line(out, indented(indent, head, v));
    }
    proof {
        assert(texts(out@) =~= before + value_line(
            indent@ + head@,
            match value {
                Some(v) => Some(v@),
                None => None,
            },
        ));
    }
}

fn push_summary(out: &mut Vec<String>, summary: &Summary, indent: &str)
    ensures
        texts(final(out)@) == texts(old(out)@) + summary_text(*summary, indent@),
{
    let ghost before = texts(out@);
    push_value(out, indent, "Operation         : ", summary.get("operation"));
    push_value(out, indent, "Added records     : ", summary.get("added-records"));
    push_value(out, indent, "Deleted records   : ", summary.get("deleted-records"));
    push_value(out, indent, "Added data files  : ", summary.get("added-data-files"));
    push_value(out, indent, "Deleted data files: ", summary.get("deleted-data-files"));
    proof {
        assert(texts(out@) =~= before + summary_text(*summary, indent@));
    }
}

fn push_snapshot(out: &mut Vec<String>, snapshots: &Vec<Snapshot>, id: i64, indent: &str)
    ensures
        texts(final(out)@) == texts(old(out)@) + snapshot_text(snapshots@, id, indent@),
{
    let ghost before = texts(out@);
    match find_last_snapshot(snapshots, id) {
        None => {
            let mut line = indented(indent, "ID: ", signed_decimal(id).as_str());
            line.append(" (expired / not in metadata)");
            push_line(out, line);
        },
        Some(s) => {
            push_line(
                out,
                indented(indent, "ID                : ", signed_decimal(s.snapshot_id).as_str()),
            );
            push_line(
                out,
                indented(
                    indent,
                    "Timestamp         : ",
                    format_timestamp(s.timestamp_ms).as_str(),
                ),
            );
            push_summary(out, &s.summary, indent);
        },
    }
    proof {
        assert(texts(out@) =~= before + snapshot_text(snapshots@, id, indent@));
    }
}

/// The lines on the snapshot with the id.
pub fn snapshot_lines(snapshots: &Vec<Snapshot>, id: i64, indent: &str) -> (r: Vec<String>)
    ensures
        texts(r@) == snapshot_text(snapshots@, id, indent@),
{
    let mut out: Vec<String> = Vec::new();
    push_snapshot(&mut out, snapshots, id, indent);
    proof {
        assert(texts(out@) =~= snapshot_text(snapshots@, id, indent@));
    }
    out
}

// ---------------------------------------------------------------------------
// The chain of snapshots
// ---------------------------------------------------------------------------

/// The id of the snapshot before the one with the id, if that is known.
pub open spec fn parent_of(snapshots: Seq<Snapshot>, id: i64) -> Option<i64> {
    match last_snapshot_at(snapshots, id) {
        Some(i) => snapshots[i].parent_snapshot_id,
        None => None,
    }
}

/// The ids from a snapshot back, but no more than so many.
pub open spec fn ids_back(snapshots: Seq<Snapshot>, from: Option<i64>, most: nat) -> Seq<i64>
    decreases most,
{
    match from {
        None => Seq::empty(),
        Some(id) => if most == 0 {
            Seq::empty()
        } else {
            seq![id] + ids_back(snapshots, parent_of(snapshots, id), (most - 1) as nat)
        },
    }
}

/// The lines on several snapshots.
pub open spec fn chain_text(snapshots: Seq<Snapshot>, ids: Seq<i64>, indent: Seq<char>) -> Seq<
    Seq<char>,
>
    decreases ids.len(),
{
    if ids.len() == 0 {
        Seq::empty()
    } else {
        chain_text(snapshots, ids.drop_last(), indent) + snapshot_text(
            snapshots,
            ids.last(),
            indent,
        )
    }
}

/// The ids from a snapshot back, but no more than so many.
pub fn chain_of(snapshots: &Vec<Snapshot>, from: Option<i64>, most: usize) -> (r: Vec<i64>)
    ensures
        r@ == ids_back(snapshots@, from, most as nat),
{
    let mut ids: Vec<i64> = Vec::new();
    let mut at: Option<i64> = from;
    let mut left: usize = most;
    let mut more: bool = true;
    while more
        invariant
            ids@ + (if more {
                ids_back(snapshots@, at, left as nat)
            } else {
                Seq::empty()
            }) == ids_back(snapshots@, from, most as nat),
        decreases left, (if more {
            1nat
        } else {
            0nat
        }),
    {
        let ghost before = ids@;
        match at {
            None => {
                more = false;
                proof {
                    assert(ids@ + Seq::<i64>::empty() =~= ids@);
                }
            },
            Some(id) => {
                if left == 0 {
                    more = false;
                } else {
                    ids.push(id);
                    at = match find_last_snapshot(snapshots, id) {
                        Some(s) => s.parent_snapshot_id,
                        None => None,
                    };
                    left -= 1;
                    proof {
                        let rest = ids_back(snapshots@, parent_of(snapshots@, id), left as nat);
                        assert(before + (seq![id] + rest) =~= ids@ + rest);
                    }
                }
            },
        }
    }
    proof {
        assert(ids@ + Seq::<i64>::empty() =~= ids@);
    }
    ids
}

fn push_chain(out: &mut Vec<String>, snapshots: &Vec<Snapshot>, ids: &Vec<i64>, indent: &str)
    ensures
        texts(final(out)@) == texts(old(out)@) + chain_text(snapshots@, ids@, indent@),
{
    let ghost before = texts(out@);
    let mut i: usize = 0;
    proof {
        assert(ids@.take(0) =~= Seq::<i64>::empty());
        assert(texts(out@) =~= before + Seq::<Seq<char>>::empty());
    }
    while i < ids.len()
        invariant
            i <= ids@.len(),
            texts(out@) == before + chain_text(snapshots@, ids@.take(i as int), indent@),
        decreases ids@.len() - i,
    {
        proof {
            assert(ids@.take(i + 1).drop_last() =~= ids@.take(i as int));
        }
        push_snapshot(out, snapshots, ids[i], indent);
        i += 1;
        proof {
            assert(texts(out@) =~= before + chain_text(snapshots@, ids@.take(i as int), indent@));
        }
    }
    proof {
        assert(ids@.take(ids@.len() as int) =~= ids@);
    }
}

// ---------------------------------------------------------------------------
// The whole report
// ---------------------------------------------------------------------------

/// The lines on the metadata file.
pub open spec fn file_text(file: MetadataView, meta: Metadata) -> Seq<Seq<char>> {
    seq![
        "Metadata file    : "@ + (if file.path.len() == 0 {
            "n/a"@
        } else {
            after_last(file.path, '/')
        }),
        "Metadata version : "@ + digits(file.version as nat),
        "Metadata id      : "@ + uuid_text(file.uuid),
        "Format version   : "@ + digits(meta.format_version as nat),
    ] + value_line(
        "Table UUID       : "@,
        match meta.table_uuid {
            Some(uuid) => Some(uuid@),
            None => None,
        },
    )
}

/// The lines on the snapshots before the current one.
pub open spec fn previous_text(snapshots: Seq<Snapshot>, from: Option<i64>) -> Seq<Seq<char>> {
    let ids = ids_back(snapshots, from, PREVIOUS_SNAPSHOTS_TO_SHOW as nat);
    if ids.len() == 0 {
        seq!["  (none)"@]
    } else {
        chain_text(snapshots, ids, "  "@)
    }
}

/// The lines on the current snapshot and those before it.
pub open spec fn history_text(meta: Metadata) -> Seq<Seq<char>> {
    match meta.current_snapshot_at() {
        None => seq![""@, "No current snapshot (empty table)."@],
        Some(i) => seq![""@, "Current snapshot:"@] + snapshot_text(
            meta.snapshots@,
            meta.snapshots@[i].snapshot_id,
            "  "@,
        ) + seq![""@, "Previous snapshots:"@] + previous_text(
            meta.snapshots@,
            meta.snapshots@[i].parent_snapshot_id,
        ),
    }
}

fn push_file(out: &mut Vec<String>, file: &MetadataFile, meta: &Metadata)
    ensures
        texts(final(out)@) == texts(old(out)@) + file_text(file@, *meta),
{
    let ghost before = texts(out@);
    let name = if file.path.as_str().is_empty() {
        "n/a"
    } else {
        file.filename()
    };
    push_line(out, indented("", "Metadata file    : ", name));
    push_line(out, indented("", "Metadata version : ", decimal(file.version as u64).as_str()));
    push_line(out, indented("", "Metadata id      : ", write_uuid(file.uuid).as_str()));
    push_line(out, indented("", "Format version   : ", decimal(meta.format_version as u64).as_str()));
    let uuid = match &meta.table_uuid {
        Some(uuid) => Some(uuid.as_str()),
        None => None,
    };
    push_value(out, "", "Table UUID       : ", uuid);
    proof {
        reveal_strlit("");
        assert(""@ =~= Seq::<char>::empty());
        assert forall|s: Seq<char>| #[trigger] (""@ + s) == s by {
            assert(""@ + s =~= s);
        }
        assert(texts(out@) =~= before + file_text(file@, *meta));
    }
}

fn push_history(out: &mut Vec<String>, meta: &Metadata)
    ensures
        texts(final(out)@) == texts(old(out)@) + history_text(*meta),
{
    let ghost before = texts(out@);
    push_line(out, "".to_owned());
    let current = match meta.current_snapshot() {
        Some(s) => s,
        None => {
            push_line(out, "No current snapshot (empty table).".to_owned());
            proof {
                assert(texts(out@) =~= before + history_text(*meta));
            }
            return ;
        },
    };
    push_line(out, "Current snapshot:".to_owned());
    push_snapshot(out, &meta.snapshots, current.snapshot_id, "  ");
    push_line(out, "".to_owned());
    push_line(out, "Previous snapshots:".to_owned());
    let ids = chain_of(&meta.snapshots, current.parent_snapshot_id, PREVIOUS_SNAPSHOTS_TO_SHOW);
    if ids.len() == 0 {
        push_line(out, "  (none)".to_owned());
    } else {
        push_chain(out, &meta.snapshots, &ids, "  ");
    }
    proof {
        assert(texts(out@) =~= before + history_text(*meta));
    }
}

/// What is printed of the current snapshot and those before it.
pub fn snapshot_report(file: &MetadataFile, meta: &Metadata) -> (r: Vec<String>)
    ensures
        texts(r@) == file_text(file@, *meta) + history_text(*meta),
{
    let mut out: Vec<String> = Vec::new();
    push_file(&mut out, file, meta);
    push_history(&mut out, meta);
    proof {
        assert(texts(out@) =~= file_text(file@, *meta) + history_text(*meta));
    }
    out
}

/// No more snapshots are shown than asked for, and each is the parent of the
/// one before it.
pub proof fn shown_snapshots_follow_the_parents(
    snapshots: Seq<Snapshot>,
    from: Option<i64>,
    most: nat,
)
    ensures
        ids_back(snapshots, from, most).len() <= most,
        from matches Some(id) ==> most > 0 ==> ids_back(snapshots, from, most).len() > 0
            && ids_back(snapshots, from, most)[0] == id,
        forall|i: int|
            0 < i < ids_back(snapshots, from, most).len() ==> parent_of(
                snapshots,
                ids_back(snapshots, from, most)[i - 1],
            ) == Some(#[trigger] ids_back(snapshots, from, most)[i]),
    decreases most,
{
    if from is Some && most > 0 {
        let id = from->0;
        let next = parent_of(snapshots, id);
        shown_snapshots_follow_the_parents(snapshots, next, (most - 1) as nat);
        let rest = ids_back(snapshots, next, (most - 1) as nat);
        let all = ids_back(snapshots, from, most);
        assert(all =~= seq![id] + rest);
        assert forall|i: int| 0 < i < all.len() implies parent_of(snapshots, all[i - 1]) == Some(
            #[trigger] all[i],
        ) by {
            assert(all[i] == rest[i - 1]);
            if i > 1 {
                assert(all[i - 1] == rest[i - 2]);
            }
        }
    }
}

// ---------------------------------------------------------------------------
// What the lines say
// ---------------------------------------------------------------------------

/// Two lines with labels of one length are the same only if their labels and
/// their values are.
proof fn lemma_lines_differ(
    indent: Seq<char>,
    a: Seq<char>,
    v: Seq<char>,
    b: Seq<char>,
    w: Seq<char>,
)
    requires
        a.len() == b.len(),
        indent + a + v == indent + b + w,
    ensures
        a == b,
        v == w,
{
    let x = indent + a + v;
    let y = indent + b + w;
    let n = indent.len() as int;
    assert(x.subrange(n, n + a.len()) =~= a);
    assert(y.subrange(n, n + b.len()) =~= b);
    assert(x.skip(n + a.len()) =~= v);
    assert(y.skip(n + b.len()) =~= w);
}

/// The labels are all of one length, and no two are the same.
proof fn lemma_labels()
    ensures
        "ID                : "@.len() == 20,
        "Timestamp         : "@.len() == 20,
        "Operation         : "@.len() == 20,
        "Added records     : "@.len() == 20,
        "Deleted records   : "@.len() == 20,
        "Added data files  : "@.len() == 20,
        "Deleted data files: "@.len() == 20,
        "ID                : "@[0] == 'I',
        "Timestamp         : "@[0] == 'T',
        "Operation         : "@[0] == 'O',
        "Added records     : "@[0] == 'A',
        "Added records     : "@[6] == 'r',
        "Added data files  : "@[0] == 'A',
        "Added data files  : "@[6] == 'd',
        "Deleted records   : "@[0] == 'D',
        "Deleted records   : "@[8] == 'r',
        "Deleted data files: "@[0] == 'D',
        "Deleted data files: "@[8] == 'd',
{
    reveal_strlit("ID                : ");
    reveal_strlit("Timestamp         : ");
    reveal_strlit("Operation         : ");
    reveal_strlit("Added records     : ");
    reveal_strlit("Deleted records   : ");
    reveal_strlit("Added data files  : ");
    reveal_strlit("Deleted data files: ");
}

/// A line with one label is among the lines for another exactly if the labels
/// are the same and the value is.
proof fn lemma_value_line(
    indent: Seq<char>,
    a: Seq<char>,
    value: Option<Seq<char>>,
    b: Seq<char>,
    w: Seq<char>,
)
    requires
        a.len() == b.len(),
    ensures
        value_line(indent + a, value).contains(indent + b + w) <==> a == b && value == Some(w),
{
    let lines = value_line(indent + a, value);
    if value is Some {
        assert(lines[0] == indent + a + value->0);
        if lines.contains(indent + b + w) {
            lemma_lines_differ(indent, a, value->0, b, w);
        }
    }
}

proof fn lemma_either(a: Seq<Seq<char>>, b: Seq<Seq<char>>, x: Seq<char>)
    ensures
        (a + b).contains(x) <==> a.contains(x) || b.contains(x),
{
    if a.contains(x) {
        let i = choose|i: int| 0 <= i < a.len() && a[i] == x;
        assert((a + b)[i] == x);
    }
    if b.contains(x) {
        let i = choose|i: int| 0 <= i < b.len() && b[i] == x;
        assert((a + b)[a.len() + i] == x);
    }
    if (a + b).contains(x) {
        let i = choose|i: int| 0 <= i < (a + b).len() && (a + b)[i] == x;
        if i < a.len() {
            assert(a[i] == x);
        } else {
            assert(b[i - a.len()] == x);
        }
    }
}

/// Which line with a label of that length is among the lines on a snapshot.
proof fn lemma_snapshot_line(
    snapshots: Seq<Snapshot>,
    i: int,
    indent: Seq<char>,
    label: Seq<char>,
    w: Seq<char>,
)
    requires
        0 <= i < snapshots.len(),
        last_snapshot_at(snapshots, snapshots[i].snapshot_id) == Some(i),
        label.len() == 20,
    ensures
        snapshot_text(snapshots, snapshots[i].snapshot_id, indent).contains(indent + label + w)
            <==> {
            let summary = snapshots[i].summary@;
            ||| label == "ID                : "@ && w == signed_digits(
                snapshots[i].snapshot_id as int,
            )
            ||| label == "Timestamp         : "@ && w == timestamp_text(snapshots[i].timestamp_ms)
            ||| label == "Operation         : "@ && summary.contains_key("operation"@)
                && summary["operation"@] == w
            ||| label == "Added records     : "@ && summary.contains_key("added-records"@)
                && summary["added-records"@] == w
            ||| label == "Deleted records   : "@ && summary.contains_key("deleted-records"@)
                && summary["deleted-records"@] == w
            ||| label == "Added data files  : "@ && summary.contains_key("added-data-files"@)
                && summary["added-data-files"@] == w
            ||| label == "Deleted data files: "@ && summary.contains_key("deleted-data-files"@)
                && summary["deleted-data-files"@] == w
        },
{
    lemma_labels();
    let s = snapshots[i];
    let x = indent + label + w;
    let head = seq![
        indent + "ID                : "@ + signed_digits(s.snapshot_id as int),
        indent + "Timestamp         : "@ + timestamp_text(s.timestamp_ms),
    ];
    let l1 = value_line(indent + "Operation         : "@, s.summary.value_for("operation"@));
    let l2 = value_line(indent + "Added records     : "@, s.summary.value_for("added-records"@));
    let l3 = value_line(
        indent + "Deleted records   : "@,
        s.summary.value_for("deleted-records"@),
    );
    let l4 = value_line(
        indent + "Added data files  : "@,
        s.summary.value_for("added-data-files"@),
    );
    let l5 = value_line(
        indent + "Deleted data files: "@,
        s.summary.value_for("deleted-data-files"@),
    );
    lemma_either(head, l1 + l2 + l3 + l4 + l5, x);
    lemma_either(l1 + l2 + l3 + l4, l5, x);
    lemma_either(l1 + l2 + l3, l4, x);
    lemma_either(l1 + l2, l3, x);
    lemma_either(l1, l2, x);
    let summary = s.summary;
    lemma_value_line(
        indent,
        "Operation         : "@,
        summary.value_for("operation"@),
        label,
        w,
    );
    lemma_value_line(
        indent,
        "Added records     : "@,
        summary.value_for("added-records"@),
        label,
        w,
    );
    lemma_value_line(
        indent,
        "Deleted records   : "@,
        summary.value_for("deleted-records"@),
        label,
        w,
    );
    lemma_value_line(
        indent,
        "Added data files  : "@,
        summary.value_for("added-data-files"@),
        label,
        w,
    );
    lemma_value_line(
        indent,
        "Deleted data files: "@,
        summary.value_for("deleted-data-files"@),
        label,
        w,
    );
    assert(head[0] == indent + "ID                : "@ + signed_digits(s.snapshot_id as int));
    assert(head[1] == indent + "Timestamp         : "@ + timestamp_text(s.timestamp_ms));
    if head.contains(x) {
        if head[0] == x {
            lemma_lines_differ(
                indent,
                "ID                : "@,
                signed_digits(s.snapshot_id as int),
                label,
                w,
            );
        } else {
            lemma_lines_differ(
                indent,
                "Timestamp         : "@,
                timestamp_text(s.timestamp_ms),
                label,
                w,
            );
        }
    }
}

/// Each line on a snapshot carries the value under its own key: there is a
/// line with a label and a value exactly if the summary of the snapshot has
/// the value under the key for that label. The snapshot is the last one with
/// the id.
pub proof fn labelled_lines_carry_their_values(
    snapshots: Seq<Snapshot>,
    i: int,
    indent: Seq<char>,
    v: Seq<char>,
)
    requires
        0 <= i < snapshots.len(),
        forall|j: int|
            i < j < snapshots.len() ==> (#[trigger] snapshots[j]).snapshot_id
                != snapshots[i].snapshot_id,
    ensures
        ({
            let lines = snapshot_text(snapshots, snapshots[i].snapshot_id, indent);
            let summary = snapshots[i].summary@;
            &&& lines.contains(indent + "Operation         : "@ + v) <==> summary.contains_key(
                "operation"@,
            ) && summary["operation"@] == v
            &&& lines.contains(indent + "Added records     : "@ + v) <==> summary.contains_key(
                "added-records"@,
            ) && summary["added-records"@] == v
            &&& lines.contains(indent + "Deleted records   : "@ + v) <==> summary.contains_key(
                "deleted-records"@,
            ) && summary["deleted-records"@] == v
            &&& lines.contains(indent + "Added data files  : "@ + v) <==> summary.contains_key(
                "added-data-files"@,
            ) && summary["added-data-files"@] == v
            &&& lines.contains(indent + "Deleted data files: "@ + v) <==> summary.contains_key(
                "deleted-data-files"@,
            ) && summary["deleted-data-files"@] == v
            &&& lines.contains(indent + "ID                : "@ + v) <==> v == signed_digits(
                snapshots[i].snapshot_id as int,
            )
            &&& lines.contains(indent + "Timestamp         : "@ + v) <==> v == timestamp_text(
                snapshots[i].timestamp_ms,
            )
            &&& lines.len() <= 7
        }),
{
    lemma_labels();
    lemma_last_snapshot_at_is(snapshots, i);
    lemma_snapshot_line(snapshots, i, indent, "Operation         : "@, v);
    lemma_snapshot_line(snapshots, i, indent, "Added records     : "@, v);
    lemma_snapshot_line(snapshots, i, indent, "Deleted records   : "@, v);
    lemma_snapshot_line(snapshots, i, indent, "Added data files  : "@, v);
    lemma_snapshot_line(snapshots, i, indent, "Deleted data files: "@, v);
    lemma_snapshot_line(snapshots, i, indent, "ID                : "@, v);
    lemma_snapshot_line(snapshots, i, indent, "Timestamp         : "@, v);
}

proof fn lemma_last_snapshot_at_is(snapshots: Seq<Snapshot>, i: int)
    requires
        0 <= i < snapshots.len(),
        forall|j: int|
            i < j < snapshots.len() ==> (#[trigger] snapshots[j]).snapshot_id
                != snapshots[i].snapshot_id,
    ensures
        last_snapshot_at(snapshots, snapshots[i].snapshot_id) == Some(i),
    decreases snapshots.len(),
{
    if i < snapshots.len() - 1 {
        let init = snapshots.drop_last();
        assert(snapshots[snapshots.len() - 1].snapshot_id != snapshots[i].snapshot_id);
        assert forall|j: int| i < j < init.len() implies (#[trigger] init[j]).snapshot_id
            != init[i].snapshot_id by {
            assert(init[j] == snapshots[j]);
        }
        lemma_last_snapshot_at_is(init, i);
    }
}

/// A snapshot is found by its id exactly if there is one, and then the last.
pub proof fn last_snapshot_with_the_id_is_found(snapshots: Seq<Snapshot>, id: i64)
    ensures
        match last_snapshot_at(snapshots, id) {
            Some(i) => {
                &&& 0 <= i < snapshots.len()
                &&& snapshots[i].snapshot_id == id
                &&& forall|j: int|
                    i < j < snapshots.len() ==> (#[trigger] snapshots[j]).snapshot_id != id
            },
            None => forall|j: int|
                0 <= j < snapshots.len() ==> (#[trigger] snapshots[j]).snapshot_id != id,
        },
    decreases snapshots.len(),
{
    if snapshots.len() > 0 && snapshots.last().snapshot_id != id {
        let init = snapshots.drop_last();
        last_snapshot_with_the_id_is_found(init, id);
        assert forall|j: int|
            0 <= j < snapshots.len() && (last_snapshot_at(init, id) matches Some(i) ==> i
                < j) implies (#[trigger] snapshots[j]).snapshot_id != id by {
            if j < init.len() {
                assert(init[j] == snapshots[j]);
            }
        }
    }
}

/// A snapshot that is not in the metadata is shown as gone, with its id.
pub proof fn missing_snapshot_is_shown_as_gone(
    snapshots: Seq<Snapshot>,
    id: i64,
    indent: Seq<char>,
)
    requires
        forall|j: int| 0 <= j < snapshots.len() ==> (#[trigger] snapshots[j]).snapshot_id != id,
    ensures
        snapshot_text(snapshots, id, indent).len() == 1,
        snapshot_text(snapshots, id, indent)[0] == indent + "ID: "@ + signed_digits(id as int)
            + " (expired / not in metadata)"@,
{
    last_snapshot_with_the_id_is_found(snapshots, id);
}

/// The report names the file without its directory, its version and id as
/// they are, the format version, and the UUID of the table if it has one.
pub proof fn report_is_on_the_file(file: MetadataView, meta: Metadata)
    ensures
        ({
            let lines = file_text(file, meta);
            &&& lines.len() == if meta.table_uuid is Some {
                5int
            } else {
                4int
            }
            &&& file.path.len() > 0 ==> lines[0] == "Metadata file    : "@ + after_last(
                file.path,
                '/',
            )
            &&& file.path.len() == 0 ==> lines[0] == "Metadata file    : n/a"@
            &&& lines[1] == "Metadata version : "@ + digits(file.version as nat)
            &&& lines[2] == "Metadata id      : "@ + uuid_text(file.uuid)
            &&& lines[3] == "Format version   : "@ + digits(meta.format_version as nat)
            &&& meta.table_uuid matches Some(uuid) ==> lines[4] == "Table UUID       : "@ + uuid@
        }),
{
    reveal_strlit("Metadata file    : ");
    reveal_strlit("Metadata file    : n/a");
    reveal_strlit("n/a");
    assert("Metadata file    : "@ + "n/a"@ =~= "Metadata file    : n/a"@);
}

/// The report shows the current snapshot in full, behind the file, and behind
/// it up to three snapshots, each the parent of the one before; that a table
/// has no current snapshot, or that one has no parent, is said.
pub proof fn report_goes_back_from_the_current_snapshot(meta: Metadata)
    ensures
        ({
            let lines = history_text(meta);
            &&& lines.len() > 1
            &&& lines[0] == ""@
            &&& match meta.current_snapshot_at() {
                None => lines == seq![""@, "No current snapshot (empty table)."@],
                Some(i) => {
                    let s = meta.snapshots@[i];
                    let shown = snapshot_text(meta.snapshots@, s.snapshot_id, "  "@);
                    let n = shown.len() as int;
                    &&& lines.len() > n + 4
                    &&& lines[1] == "Current snapshot:"@
                    &&& lines.subrange(2, n + 2) == shown
                    &&& lines[n + 2] == ""@
                    &&& lines[n + 3] == "Previous snapshots:"@
                    &&& lines.skip(n + 4) == previous_text(meta.snapshots@, s.parent_snapshot_id)
                    &&& s.parent_snapshot_id is None ==> lines.skip(n + 4) == seq!["  (none)"@]
                    &&& s.parent_snapshot_id matches Some(parent) ==> {
                        let before = snapshot_text(meta.snapshots@, parent, "  "@);
                        &&& lines.len() >= n + 4 + before.len()
                        &&& lines.subrange(n + 4, n + 4 + before.len()) == before
                    }
                },
            }
        }),
{
    let lines = history_text(meta);
    if meta.current_snapshot_at() is Some {
        let s = meta.snapshots@[meta.current_snapshot_at()->0];
        let shown = snapshot_text(meta.snapshots@, s.snapshot_id, "  "@);
        let n = shown.len() as int;
        let rest = previous_text(meta.snapshots@, s.parent_snapshot_id);
        assert(lines.subrange(2, n + 2) =~= shown);
        assert(lines.skip(n + 4) =~= rest);
        let ids = ids_back(
            meta.snapshots@,
            s.parent_snapshot_id,
            PREVIOUS_SNAPSHOTS_TO_SHOW as nat,
        );
        if s.parent_snapshot_id is Some {
            let parent = s.parent_snapshot_id->0;
            let before = snapshot_text(meta.snapshots@, parent, "  "@);
            shown_snapshots_follow_the_parents(
                meta.snapshots@,
                s.parent_snapshot_id,
                PREVIOUS_SNAPSHOTS_TO_SHOW as nat,
            );
            lemma_chain_begins(meta.snapshots@, ids, "  "@);
            assert(rest.take(before.len() as int) =~= lines.subrange(
                n + 4,
                n + 4 + before.len(),
            ));
        }
        assert(rest.len() > 0);
    }
}

proof fn lemma_chain_begins(snapshots: Seq<Snapshot>, ids: Seq<i64>, indent: Seq<char>)
    requires
        ids.len() > 0,
    ensures
        snapshot_text(snapshots, ids[0], indent).len() > 0,
        chain_text(snapshots, ids, indent).len() >= snapshot_text(
            snapshots,
            ids[0],
            indent,
        ).len(),
        chain_text(snapshots, ids, indent).take(
            snapshot_text(snapshots, ids[0], indent).len() as int,
        ) == snapshot_text(snapshots, ids[0], indent),
    decreases ids.len(),
{
    let first = snapshot_text(snapshots, ids[0], indent);
    let init = ids.drop_last();
    if ids.len() == 1 {
        assert(chain_text(snapshots, init, indent) =~= Seq::<Seq<char>>::empty());
        assert(chain_text(snapshots, ids, indent) =~= first);
        assert(first.take(first.len() as int) =~= first);
    } else {
        lemma_chain_begins(snapshots, init, indent);
        assert(chain_text(snapshots, ids, indent).take(first.len() as int) =~= chain_text(
            snapshots,
            init,
            indent,
        ).take(first.len() as int));
    }
}

/// The parent of a snapshot is the one that the last snapshot with the id
/// names; of an id without a snapshot none is known.
pub proof fn parent_is_named_by_the_snapshot(snapshots: Seq<Snapshot>, id: i64, i: int)
    ensures
        0 <= i < snapshots.len() && snapshots[i].snapshot_id == id && (forall|j: int|
            i < j < snapshots.len() ==> (#[trigger] snapshots[j]).snapshot_id != id) ==> parent_of(
            snapshots,
            id,
        ) == snapshots[i].parent_snapshot_id,
        (forall|j: int|
            0 <= j < snapshots.len() ==> (#[trigger] snapshots[j]).snapshot_id != id) ==> parent_of(
            snapshots,
            id,
        ) is None,
{
    last_snapshot_with_the_id_is_found(snapshots, id);
    if 0 <= i < snapshots.len() && snapshots[i].snapshot_id == id && (forall|j: int|
        i < j < snapshots.len() ==> (#[trigger] snapshots[j]).snapshot_id != id) {
        lemma_last_snapshot_at_is(snapshots, i);
    }
}

/// The snapshots before the current one are shown one behind the other, from
/// the parent back, three of them if there are so many.
pub proof fn three_snapshots_are_shown_before_the_current(
    snapshots: Seq<Snapshot>,
    first: i64,
)
    ensures
        previous_text(snapshots, None) == seq!["  (none)"@],
        previous_text(snapshots, Some(first)) == snapshot_text(snapshots, first, "  "@) + (
        match parent_of(snapshots, first) {
            None => Seq::empty(),
            Some(second) => snapshot_text(snapshots, second, "  "@) + (match parent_of(
                snapshots,
                second,
            ) {
                None => Seq::empty(),
                Some(third) => snapshot_text(snapshots, third, "  "@),
            }),
        }),
{
    let ids = ids_back(snapshots, Some(first), 3);
    let second = parent_of(snapshots, first);
    assert(ids == seq![first] + ids_back(snapshots, second, 2));
    if second is None {
        assert(ids =~= seq![first]);
        lemma_chain_of_one(snapshots, first, "  "@);
        let shown = snapshot_text(snapshots, first, "  "@);
        assert(shown + Seq::<Seq<char>>::empty() =~= shown);
    } else {
        let id2 = second->0;
        let third = parent_of(snapshots, id2);
        assert(ids_back(snapshots, second, 2) == seq![id2] + ids_back(snapshots, third, 1));
        let a = snapshot_text(snapshots, first, "  "@);
        let b = snapshot_text(snapshots, id2, "  "@);
        lemma_chain_of_one(snapshots, first, "  "@);
        if third is None {
            assert(ids =~= seq![first].push(id2));
            assert(ids.drop_last() =~= seq![first]);
            assert(b + Seq::<Seq<char>>::empty() =~= b);
        } else {
            let id3 = third->0;
            assert(ids_back(snapshots, third, 1) == seq![id3] + ids_back(
                snapshots,
                parent_of(snapshots, id3),
                0,
            ));
            assert(ids_back(snapshots, parent_of(snapshots, id3), 0) =~= Seq::<i64>::empty());
            assert(ids =~= seq![first].push(id2).push(id3));
            assert(ids.drop_last() =~= seq![first].push(id2));
            assert(ids.drop_last().drop_last() =~= seq![first]);
            assert(chain_text(snapshots, ids.drop_last(), "  "@) == a + b);
            let c = snapshot_text(snapshots, id3, "  "@);
            assert(a + b + c =~= a + (b + c));
        }
    }
}

proof fn lemma_chain_of_one(snapshots: Seq<Snapshot>, id: i64, indent: Seq<char>)
    ensures
        chain_text(snapshots, seq![id], indent) == snapshot_text(snapshots, id, indent),
{
    let ids = seq![id];
    assert(ids.drop_last() =~= Seq::<i64>::empty());
    assert(chain_text(snapshots, ids.drop_last(), indent) =~= Seq::<Seq<char>>::empty());
    assert(chain_text(snapshots, ids, indent) =~= snapshot_text(snapshots, id, indent));
}

/// A time that the calendar does not reach is shown as a number.
pub proof fn time_is_shown_by_the_calendar(ms: i64)
    ensures
        utc_text(ms) matches Some(text) ==> timestamp_text(ms) == text,
        utc_text(ms) is None ==> timestamp_text(ms) == signed_digits(ms as int)
            + " ms since epoch"@,
{
}

} // verus!
