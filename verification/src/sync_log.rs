//! Which files earlier runs have dealt with, so that files that did not
//! change at the source can be skipped.
//!
//! Each run writes one Avro file of entries below the destination table, next
//! to the directories that Iceberg uses.
use vstd::prelude::*;

use crate::clock::{system_nanos, utc_date_time, utc_stamp};
use crate::iceberg::avro::{
    all_data, all_named_data, avro_data, avro_reading, crate_value, lemma_all_named_data,
    read_records, AvroData, AvroReading, AvroValue, ContainerError,
};
use crate::iceberg::container::is_readable;
use crate::iceberg::layout::{join, joined, object_key, object_path};
use crate::names::NameMap;
use crate::number::{digits, padded, padding_is_zeros_in_front, push_padded};
use crate::order::{
    before, is_sorted_order, positions, sorted_names_come_in_order, sorted_order, texts,
};
use crate::text::{ends_with, has_suffix, same_text};

verus! {

/// What was known of a source file when it was copied.
#[derive(Debug)]
pub struct Entry {
    pub relative_path: String,
    pub source_size: i64,
    pub source_etag: Option<String>,
    pub file_type: String,
    pub rewritten: bool,
}

/// An entry, for contracts.
#[verifier::ext_equal]
pub struct EntryView {
    pub relative_path: Seq<char>,
    pub source_size: i64,
    pub source_etag: Option<Seq<char>>,
    pub file_type: Seq<char>,
    pub rewritten: bool,
}

impl View for Entry {
    type V = EntryView;

    open spec fn view(&self) -> EntryView {
        EntryView {
            relative_path: self.relative_path@,
            source_size: self.source_size,
            source_etag: match self.source_etag {
                Some(etag) => Some(etag@),
                None => None,
            },
            file_type: self.file_type@,
            rewritten: self.rewritten,
        }
    }
}

/// The text behind an optional reference.
pub open spec fn etag_text(etag: Option<&str>) -> Option<Seq<char>> {
    match etag {
        Some(etag) => Some(etag@),
        None => None,
    }
}

impl EntryView {
    /// Does the entry describe a source file of this size with this tag?
    pub open spec fn describes(self, size: u64, etag: Option<Seq<char>>) -> bool {
        self.source_size == size as i64 && self.source_etag == etag
    }
}

impl Entry {
    /// Does the entry still describe the source file?
    pub fn matches_source(&self, size: u64, etag: Option<&str>) -> (r: bool)
        ensures
            r == self@.describes(size, etag_text(etag)),
    {
        if self.source_size != size as i64 {
            return false;
        }
        match (&self.source_etag, etag) {
            (Some(a), Some(b)) => same_text(a.as_str(), b),
            (None, None) => true,
            _ => false,
        }
    }

    /// Another copy of the entry.
    pub fn duplicate(&self) -> (r: Entry)
        ensures
            r@ == self@,
    {
        Entry {
            relative_path: self.relative_path.clone(),
            source_size: self.source_size,
            source_etag: self.source_etag.clone(),
            file_type: self.file_type.clone(),
            rewritten: self.rewritten,
        }
    }
}

// ---------------------------------------------------------------------------
// Entries as Avro records
// ---------------------------------------------------------------------------

/// The schema of the log.
pub open spec fn schema_text() -> Seq<char> {
    "{\"type\":\"record\",\"name\":\"SyncLogEntry\",\"namespace\":\"com.pterodator.icehorn\",\"fields\":[{\"name\":\"relative_path\",\"type\":\"string\"},{\"name\":\"source_size\",\"type\":\"long\"},{\"name\":\"source_etag\",\"type\":[\"null\",\"string\"],\"default\":null},{\"name\":\"file_type\",\"type\":\"string\"},{\"name\":\"rewritten\",\"type\":\"boolean\"}]}"@
}

/// The record for an entry.
pub open spec fn record_of(entry: EntryView) -> AvroData {
    AvroData::Record(
        seq![
            ("relative_path"@, AvroData::Text(entry.relative_path)),
            ("source_size"@, AvroData::Long(entry.source_size)),
            (
                "source_etag"@,
                match entry.source_etag {
                    Some(etag) => AvroData::Union(1, Box::new(AvroData::Text(etag))),
                    None => AvroData::Union(0, Box::new(AvroData::Null)),
                },
            ),
            ("file_type"@, AvroData::Text(entry.file_type)),
            ("rewritten"@, AvroData::Boolean(entry.rewritten)),
        ],
    )
}

/// The value of the first field with the name.
pub open spec fn field_in(fields: Seq<(Seq<char>, AvroData)>, name: Seq<char>) -> Option<AvroData>
    decreases fields.len(),
{
    if fields.len() == 0 {
        None
    } else if fields[0].0 == name {
        Some(fields[0].1)
    } else {
        field_in(fields.skip(1), name)
    }
}

/// The tag in an optional field.
pub open spec fn etag_in(field: Option<AvroData>) -> Option<Seq<char>> {
    match field {
        Some(AvroData::Union(_, inner)) => match *inner {
            AvroData::Text(s) => Some(s),
            _ => None,
        },
        _ => None,
    }
}

/// The entry that a record holds, if all fields but the tag are there and of
/// the right kind.
pub open spec fn entry_in(record: AvroData) -> Option<EntryView> {
    match record {
        AvroData::Record(fields) => match (
            field_in(fields, "relative_path"@),
            field_in(fields, "source_size"@),
            field_in(fields, "file_type"@),
            field_in(fields, "rewritten"@),
        ) {
            (
                Some(AvroData::Text(relative_path)),
                Some(AvroData::Long(source_size)),
                Some(AvroData::Text(file_type)),
                Some(AvroData::Boolean(rewritten)),
            ) => Some(
                EntryView {
                    relative_path,
                    source_size,
                    source_etag: etag_in(field_in(fields, "source_etag"@)),
                    file_type,
                    rewritten,
                },
            ),
            _ => None,
        },
        _ => None,
    }
}

/// An entry that was written as a record is read back from it.
pub proof fn recorded_entry_is_read_back(entry: EntryView)
    ensures
        entry_in(record_of(entry)) == Some(entry),
{
    reveal_strlit("relative_path");
    reveal_strlit("source_size");
    reveal_strlit("source_etag");
    reveal_strlit("file_type");
    reveal_strlit("rewritten");
    reveal_with_fuel(field_in, 6);
    assert("relative_path"@.len() == 13);
    assert("source_size"@.len() == 11);
    assert("source_etag"@.len() == 11);
    assert("source_size"@[7] == 's');
    assert("source_etag"@[7] == 'e');
    assert("file_type"@.len() == 9);
    assert("rewritten"@.len() == 9);
    assert("file_type"@[0] == 'f');
    assert("rewritten"@[0] == 'r');
}

fn text_field(name: &str, text: &String) -> (r: (String, AvroValue))
    ensures
        r.0@ == name@,
        r.1.data() == AvroData::Text(text@),
{
    (name.to_owned(), AvroValue::Text(text.clone()))
}

/// The record for an entry.
pub fn entry_record(entry: &Entry) -> (r: AvroValue)
    ensures
        r.data() == record_of(entry@),
{
    let etag = match &entry.source_etag {
        Some(s) => AvroValue::Union(1, Box::new(AvroValue::Text(s.clone()))),
        None => AvroValue::Union(0, Box::new(AvroValue::Null)),
    };
    proof {
        reveal_with_fuel(AvroValue::data, 2);
    }
    let mut fields: Vec<(String, AvroValue)> = Vec::new();
    fields.push(text_field("relative_path", &entry.relative_path));
    fields.push(("source_size".to_owned(), AvroValue::Long(entry.source_size)));
    fields.push(("source_etag".to_owned(), etag));
    fields.push(text_field("file_type", &entry.file_type));
    fields.push(("rewritten".to_owned(), AvroValue::Boolean(entry.rewritten)));
    proof {
        lemma_all_named_data(fields@, record_of(entry@)->Record_0);
    }
    AvroValue::Record(fields)
}

/// The record for an entry, as the Avro crate takes it.
pub fn entry_value(entry: &Entry) -> (r: apache_avro::types::Value)
    ensures
        avro_data(r) == record_of(entry@),
{
    crate_value(entry_record(entry))
}

fn find_field<'a>(fields: &'a Vec<(String, AvroValue)>, name: &str) -> (r: Option<&'a AvroValue>)
    ensures
        match r {
            Some(v) => field_in(all_named_data(fields@), name@) == Some(v.data()),
            None => field_in(all_named_data(fields@), name@) is None,
        },
{
    let ghost all = all_named_data(fields@);
    let mut i: usize = 0;
    proof {
        assert(all.skip(0) =~= all);
    }
    while i < fields.len()
        invariant
            i <= fields@.len(),
            all == all_named_data(fields@),
            all.len() == fields@.len(),
            field_in(all, name@) == field_in(all.skip(i as int), name@),
        decreases fields@.len() - i,
    {
        proof {
            assert(all.skip(i as int).skip(1) =~= all.skip(i + 1));
            assert(all[i as int] == (fields@[i as int].0@, fields@[i as int].1.data()));
        }
        if same_text(fields[i].0.as_str(), name) {
            return Some(&fields[i].1);
        }
        i += 1;
    }
    None
}

fn read_text(value: Option<&AvroValue>) -> (r: Option<String>)
    ensures
        match r {
            Some(s) => value is Some && value->0.data() == AvroData::Text(s@),
            None => value is None || !(value->0.data() is Text),
        },
{
    match value {
        Some(AvroValue::Text(s)) => Some(s.clone()),
        _ => None,
    }
}

/// The entry that a record holds.
pub fn parse_entry(value: &AvroValue) -> (r: Option<Entry>)
    ensures
        match r {
            Some(entry) => entry_in(value.data()) == Some(entry@),
            None => entry_in(value.data()) is None,
        },
{
    proof {
        reveal_with_fuel(AvroValue::data, 3);
    }
    let fields = match value {
        AvroValue::Record(fields) => fields,
        _ => return None,
    };
    let relative_path = match read_text(find_field(fields, "relative_path")) {
        Some(s) => s,
        None => return None,
    };
    let source_size: i64 = match find_field(fields, "source_size") {
        Some(AvroValue::Long(n)) => *n,
        _ => return None,
    };
    let source_etag = match find_field(fields, "source_etag") {
        Some(AvroValue::Union(_, inner)) => match &**inner {
            AvroValue::Text(s) => Some(s.clone()),
            _ => None,
        },
        _ => None,
    };
    let file_type = match read_text(find_field(fields, "file_type")) {
        Some(s) => s,
        None => return None,
    };
    let rewritten = match find_field(fields, "rewritten") {
        Some(AvroValue::Boolean(b)) => *b,
        _ => return None,
    };
    Some(Entry { relative_path, source_size, source_etag, file_type, rewritten })
}

// ---------------------------------------------------------------------------
// Reading logs
// ---------------------------------------------------------------------------

/// The directory of the logs below a table.
pub open spec fn log_dir() -> Seq<char> {
    "icehorn/sync"@
}

/// The key prefix of the logs of a table.
pub fn log_prefix(table_prefix: &str) -> (r: String)
    ensures
        r@ == object_key(joined(table_prefix@, log_dir())),
{
    object_path(join(table_prefix, "icehorn/sync").as_str())
}

/// The names that end as log files do.
pub open spec fn logs_among(names: Seq<Seq<char>>) -> Seq<Seq<char>>
    decreases names.len(),
{
    if names.len() == 0 {
        Seq::empty()
    } else {
        let rest = logs_among(names.drop_last());
        if ends_with(names.last(), ".avro"@) {
            rest.push(names.last())
        } else {
            rest
        }
    }
}

/// Are these the log files among the names, in the order of their names?
pub open spec fn is_log_list(names: Seq<Seq<char>>, list: Seq<Seq<char>>) -> bool {
    exists|order: Seq<int>| #[trigger]
        is_sorted_order(names, order) && list == logs_among(order.map_values(|i: int| names[i]))
}

/// The log files of a listing in the order in which they are to be read: by
/// name, which is by time, since the names begin with the time.
pub fn log_files(names: Vec<String>) -> (r: Vec<String>)
    ensures
        is_log_list(texts(names@), texts(r@)),
{
    let order = sorted_order(&names);
    let ghost all = texts(names@);
    let ghost places = positions(order@);
    let ghost sorted = places.map_values(|i: int| all[i]);
    let mut out: Vec<String> = Vec::new();
    let mut k: usize = 0;
    proof {
        assert(sorted.take(0) =~= Seq::<Seq<char>>::empty());
        assert(texts(out@) =~= Seq::<Seq<char>>::empty());
    }
    while k < order.len()
        invariant
            k <= order@.len(),
            all == texts(names@),
            places == positions(order@),
            is_sorted_order(all, places),
            sorted == places.map_values(|i: int| all[i]),
            texts(out@) == logs_among(sorted.take(k as int)),
        decreases order@.len() - k,
    {
        proof {
            assert(places[k as int] == order@[k as int]);
            assert(sorted.take(k + 1).drop_last() =~= sorted.take(k as int));
            assert(sorted.take(k + 1).last() == sorted[k as int]);
        }
        let name = &names[order[k]];
        if has_suffix(name.as_str(), ".avro") {
            let ghost before = texts(out@);
            out.push(name.clone());
            proof {
                assert(texts(out@) =~= before.push(name@));
            }
        }
        k += 1;
    }
    proof {
        assert(sorted.take(k as int) =~= sorted);
    }
    out
}

/// The entries that the map holds.
pub open spec fn entries_in(m: Map<Seq<char>, Entry>) -> Map<Seq<char>, EntryView> {
    m.map_values(|e: Entry| e@)
}

/// The entries with those of the records: each under its path, in the place
/// of an earlier one. A record that holds no entry is passed over.
pub open spec fn merged(entries: Map<Seq<char>, EntryView>, records: Seq<AvroData>) -> Map<
    Seq<char>,
    EntryView,
>
    decreases records.len(),
{
    if records.len() == 0 {
        entries
    } else {
        let rest = merged(entries, records.drop_last());
        match entry_in(records.last()) {
            Some(entry) => rest.insert(entry.relative_path, entry),
            None => rest,
        }
    }
}

/// Takes in a log file. A file that cannot be read changes nothing.
pub fn merge_log(entries: &mut NameMap<Entry>, bytes: &[u8]) -> (r: Result<(), ContainerError>)
    ensures
        match r {
            Ok(()) => avro_reading(bytes@) matches AvroReading::Records(records) && entries_in(
                final(entries)@,
            ) == merged(entries_in(old(entries)@), records),
            Err(ContainerError::Unfit) => !is_readable(bytes@, false) && final(entries)@
                == old(entries)@,
            Err(ContainerError::Open(_)) => avro_reading(bytes@) == AvroReading::NoContainer
                && final(entries)@ == old(entries)@,
            Err(ContainerError::Record(_)) => avro_reading(bytes@) == AvroReading::BadRecord
                && final(entries)@ == old(entries)@,
        },
{
    let records = match read_records(bytes) {
        Ok(records) => records,
        Err(e) => return Err(e),
    };
    let ghost all = all_data(records@);
    let ghost start = entries_in(entries@);
    let mut i: usize = 0;
    proof {
        assert(all.take(0) =~= Seq::<AvroData>::empty());
    }
    while i < records.len()
        invariant
            i <= records@.len(),
            all == all_data(records@),
            all.len() == records@.len(),
            entries_in(entries@) == merged(start, all.take(i as int)),
        decreases records@.len() - i,
    {
        proof {
            assert(all.take(i + 1).drop_last() =~= all.take(i as int));
            assert(all.take(i + 1).last() == records@[i as int].data());
        }
        match parse_entry(&records[i]) {
            Some(entry) => {
                let ghost before = entries@;
                entries.insert(entry.relative_path.clone(), entry);
                proof {
                    assert(entries_in(entries@) =~= entries_in(before).insert(
                        entry@.relative_path,
                        entry@,
                    ));
                }
            },
            None => {},
        }
        i += 1;
    }
    proof {
        assert(all.take(i as int) =~= all);
    }
    Ok(())
}

/// The last entry for a path counts, over the whole of a log and over
/// earlier logs.
pub proof fn last_entry_for_a_path_counts(
    entries: Map<Seq<char>, EntryView>,
    records: Seq<AvroData>,
    i: int,
)
    requires
        0 <= i < records.len(),
        entry_in(records[i]) is Some,
        forall|j: int|
            i < j < records.len() ==> (entry_in(#[trigger] records[j]) matches Some(later)
                ==> later.relative_path != entry_in(records[i])->0.relative_path),
    ensures
        merged(entries, records).contains_key(entry_in(records[i])->0.relative_path),
        merged(entries, records)[entry_in(records[i])->0.relative_path] == entry_in(records[i])->0,
    decreases records.len(),
{
    let init = records.drop_last();
    if i < init.len() {
        assert(init[i] == records[i]);
        assert forall|j: int| i < j < init.len() implies (entry_in(#[trigger] init[j]) matches Some(
            later,
        ) ==> later.relative_path != entry_in(init[i])->0.relative_path) by {
            assert(init[j] == records[j]);
        }
        last_entry_for_a_path_counts(entries, init, i);
        assert(records[records.len() - 1] == records.last());
    }
}

/// A path for which the records hold no entry keeps the one it had.
pub proof fn other_entries_stay(
    entries: Map<Seq<char>, EntryView>,
    records: Seq<AvroData>,
    path: Seq<char>,
)
    requires
        forall|j: int|
            0 <= j < records.len() ==> (entry_in(#[trigger] records[j]) matches Some(e)
                ==> e.relative_path != path),
    ensures
        merged(entries, records).contains_key(path) == entries.contains_key(path),
        entries.contains_key(path) ==> merged(entries, records)[path] == entries[path],
    decreases records.len(),
{
    if records.len() > 0 {
        let init = records.drop_last();
        assert forall|j: int| 0 <= j < init.len() implies (entry_in(#[trigger] init[j]) matches Some(
            e,
        ) ==> e.relative_path != path) by {
            assert(init[j] == records[j]);
        }
        other_entries_stay(entries, init, path);
        assert(records[records.len() - 1] == records.last());
    }
}

/// The entries with those of several logs, one log after the other.
pub open spec fn merged_all(
    entries: Map<Seq<char>, EntryView>,
    logs: Seq<Seq<AvroData>>,
) -> Map<Seq<char>, EntryView>
    decreases logs.len(),
{
    if logs.len() == 0 {
        entries
    } else {
        merged(merged_all(entries, logs.drop_last()), logs.last())
    }
}

/// What a log file holds; nothing if it cannot be read.
pub open spec fn log_records(bytes: Seq<u8>) -> Seq<AvroData> {
    match avro_reading(bytes) {
        AvroReading::Records(records) => records,
        _ => Seq::empty(),
    }
}

/// What several log files hold.
pub open spec fn all_log_records(logs: Seq<Vec<u8>>) -> Seq<Seq<AvroData>> {
    logs.map_values(|log: Vec<u8>| log_records(log@))
}

/// Which of several logs could not be read, and why.
pub struct LogError {
    pub position: usize,
    pub error: ContainerError,
}

/// Takes in all log files of a table, in the order in which they are given. A
/// later entry for a path replaces an earlier one. One file that cannot be
/// read makes the whole a failure.
pub fn merge_logs(logs: &Vec<Vec<u8>>) -> (r: Result<NameMap<Entry>, LogError>)
    ensures
        match r {
            Ok(entries) => {
                &&& forall|i: int|
                    0 <= i < logs@.len() ==> avro_reading((#[trigger] logs@[i])@) is Records
                &&& entries_in(entries@) == merged_all(Map::empty(), all_log_records(logs@))
            },
            Err(e) => {
                &&& e.position < logs@.len()
                &&& forall|i: int|
                    0 <= i < e.position ==> avro_reading((#[trigger] logs@[i])@) is Records
                &&& match e.error {
                    ContainerError::Unfit => !is_readable(logs@[e.position as int]@, false),
                    ContainerError::Open(_) => avro_reading(logs@[e.position as int]@)
                        == AvroReading::NoContainer,
                    ContainerError::Record(_) => avro_reading(logs@[e.position as int]@)
                        == AvroReading::BadRecord,
                }
            },
        },
{
    let mut entries: NameMap<Entry> = NameMap::new();
    let ghost all = all_log_records(logs@);
    let mut i: usize = 0;
    proof {
        assert(all.take(0) =~= Seq::<Seq<AvroData>>::empty());
        assert(entries_in(entries@) =~= Map::<Seq<char>, EntryView>::empty());
    }
    while i < logs.len()
        invariant
            i <= logs@.len(),
            all == all_log_records(logs@),
            forall|j: int| 0 <= j < i ==> avro_reading((#[trigger] logs@[j])@) is Records,
            entries_in(entries@) == merged_all(Map::empty(), all.take(i as int)),
        decreases logs@.len() - i,
    {
        proof {
            assert(all.take(i + 1).drop_last() =~= all.take(i as int));
            assert(all.take(i + 1).last() == log_records(logs@[i as int]@));
        }
        match merge_log(&mut entries, logs[i].as_slice()) {
            Ok(()) => {},
            Err(error) => return Err(LogError { position: i, error }),
        }
        i += 1;
    }
    proof {
        assert(all.take(i as int) =~= all);
    }
    Ok(entries)
}

/// Does one of the records hold an entry for the path?
pub open spec fn names_path(records: Seq<AvroData>, path: Seq<char>) -> bool {
    exists|j: int|
        0 <= j < records.len() && (entry_in(#[trigger] records[j]) matches Some(e)
            && e.relative_path == path)
}

/// Over all logs the last entry for a path counts: the last one in the last
/// log that has any for it.
pub proof fn last_entry_over_all_logs_counts(
    entries: Map<Seq<char>, EntryView>,
    logs: Seq<Seq<AvroData>>,
    k: int,
    i: int,
)
    requires
        0 <= k < logs.len(),
        0 <= i < logs[k].len(),
        entry_in(logs[k][i]) is Some,
        forall|j: int|
            i < j < logs[k].len() ==> (entry_in(#[trigger] logs[k][j]) matches Some(later)
                ==> later.relative_path != entry_in(logs[k][i])->0.relative_path),
        forall|m: int|
            k < m < logs.len() ==> !names_path(
                #[trigger] logs[m],
                entry_in(logs[k][i])->0.relative_path,
            ),
    ensures
        merged_all(entries, logs).contains_key(entry_in(logs[k][i])->0.relative_path),
        merged_all(entries, logs)[entry_in(logs[k][i])->0.relative_path] == entry_in(
            logs[k][i],
        )->0,
    decreases logs.len(),
{
    let init = logs.drop_last();
    let path = entry_in(logs[k][i])->0.relative_path;
    if k == logs.len() - 1 {
        last_entry_for_a_path_counts(merged_all(entries, init), logs[k], i);
    } else {
        assert(init[k] == logs[k]);
        assert forall|m: int| k < m < init.len() implies !names_path(#[trigger] init[m], path) by {
            assert(init[m] == logs[m]);
        }
        last_entry_over_all_logs_counts(entries, init, k, i);
        let last = logs[logs.len() - 1];
        assert(!names_path(last, path));
        assert forall|j: int| 0 <= j < last.len() implies (entry_in(#[trigger] last[j]) matches Some(
            e,
        ) ==> e.relative_path != path) by {}
        other_entries_stay(merged_all(entries, init), last, path);
    }
}

/// Logs hold no entry for a path that none of their records is for.
pub proof fn logs_know_only_what_they_name(logs: Seq<Seq<AvroData>>, path: Seq<char>)
    requires
        forall|m: int| 0 <= m < logs.len() ==> !names_path(#[trigger] logs[m], path),
    ensures
        !merged_all(Map::empty(), logs).contains_key(path),
    decreases logs.len(),
{
    if logs.len() > 0 {
        let init = logs.drop_last();
        assert forall|m: int| 0 <= m < init.len() implies !names_path(#[trigger] init[m], path) by {
            assert(init[m] == logs[m]);
        }
        logs_know_only_what_they_name(init, path);
        let last = logs[logs.len() - 1];
        assert(!names_path(last, path));
        assert forall|j: int| 0 <= j < last.len() implies (entry_in(#[trigger] last[j]) matches Some(
            e,
        ) ==> e.relative_path != path) by {}
        other_entries_stay(merged_all(Map::empty(), init), last, path);
    }
}

// ---------------------------------------------------------------------------
// Writing a log
// ---------------------------------------------------------------------------

/// Is `out` a container file that `apache_avro::Writer` may make of the
/// records under the schema? There is more than one: each file gets a random
/// marker.
pub uninterp spec fn avro_encoded(
    schema: Seq<char>,
    records: Seq<AvroData>,
    out: Seq<u8>,
) -> bool;

/// Is this the record for some entry?
pub open spec fn is_record(data: AvroData) -> bool {
    exists|entry: EntryView| data == #[trigger] record_of(entry)
}

/// The most characters that a text of an entry may have for the log to be
/// readable for certain. The reader refuses what is over half a gigabyte.
pub const LONGEST_TEXT: usize = 0x10_0000;

/// Are the texts of the entry of an ordinary length?
pub open spec fn is_small(entry: EntryView) -> bool {
    &&& entry.relative_path.len() <= LONGEST_TEXT
    &&& entry.source_etag matches Some(etag) ==> etag.len() <= LONGEST_TEXT
    &&& entry.file_type.len() <= LONGEST_TEXT
}

/// Writes the values with `apache_avro::Writer` under the schema of the log.
/// Claimed: it does not fail, since the values are records of that schema and
/// it writes into memory; `apache_avro::Reader` gives the values back from a
/// file so written, if their texts are of an ordinary length; if they are
/// not, it gives the values back or refuses the file.
#[verifier::external_body]
fn write_log(schema: &str, values: &Vec<apache_avro::types::Value>) -> (r: Result<
    Vec<u8>,
    apache_avro::Error,
>)
    requires
        schema@ == schema_text(),
        forall|i: int| 0 <= i < values@.len() ==> is_record(avro_data(#[trigger] values@[i])),
    ensures
        r matches Ok(out) ==> avro_encoded(
            schema@,
            values@.map_values(|v: apache_avro::types::Value| avro_data(v)),
            out@,
        ),
        r is Ok,
        r matches Ok(out) ==> (avro_reading(out@) matches AvroReading::Records(back) ==> back
            == values@.map_values(|v: apache_avro::types::Value| avro_data(v))),
        r matches Ok(out) ==> (forall|i: int|
            0 <= i < values@.len() ==> (entry_in(avro_data(#[trigger] values@[i])) matches Some(e)
                && is_small(e))) ==> avro_reading(out@) is Records,
{
    let schema = apache_avro::Schema::parse_str(schema)?;
    let mut writer = apache_avro::Writer::new(&schema, Vec::new());
    writer.extend_from_slice(values)?;
    writer.into_inner()
}

/// The records for the entries.
pub open spec fn records_of(entries: Seq<Entry>) -> Seq<AvroData> {
    entries.map_values(|e: Entry| record_of(e@))
}

/// Are the texts of all entries of an ordinary length?
pub open spec fn all_small(entries: Seq<Entry>) -> bool {
    forall|i: int| 0 <= i < entries.len() ==> is_small((#[trigger] entries[i])@)
}

/// What a log says of a path, read back from what was written of the entries:
/// the last entry for the path, as it was.
pub proof fn written_log_gives_entries_back(
    earlier: Map<Seq<char>, EntryView>,
    entries: Seq<Entry>,
    i: int,
)
    requires
        0 <= i < entries.len(),
        forall|j: int|
            i < j < entries.len() ==> (#[trigger] entries[j]).relative_path@
                != entries[i].relative_path@,
    ensures
        merged(earlier, records_of(entries)).contains_key(entries[i].relative_path@),
        merged(earlier, records_of(entries))[entries[i].relative_path@] == entries[i]@,
{
    let records = records_of(entries);
    assert forall|j: int| 0 <= j < entries.len() implies entry_in(#[trigger] records[j]) == Some(
        entries[j]@,
    ) by {
        recorded_entry_is_read_back(entries[j]@);
    }
    assert(entry_in(records[i]) == Some(entries[i]@));
    assert forall|j: int| i < j < records.len() implies (entry_in(#[trigger] records[j]) matches Some(
        later,
    ) ==> later.relative_path != entry_in(records[i])->0.relative_path) by {
        assert(entry_in(records[j]) == Some(entries[j]@));
        assert(entries[j].relative_path@ != entries[i].relative_path@);
    }
    last_entry_for_a_path_counts(earlier, records, i);
}

/// Writes a log file with the entries.
pub fn encode_log(entries: &Vec<Entry>) -> (r: Result<Vec<u8>, apache_avro::Error>)
    ensures
        r is Ok,
        r matches Ok(out) ==> avro_encoded(schema_text(), records_of(entries@), out@),
        r matches Ok(out) ==> (avro_reading(out@) matches AvroReading::Records(back) ==> back
            == records_of(entries@)),
        r matches Ok(out) ==> all_small(entries@) ==> avro_reading(out@) == AvroReading::Records(
            records_of(entries@),
        ),
{
    let mut values: Vec<apache_avro::types::Value> = Vec::new();
    let mut i: usize = 0;
    while i < entries.len()
        invariant
            i <= entries@.len(),
            values@.len() == i,
            forall|j: int|
                0 <= j < i ==> avro_data(#[trigger] values@[j]) == record_of(entries@[j]@),
        decreases entries@.len() - i,
    {
        values.push(entry_value(&entries[i]));
        i += 1;
    }
    proof {
        assert(values@.map_values(|v: apache_avro::types::Value| avro_data(v)) =~= records_of(
            entries@,
        ));
        assert forall|j: int| 0 <= j < values@.len() implies entry_in(
            avro_data(#[trigger] values@[j]),
        ) == Some(entries@[j]@) by {
            recorded_entry_is_read_back(entries@[j]@);
        }
    }
    write_log(
        "{\"type\":\"record\",\"name\":\"SyncLogEntry\",\"namespace\":\"com.pterodator.icehorn\",\"fields\":[{\"name\":\"relative_path\",\"type\":\"string\"},{\"name\":\"source_size\",\"type\":\"long\"},{\"name\":\"source_etag\",\"type\":[\"null\",\"string\"],\"default\":null},{\"name\":\"file_type\",\"type\":\"string\"},{\"name\":\"rewritten\",\"type\":\"boolean\"}]}",
        &values,
    )
}

/// What goes to the writer of a log.
pub enum Msg {
    /// A file was dealt with in this run.
    Entry(Entry),
    /// The run has come to its normal end.
    Close,
}

/// Collects the entries of a run. The log is written only if the run comes
/// to its end and there is anything to write: otherwise no file is made.
pub struct LogWriter {
    entries: Vec<Entry>,
    closed: bool,
}

impl LogWriter {
    pub closed spec fn entries(self) -> Seq<Entry> {
        self.entries@
    }

    pub closed spec fn closed(self) -> bool {
        self.closed
    }

    pub fn new() -> (r: LogWriter)
        ensures
            r.entries() == Seq::<Entry>::empty(),
            !r.closed(),
    {
        LogWriter { entries: Vec::new(), closed: false }
    }

    /// Takes in a message. `false` if no more are wanted.
    pub fn take(&mut self, msg: Msg) -> (r: bool)
        ensures
            match msg {
                Msg::Entry(entry) => r && final(self).entries() == old(self).entries().push(entry)
                    && final(self).closed() == old(self).closed(),
                Msg::Close => !r && final(self).closed()
                    && final(self).entries() == old(self).entries(),
            },
    {
        match msg {
            Msg::Entry(entry) => {
                self.entries.push(entry);
                true
            },
            Msg::Close => {
                self.closed = true;
                false
            },
        }
    }

    /// Ends the log because the program is being shut down. What has come so
    /// far is written, as after a normal end.
    pub fn interrupt(&mut self)
        ensures
            final(self).closed(),
            final(self).entries() == old(self).entries(),
    {
        self.closed = true;
    }

    /// How many entries have come.
    pub fn count(&self) -> (r: u64)
        ensures
            r == self.entries().len(),
    {
        self.entries.len() as u64
    }

    /// The file to write, if there is one.
    pub fn finish(self) -> (r: Result<Option<Vec<u8>>, apache_avro::Error>)
        ensures
            match r {
                Ok(Some(out)) => {
                    &&& self.closed()
                    &&& self.entries().len() > 0
                    &&& avro_encoded(schema_text(), records_of(self.entries()), out@)
                    &&& avro_reading(out@) matches AvroReading::Records(back) ==> back
                        == records_of(self.entries())
                    &&& all_small(self.entries()) ==> avro_reading(out@)
                        == AvroReading::Records(records_of(self.entries()))
                },
                Ok(None) => !self.closed() || self.entries().len() == 0,
                Err(_) => false,
            },
    {
        if !self.closed || self.entries.len() == 0 {
            return Ok(None);
        }
        match encode_log(&self.entries) {
            Ok(out) => Ok(Some(out)),
            Err(e) => Err(e),
        }
    }
}

// ---------------------------------------------------------------------------
// The name of a log
// ---------------------------------------------------------------------------

/// The nanoseconds beyond the whole seconds, with the sign of the time.
pub open spec fn subsec(nanos: int) -> int {
    if nanos >= 0 {
        nanos % 1_000_000_000
    } else {
        -((-nanos) % 1_000_000_000)
    }
}

/// A number in nine characters, the sign among them.
pub open spec fn nine_wide(n: int) -> Seq<char> {
    if n >= 0 {
        padded(n as nat, 9)
    } else {
        "-"@ + padded((-n) as nat, 8)
    }
}

/// The name of a log that is begun at a time.
pub open spec fn filename_at(nanos: int, stamp: Seq<char>) -> Seq<char> {
    "sync-"@ + stamp + "-"@ + nine_wide(subsec(nanos)) + ".avro"@
}

/// The name of a log that is begun at a time, given the date and clock
/// reading of that time.
pub fn filename_for(nanos: i128, stamp: &str) -> (r: String)
    ensures
        r@ == filename_at(nanos as int, stamp@),
{
    let mut out: String = "sync-".to_owned();
    out.append(stamp);
    out.append("-");
    if nanos >= 0 {
        push_padded(&mut out, (nanos % 1_000_000_000) as u64, 9);
    } else {
        let rest: u128 = ((-(nanos + 1)) as u128 + 1) % 1_000_000_000;
        if rest == 0 {
            push_padded(&mut out, 0, 9);
        } else {
            out.append("-");
            push_padded(&mut out, rest as u64, 8);
        }
    }
    out.append(".avro");
    proof {
        assert(out@ =~= filename_at(nanos as int, stamp@));
    }
    out
}

/// The name of a log for a reading of the clock in nanoseconds since the
/// start of 1970: `None` if there is none, or if it is out of the range of
/// the calendar.
pub open spec fn filename_of(reading: Option<i128>) -> Option<Seq<char>> {
    match reading {
        Some(nanos) => match utc_stamp(nanos) {
            Some(stamp) => Some(filename_at(nanos as int, stamp)),
            None => None,
        },
        None => None,
    }
}

/// The name of a log that is begun at a reading of the clock.
pub fn filename_at_reading(reading: Option<i128>) -> (r: Option<String>)
    ensures
        match r {
            Some(name) => filename_of(reading) == Some(name@),
            None => filename_of(reading) is None,
        },
{
    let nanos: i128 = match reading {
        Some(nanos) => nanos,
        None => return None,
    };
    match utc_date_time(nanos) {
        Some(stamp) => Some(filename_for(nanos, stamp.as_str())),
        None => None,
    }
}

/// The name of a log that is begun now. `None` if the system clock is out of
/// the range of the calendar.
pub fn generate_filename() -> (r: Option<String>)
    ensures
        r matches Some(name) ==> exists|nanos: i128, stamp: Seq<char>|
            utc_stamp(nanos) == Some(stamp) && name@ == #[trigger] filename_at(
                nanos as int,
                stamp,
            ),
{
    filename_at_reading(system_nanos())
}

/// The key of a log file below a table.
pub fn log_key(table_prefix: &str, filename: &str) -> (r: String)
    ensures
        r@ == object_key(joined(joined(table_prefix@, log_dir()), filename@)),
{
    object_path(join(join(table_prefix, "icehorn/sync").as_str(), filename).as_str())
}

/// An entry describes a source file that has the size and the tag that the
/// entry was made for, and none with another size or tag.
pub proof fn entry_describes_what_it_was_made_for(
    entry: EntryView,
    size: u64,
    etag: Option<Seq<char>>,
)
    requires
        size <= i64::MAX,
    ensures
        entry.source_size == size && entry.source_etag == etag ==> entry.describes(size, etag),
        entry.source_size != size ==> !entry.describes(size, etag),
        entry.source_etag != etag ==> !entry.describes(size, etag),
{
}

/// A record carries each part of its entry in a field of its own, under the
/// name and in the form that the schema of the log gives it.
pub proof fn record_has_a_field_for_each_part(entry: EntryView)
    ensures
        record_of(entry) matches AvroData::Record(fields) && {
            &&& fields.len() == 5
            &&& fields.contains(("relative_path"@, AvroData::Text(entry.relative_path)))
            &&& fields.contains(("source_size"@, AvroData::Long(entry.source_size)))
            &&& entry.source_etag matches Some(etag) ==> fields.contains(
                ("source_etag"@, AvroData::Union(1, Box::new(AvroData::Text(etag)))),
            )
            &&& entry.source_etag is None ==> fields.contains(
                ("source_etag"@, AvroData::Union(0, Box::new(AvroData::Null))),
            )
            &&& fields.contains(("file_type"@, AvroData::Text(entry.file_type)))
            &&& fields.contains(("rewritten"@, AvroData::Boolean(entry.rewritten)))
        },
{
    let fields = record_of(entry)->Record_0;
    assert(fields[0].0 == "relative_path"@);
    assert(fields[1].0 == "source_size"@);
    assert(fields[2].0 == "source_etag"@);
    assert(fields[3].0 == "file_type"@);
    assert(fields[4].0 == "rewritten"@);
}

/// A field is found under its name wherever it stands, and the first one if
/// there are several. Nothing is found under a name that no field has.
pub proof fn first_field_with_the_name_is_found(
    fields: Seq<(Seq<char>, AvroData)>,
    name: Seq<char>,
    i: int,
)
    requires
        0 <= i <= fields.len(),
        forall|j: int| 0 <= j < i ==> (#[trigger] fields[j]).0 != name,
        i < fields.len() ==> fields[i].0 == name,
    ensures
        i < fields.len() ==> field_in(fields, name) == Some(fields[i].1),
        i == fields.len() ==> field_in(fields, name) is None,
    decreases fields.len(),
{
    if i > 0 {
        assert(fields[0].0 != name);
        let rest = fields.skip(1);
        assert forall|j: int| 0 <= j < i - 1 implies (#[trigger] rest[j]).0 != name by {
            assert(rest[j] == fields[j + 1]);
        }
        first_field_with_the_name_is_found(rest, name, i - 1);
    }
}

/// A record gives an entry exactly if it has the four fields that no entry is
/// without, each of its kind. Each part of the entry is what the field of its
/// name holds; the tag is there if its field holds a text.
pub proof fn entry_is_made_of_the_named_fields(
    fields: Seq<(Seq<char>, AvroData)>,
    branch: u32,
    etag: Seq<char>,
)
    ensures
        entry_in(AvroData::Record(fields)) is Some <==> {
            &&& field_in(fields, "relative_path"@) matches Some(AvroData::Text(_))
            &&& field_in(fields, "source_size"@) matches Some(AvroData::Long(_))
            &&& field_in(fields, "file_type"@) matches Some(AvroData::Text(_))
            &&& field_in(fields, "rewritten"@) matches Some(AvroData::Boolean(_))
        },
        entry_in(AvroData::Record(fields)) matches Some(entry) ==> {
            &&& field_in(fields, "relative_path"@) == Some(AvroData::Text(entry.relative_path))
            &&& field_in(fields, "source_size"@) == Some(AvroData::Long(entry.source_size))
            &&& field_in(fields, "file_type"@) == Some(AvroData::Text(entry.file_type))
            &&& field_in(fields, "rewritten"@) == Some(AvroData::Boolean(entry.rewritten))
            &&& entry.source_etag matches Some(tag) ==> (field_in(
                fields,
                "source_etag"@,
            ) matches Some(AvroData::Union(_, inner)) && *inner == AvroData::Text(tag))
            &&& field_in(fields, "source_etag"@) == Some(
                AvroData::Union(branch, Box::new(AvroData::Text(etag))),
            ) ==> entry.source_etag == Some(etag)
        },
{
}

/// What is no record is no entry.
pub proof fn only_records_are_entries(data: AvroData)
    requires
        !(data is Record),
    ensures
        entry_in(data) is None,
{
}

/// The logs of a table stand in a directory of their own.
pub proof fn logs_have_a_directory(table_prefix: Seq<char>)
    ensures
        joined(table_prefix, log_dir()) == table_prefix + "/icehorn/sync"@,
{
    reveal_strlit("/");
    reveal_strlit("icehorn/sync");
    reveal_strlit("/icehorn/sync");
    assert(joined(table_prefix, log_dir()) =~= table_prefix + "/icehorn/sync"@);
}

proof fn lemma_logs_among(names: Seq<Seq<char>>)
    ensures
        forall|name: Seq<char>| #[trigger]
            logs_among(names).contains(name) <==> names.contains(name) && ends_with(
                name,
                ".avro"@,
            ),
        logs_among(names).len() <= names.len(),
        (forall|i: int| 0 <= i < names.len() ==> ends_with(#[trigger] names[i], ".avro"@))
            ==> logs_among(names) == names,
        (forall|i: int, j: int|
            0 <= i < j < names.len() ==> !before(#[trigger] names[j], #[trigger] names[i])) ==> (
        forall|i: int, j: int|
            0 <= i < j < logs_among(names).len() ==> !before(
                #[trigger] logs_among(names)[j],
                #[trigger] logs_among(names)[i],
            )),
    decreases names.len(),
{
    if names.len() > 0 {
        let init = names.drop_last();
        lemma_logs_among(init);
        let rest = logs_among(init);
        let all = logs_among(names);
        assert(names =~= init.push(names.last()));
        assert forall|name: Seq<char>| #[trigger]
            all.contains(name) <==> names.contains(name) && ends_with(name, ".avro"@) by {
            assert(rest.contains(name) <==> init.contains(name) && ends_with(name, ".avro"@));
            if names.contains(name) {
                let i = choose|i: int| 0 <= i < names.len() && names[i] == name;
                if i < init.len() {
                    assert(init[i] == name);
                }
            }
            if init.contains(name) {
                let i = choose|i: int| 0 <= i < init.len() && init[i] == name;
                assert(names[i] == name);
            }
            if rest.contains(name) {
                let i = choose|i: int| 0 <= i < rest.len() && rest[i] == name;
                assert(all[i] == name);
            }
            if all.contains(name) {
                let i = choose|i: int| 0 <= i < all.len() && all[i] == name;
                if i < rest.len() {
                    assert(rest[i] == name);
                }
            }
            if name == names.last() && ends_with(name, ".avro"@) {
                assert(all[rest.len() as int] == name);
            }
        }
        if forall|i: int| 0 <= i < names.len() ==> ends_with(#[trigger] names[i], ".avro"@) {
            assert forall|i: int| 0 <= i < init.len() implies ends_with(
                #[trigger] init[i],
                ".avro"@,
            ) by {
                assert(init[i] == names[i]);
            }
        }
        if forall|i: int, j: int|
            0 <= i < j < names.len() ==> !before(#[trigger] names[j], #[trigger] names[i]) {
            assert forall|i: int, j: int| 0 <= i < j < init.len() implies !before(
                #[trigger] init[j],
                #[trigger] init[i],
            ) by {
                assert(!before(names[j], names[i]));
            }
            assert forall|i: int, j: int| 0 <= i < j < all.len() implies !before(
                #[trigger] all[j],
                #[trigger] all[i],
            ) by {
                if j < rest.len() {
                    assert(!before(rest[j], rest[i]));
                } else {
                    assert(rest.contains(rest[i]));
                    assert(init.contains(rest[i]));
                    let k = choose|k: int| 0 <= k < init.len() && init[k] == rest[i];
                    assert(!before(names[names.len() - 1], names[k]));
                }
            }
        }
    }
}

/// The log files of a listing are the names in it that end in `.avro`, none
/// left out and no other one, and they are read in the order of their names.
/// If all names are such, as many are read as are listed.
pub proof fn logs_are_read_in_the_order_of_their_names(
    names: Seq<Seq<char>>,
    list: Seq<Seq<char>>,
)
    requires
        is_log_list(names, list),
    ensures
        forall|name: Seq<char>| #[trigger]
            list.contains(name) <==> names.contains(name) && ends_with(name, ".avro"@),
        forall|i: int, j: int|
            0 <= i < j < list.len() ==> !before(#[trigger] list[j], #[trigger] list[i]),
        list.len() <= names.len(),
        (forall|i: int| 0 <= i < names.len() ==> ends_with(#[trigger] names[i], ".avro"@))
            ==> list.len() == names.len(),
{
    let order = choose|order: Seq<int>| #[trigger]
        is_sorted_order(names, order) && list == logs_among(order.map_values(|i: int| names[i]));
    let sorted = order.map_values(|i: int| names[i]);
    lemma_logs_among(sorted);
    assert forall|i: int, j: int| 0 <= i < j < sorted.len() implies !before(
        #[trigger] sorted[j],
        #[trigger] sorted[i],
    ) by {
        sorted_names_come_in_order(names, order, order[i]);
    }
    assert forall|name: Seq<char>| sorted.contains(name) <==> names.contains(name) by {
        if sorted.contains(name) {
            let i = choose|i: int| 0 <= i < sorted.len() && sorted[i] == name;
            assert(names[order[i]] == name);
        }
        if names.contains(name) {
            let i = choose|i: int| 0 <= i < names.len() && names[i] == name;
            sorted_names_come_in_order(names, order, i);
            let k = choose|k: int| 0 <= k < order.len() && order[k] == i;
            assert(sorted[k] == name);
        }
    }
    assert forall|name: Seq<char>| #[trigger]
        list.contains(name) <==> names.contains(name) && ends_with(name, ".avro"@) by {
        assert(sorted.contains(name) <==> names.contains(name));
    }
    if forall|i: int| 0 <= i < names.len() ==> ends_with(#[trigger] names[i], ".avro"@) {
        assert forall|i: int| 0 <= i < sorted.len() implies ends_with(
            #[trigger] sorted[i],
            ".avro"@,
        ) by {
            assert(sorted[i] == names[order[i]]);
        }
    }
}

/// A log that is begun so many nanoseconds after a full second, from the
/// start of 1970 on, has a name that says so: the date and clock reading, then
/// the nanoseconds in nine digits. Before 1970 the nanoseconds up to the full
/// second stand there, in eight digits behind a sign.
pub proof fn log_is_named_after_its_time(secs: nat, nanos: nat, stamp: Seq<char>)
    requires
        nanos < 1_000_000_000,
    ensures
        filename_at((secs * 1_000_000_000 + nanos) as int, stamp) == "sync-"@ + stamp + "-"@
            + padded(nanos, 9) + ".avro"@,
        padded(nanos, 9).len() == 9,
        nanos > 0 ==> filename_at(-(secs * 1_000_000_000 + nanos), stamp) == "sync-"@ + stamp + "-"@
            + ("-"@ + padded(nanos, 8)) + ".avro"@,
        filename_at(-(secs * 1_000_000_000), stamp) == "sync-"@ + stamp + "-"@ + padded(0, 9)
            + ".avro"@,
{
    assert((secs * 1_000_000_000 + nanos) % 1_000_000_000 == nanos) by (nonlinear_arith)
        requires
            nanos < 1_000_000_000,
    ;
    assert((secs * 1_000_000_000) % 1_000_000_000 == 0) by (nonlinear_arith);
    reveal_with_fuel(digits, 10);
    padding_is_zeros_in_front(nanos, 9);
}

/// The schema of a log is a record with a field for each part of an entry, in
/// the order in which they are recorded; the tag alone may be missing.
pub proof fn log_schema_has_a_field_for_each_part()
    ensures
        schema_text() == "{\"type\":\"record\",\"name\":\"SyncLogEntry\","@
            + "\"namespace\":\"com.pterodator.icehorn\",\"fields\":["@
            + "{\"name\":\"relative_path\",\"type\":\"string\"},"@
            + "{\"name\":\"source_size\",\"type\":\"long\"},"@
            + "{\"name\":\"source_etag\",\"type\":[\"null\",\"string\"],\"default\":null},"@
            + "{\"name\":\"file_type\",\"type\":\"string\"},"@
            + "{\"name\":\"rewritten\",\"type\":\"boolean\"}]}"@,
{
    reveal_strlit(
        "{\"type\":\"record\",\"name\":\"SyncLogEntry\",\"namespace\":\"com.pterodator.icehorn\",\"fields\":[{\"name\":\"relative_path\",\"type\":\"string\"},{\"name\":\"source_size\",\"type\":\"long\"},{\"name\":\"source_etag\",\"type\":[\"null\",\"string\"],\"default\":null},{\"name\":\"file_type\",\"type\":\"string\"},{\"name\":\"rewritten\",\"type\":\"boolean\"}]}",
    );
    reveal_strlit("{\"type\":\"record\",\"name\":\"SyncLogEntry\",");
    reveal_strlit("\"namespace\":\"com.pterodator.icehorn\",\"fields\":[");
    reveal_strlit("{\"name\":\"relative_path\",\"type\":\"string\"},");
    reveal_strlit("{\"name\":\"source_size\",\"type\":\"long\"},");
    reveal_strlit("{\"name\":\"source_etag\",\"type\":[\"null\",\"string\"],\"default\":null},");
    reveal_strlit("{\"name\":\"file_type\",\"type\":\"string\"},");
    reveal_strlit("{\"name\":\"rewritten\",\"type\":\"boolean\"}]}");
    let parts = "{\"type\":\"record\",\"name\":\"SyncLogEntry\","@
        + "\"namespace\":\"com.pterodator.icehorn\",\"fields\":["@
        + "{\"name\":\"relative_path\",\"type\":\"string\"},"@
        + "{\"name\":\"source_size\",\"type\":\"long\"},"@
        + "{\"name\":\"source_etag\",\"type\":[\"null\",\"string\"],\"default\":null},"@
        + "{\"name\":\"file_type\",\"type\":\"string\"},"@
        + "{\"name\":\"rewritten\",\"type\":\"boolean\"}]}"@;
    assert(schema_text() =~= parts);
}

/// A log has a name if the clock could be read and the calendar has the time;
/// the name is then the one for that time.
pub proof fn log_is_named_if_the_time_is_known(nanos: i128, stamp: Seq<char>)
    ensures
        filename_of(None) is None,
        utc_stamp(nanos) is None ==> filename_of(Some(nanos)) is None,
        utc_stamp(nanos) == Some(stamp) ==> filename_of(Some(nanos)) == Some(
            filename_at(nanos as int, stamp),
        ),
{
}

/// Each log counts with the records that can be read from it, in the place in
/// which it is given; one that cannot be read counts for nothing.
pub proof fn logs_count_with_their_records(logs: Seq<Vec<u8>>, i: int)
    requires
        0 <= i < logs.len(),
    ensures
        all_log_records(logs).len() == logs.len(),
        avro_reading(logs[i]@) matches AvroReading::Records(records) ==> all_log_records(logs)[i]
            == records,
        !(avro_reading(logs[i]@) is Records) ==> all_log_records(logs)[i].len() == 0,
{
}

} // verus!
