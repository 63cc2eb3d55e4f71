//! The log of what was copied.
use icehorn::clock::utc_date_time;
use icehorn::iceberg::avro::{read_records, AvroValue, ContainerError};
use icehorn::names::NameMap;
use icehorn::sync_log::{
    encode_log, entry_record, filename_at_reading, filename_for, generate_filename, log_files,
    log_key, log_prefix, merge_log, merge_logs, parse_entry, Entry, LogWriter, Msg,
};

fn entry(path: &str, size: i64, etag: Option<&str>) -> Entry {
    Entry {
        relative_path: path.to_string(),
        source_size: size,
        source_etag: etag.map(|s| s.to_string()),
        file_type: "avro".to_string(),
        rewritten: true,
    }
}

fn same(a: &Entry, b: &Entry) -> bool {
    a.relative_path == b.relative_path
        && a.source_size == b.source_size
        && a.source_etag == b.source_etag
        && a.file_type == b.file_type
        && a.rewritten == b.rewritten
}

#[test]
fn entry_matches_the_same_size_and_tag() {
    let e = entry("p", 10, Some("t"));
    assert!(e.matches_source(10, Some("t")));
    assert!(!e.matches_source(11, Some("t")));
    assert!(!e.matches_source(10, Some("u")));
    let untagged = entry("p", 10, None);
    assert!(untagged.matches_source(10, None));
    assert!(same(&e, &e.duplicate()));
}

#[test]
fn written_entries_are_read_back() {
    let entries = vec![
        entry("metadata/a.avro", 1, None),
        entry("metadata/b.avro", i64::MAX, Some("\"tag\"")),
        entry("metadata/a.avro", -5, Some("é")),
    ];
    let bytes = encode_log(&entries).ok().unwrap();
    let records = read_records(&bytes).ok().unwrap();
    assert_eq!(records.len(), 3);
    for (e, r) in entries.iter().zip(&records) {
        assert!(same(e, &parse_entry(r).unwrap()));
    }

    let mut all: NameMap<Entry> = NameMap::new();
    all.insert("metadata/a.avro".to_string(), entry("metadata/a.avro", 77, None));
    all.insert("metadata/c.avro".to_string(), entry("metadata/c.avro", 99, None));
    merge_log(&mut all, &bytes).ok().unwrap();
    assert_eq!(all.len(), 3);
    assert!(same(all.get("metadata/a.avro").unwrap(), &entries[2]));
    assert!(same(all.get("metadata/b.avro").unwrap(), &entries[1]));
    assert_eq!(all.get("metadata/c.avro").unwrap().source_size, 99);
}

#[test]
fn broken_log_changes_nothing() {
    let mut all: NameMap<Entry> = NameMap::new();
    assert!(matches!(merge_log(&mut all, b"junk"), Err(ContainerError::Open(_))));
    let bytes = encode_log(&vec![entry("a", 1, None)]).ok().unwrap();
    assert!(matches!(
        merge_log(&mut all, &bytes[..bytes.len() - 1]),
        Err(ContainerError::Record(_))
    ));
    assert_eq!(all.len(), 0);
}

#[test]
fn records_of_another_shape_are_no_entries() {
    assert!(parse_entry(&AvroValue::Null).is_none());
    assert!(parse_entry(&AvroValue::Record(Vec::new())).is_none());
    let good = entry_record(&entry("a", 1, Some("t")));
    assert!(same(&parse_entry(&good).unwrap(), &entry("a", 1, Some("t"))));
    match good {
        AvroValue::Record(mut fields) => {
            fields.remove(2);
            let without_tag = AvroValue::Record(fields);
            assert!(same(&parse_entry(&without_tag).unwrap(), &entry("a", 1, None)));
            match without_tag {
                AvroValue::Record(mut fields) => {
                    fields.pop();
                    assert!(parse_entry(&AvroValue::Record(fields)).is_none());
                }
                _ => unreachable!(),
            }
        }
        _ => unreachable!(),
    }
}

#[test]
fn writer_writes_a_closed_log_with_entries() {
    let mut writer = LogWriter::new();
    assert!(writer.take(Msg::Entry(entry("a", 1, None))));
    assert_eq!(writer.count(), 1);
    assert!(!writer.take(Msg::Close));
    let bytes = writer.finish().ok().unwrap().unwrap();
    assert_eq!(read_records(&bytes).ok().unwrap().len(), 1);

    let mut open = LogWriter::new();
    open.take(Msg::Entry(entry("a", 1, None)));
    assert!(open.finish().ok().unwrap().is_none());

    let mut stopped = LogWriter::new();
    stopped.take(Msg::Entry(entry("a", 1, None)));
    stopped.interrupt();
    assert!(stopped.finish().ok().unwrap().is_some());

    let mut empty = LogWriter::new();
    empty.take(Msg::Close);
    assert!(empty.finish().ok().unwrap().is_none());
}

#[test]
fn logs_are_read_in_the_order_of_their_names() {
    let names = vec![
        "sync-20240102-000000-000000001.avro".to_string(),
        "notes.txt".to_string(),
        "sync-20240101-000000-000000002.avro".to_string(),
    ];
    assert_eq!(
        log_files(names),
        vec!["sync-20240101-000000-000000002.avro", "sync-20240102-000000-000000001.avro"]
    );
}

#[test]
fn names_of_logs() {
    let nanos: i128 = 1_700_000_000_012_345_678;
    let stamp = utc_date_time(nanos).unwrap();
    assert_eq!(filename_for(nanos, &stamp), "sync-20231114-221320-012345678.avro");
    assert_eq!(filename_for(-1, "x"), "sync-x--00000001.avro");
    assert_eq!(filename_for(0, "x"), "sync-x-000000000.avro");
    let made = generate_filename().unwrap();
    assert!(made.starts_with("sync-20") && made.ends_with(".avro"));
    assert_eq!(log_prefix("ns/t"), "ns/t/icehorn/sync");
    assert_eq!(log_key("ns/t", "a.avro"), "ns/t/icehorn/sync/a.avro");
}

#[test]
fn name_for_a_reading_of_the_clock() {
    assert_eq!(
        filename_at_reading(Some(1_700_000_000_012_345_678)).as_deref(),
        Some("sync-20231114-221320-012345678.avro")
    );
    assert_eq!(
        filename_at_reading(Some(0)).as_deref(),
        Some("sync-19700101-000000-000000000.avro")
    );
    assert_eq!(filename_at_reading(Some(i128::MAX)), None);
    assert_eq!(filename_at_reading(None), None);
}

#[test]
fn last_entry_over_all_logs_is_kept() {
    let logs = vec![
        encode_log(&vec![entry("a", 1, None), entry("b", 2, None)]).ok().unwrap(),
        encode_log(&vec![entry("a", 3, None), entry("a", 4, Some("t"))]).ok().unwrap(),
        encode_log(&vec![entry("c", 5, None)]).ok().unwrap(),
    ];
    let all = merge_logs(&logs).ok().unwrap();
    assert_eq!(all.len(), 3);
    assert!(same(all.get("a").unwrap(), &entry("a", 4, Some("t"))));
    assert!(same(all.get("b").unwrap(), &entry("b", 2, None)));
    assert!(same(all.get("c").unwrap(), &entry("c", 5, None)));
    assert_eq!(merge_logs(&Vec::new()).ok().unwrap().len(), 0);

    let broken = vec![logs[0].clone(), b"junk".to_vec(), logs[1].clone()];
    let failure = merge_logs(&broken).err().unwrap();
    assert_eq!(failure.position, 1);
    assert!(matches!(failure.error, ContainerError::Open(_)));
}
