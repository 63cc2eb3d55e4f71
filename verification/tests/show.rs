//! What the inspecting commands print.
use std::collections::HashMap;

use futures::executor::block_on;
use icehorn::clock::{utc_date_time, utc_time};
use icehorn::iceberg::layout::{list_subdirs, object_path};
use icehorn::iceberg::metadata::MetadataFile;
use icehorn::iceberg::model::{Metadata, Schema, SchemaField, Snapshot, Summary};
use icehorn::show::grid::grid_lines;
use icehorn::show::schema::{field_lines, render_type, schema_lines};
use icehorn::show::snapshot::{
    chain_of, find_last_snapshot, format_timestamp, snapshot_lines, snapshot_report,
    timestamp_or_number,
};
use icehorn::show::tables::{
    pair_lines, split_ns_and_table, Discovery, DiscoveryStep, TableEntry, UNKNOWN,
};
use icehorn::show::version::{no_metadata_message, version_lines};
use object_store::memory::InMemory;
use object_store::path::Path as ObjPath;
use object_store::{ObjectStore, ObjectStoreExt, PutPayload};
use serde_json::Value;

fn json(text: &str) -> Value {
    serde_json::from_str(text).unwrap()
}

#[test]
fn render_type_handles_primitive_strings() {
    assert_eq!(render_type(&json(r#""long""#)), "long");
    assert_eq!(render_type(&json(r#""decimal(9, 2)""#)), "decimal(9, 2)");
}

#[test]
fn render_type_collapses_struct_list_map() {
    assert_eq!(
        render_type(&json(
            r#"{
                "type": "struct",
                "fields": [{"id": 1}, {"id": 2}, {"id": 3}]
            }"#
        )),
        "struct<3 fields>"
    );
    assert_eq!(
        render_type(&json(r#"{"type": "list", "element": "string"}"#)),
        "list<string>"
    );
    assert_eq!(
        render_type(&json(r#"{"type": "map", "key": "string", "value": "long"}"#)),
        "map<string, long>"
    );
}

#[test]
fn render_type_falls_back_for_unknown_shapes() {
    assert_eq!(
        render_type(&json(
            r#"{
                "type": "map",
                "key": "string",
                "value": {"type": "struct", "fields": [{"id": 1}, {"id": 2}]}
            }"#
        )),
        "map<string, struct<2 fields>>"
    );
}

#[test]
fn render_type_of_incomplete_values() {
    assert_eq!(render_type(&json(r#"{"type": "list"}"#)), "list<?>");
    assert_eq!(render_type(&json(r#"{"type": "map", "key": "int"}"#)), "map<int, ?>");
    assert_eq!(render_type(&json(r#"{"type": "struct"}"#)), "struct<0 fields>");
    assert_eq!(render_type(&json(r#"{"type": "struct", "fields": 3}"#)), "struct<0 fields>");
    assert_eq!(render_type(&json(r#"{"type": "variant"}"#)), "variant");
    assert_eq!(render_type(&json(r#"{"type": 7, "a": [1, 2]}"#)), r#"{"a":[1,2],"type":7}"#);
    assert_eq!(render_type(&json("{}")), "{}");
    assert_eq!(render_type(&json("17")), "17");
    assert_eq!(render_type(&json("null")), "null");
    assert_eq!(render_type(&json(r#"["x"]"#)), r#"["x"]"#);
}

fn field(id: i32, name: &str, required: bool, field_type: &str) -> SchemaField {
    SchemaField {
        id,
        name: name.to_string(),
        required,
        field_type: json(field_type),
        other: HashMap::new(),
    }
}

#[test]
fn columns_line_up() {
    let fields = vec![
        field(1, "id", true, r#""long""#),
        field(12, "né", false, r#"{"type": "list", "element": "string"}"#),
    ];
    assert_eq!(
        field_lines(&fields),
        vec![
            "id | name | type         | required",
            "---+------+--------------+---------",
            "1  | id   | long         | yes     ",
            "12 | né   | list<string> | no      ",
        ]
    );
    assert_eq!(field_lines(&Vec::new()), vec!["(schema has no columns)"]);
}

#[test]
fn column_width_counts_bytes() {
    let headers = vec!["a".to_string(), "b".to_string()];
    let rows = vec![vec!["ééé".to_string(), "x".to_string()]];
    assert_eq!(
        grid_lines(&headers, &rows),
        vec!["a      | b", "-------+--", "ééé    | x"]
    );
    assert_eq!(grid_lines(&headers, &Vec::new()), vec!["a | b", "--+--"]);
}

fn metadata(snapshots: Vec<Snapshot>, current: Option<i64>, schemas: Vec<Schema>) -> Metadata {
    Metadata {
        format_version: 2,
        table_uuid: Some("t-uuid".to_string()),
        location: None,
        current_snapshot_id: current,
        current_schema_id: None,
        schemas,
        snapshots,
        snapshot_log: Vec::new(),
        metadata_log: Vec::new(),
        statistics: Vec::new(),
        partition_statistics: Vec::new(),
        other: HashMap::new(),
    }
}

fn snapshot(id: i64, parent: Option<i64>, entries: &[(&str, &str)]) -> Snapshot {
    Snapshot {
        snapshot_id: id,
        parent_snapshot_id: parent,
        timestamp_ms: 1700000000000,
        manifest_list: None,
        summary: Summary::from_entries(
            entries.iter().map(|(k, v)| (k.to_string(), v.to_string())).collect(),
        ),
        other: HashMap::new(),
    }
}

#[test]
fn schema_is_printed_with_its_id() {
    let schema = Schema {
        schema_id: 3,
        fields: vec![field(1, "x", true, r#""int""#)],
        other: HashMap::new(),
    };
    assert_eq!(
        schema_lines(&metadata(Vec::new(), None, vec![schema])),
        vec![
            "Schema id: 3",
            "",
            "id | name | type | required",
            "---+------+------+---------",
            "1  | x    | int  | yes     ",
        ]
    );
    assert_eq!(
        schema_lines(&metadata(Vec::new(), None, Vec::new())),
        vec!["No current schema found in metadata."]
    );
}

#[test]
fn format_timestamp_is_iso8601_in_utc() {
    assert_eq!(format_timestamp(1700000000000), "2023-11-14T22:13:20Z");
}

#[test]
fn times_outside_the_calendar_are_numbers() {
    assert_eq!(format_timestamp(i64::MAX), "9223372036854775807 ms since epoch");
    assert_eq!(format_timestamp(i64::MIN), "-9223372036854775808 ms since epoch");
    assert_eq!(timestamp_or_number(-5, None), "-5 ms since epoch");
    assert_eq!(timestamp_or_number(5, Some("x".to_string())), "x");
    assert_eq!(utc_time(0), Some("1970-01-01T00:00:00Z".to_string()));
    assert_eq!(utc_time(i64::MAX), None);
    assert_eq!(
        utc_date_time(1_700_000_000_123_456_789),
        Some("20231114-221320".to_string())
    );
    assert_eq!(utc_date_time(i128::MAX), None);
}

#[test]
fn snapshot_shows_what_it_knows() {
    let all = vec![snapshot(
        4,
        None,
        &[("operation", "append"), ("deleted-data-files", "2"), ("added-records", "10")],
    )];
    assert_eq!(
        snapshot_lines(&all, 4, "> "),
        vec![
            "> ID                : 4",
            "> Timestamp         : 2023-11-14T22:13:20Z",
            "> Operation         : append",
            "> Added records     : 10",
            "> Deleted data files: 2",
        ]
    );
    assert_eq!(snapshot_lines(&all, -9, ""), vec!["ID: -9 (expired / not in metadata)"]);
}

#[test]
fn last_snapshot_with_an_id_counts() {
    let all = vec![snapshot(4, Some(1), &[]), snapshot(4, Some(2), &[])];
    assert_eq!(find_last_snapshot(&all, 4).unwrap().parent_snapshot_id, Some(2));
    assert!(find_last_snapshot(&all, 5).is_none());
}

#[test]
fn history_is_cut_short() {
    let all = vec![
        snapshot(1, None, &[]),
        snapshot(2, Some(1), &[]),
        snapshot(3, Some(2), &[]),
        snapshot(4, Some(3), &[]),
        snapshot(5, Some(4), &[]),
    ];
    assert_eq!(chain_of(&all, Some(4), 3), vec![4, 3, 2]);
    assert_eq!(chain_of(&all, Some(2), 3), vec![2, 1]);
    assert_eq!(chain_of(&all, None, 3), Vec::<i64>::new());
    assert_eq!(chain_of(&all, Some(77), 3), vec![77]);
    // A snapshot that is its own parent does not keep the chain going.
    assert_eq!(chain_of(&vec![snapshot(1, Some(1), &[])], Some(1), 3), vec![1, 1, 1]);
}

#[test]
fn report_of_a_table() {
    let file = MetadataFile::parse(
        "ns/t/metadata/00005-65f87f03-6d7e-41be-8dce-c813ffe70937.metadata.json",
    )
    .unwrap();
    let head = vec![
        "Metadata file    : 00005-65f87f03-6d7e-41be-8dce-c813ffe70937.metadata.json",
        "Metadata version : 5",
        "Metadata id      : 65f87f03-6d7e-41be-8dce-c813ffe70937",
        "Format version   : 2",
        "Table UUID       : t-uuid",
        "",
    ];
    let empty = snapshot_report(&file, &metadata(Vec::new(), None, Vec::new()));
    assert_eq!(empty[..6], head[..]);
    assert_eq!(empty[6..], ["No current snapshot (empty table)."]);

    let all = vec![snapshot(1, None, &[]), snapshot(2, Some(1), &[])];
    let full = snapshot_report(&file, &metadata(all, Some(2), Vec::new()));
    assert_eq!(full[..6], head[..]);
    assert_eq!(
        full[6..],
        [
            "Current snapshot:",
            "  ID                : 2",
            "  Timestamp         : 2023-11-14T22:13:20Z",
            "",
            "Previous snapshots:",
            "  ID                : 1",
            "  Timestamp         : 2023-11-14T22:13:20Z",
        ]
    );
    let alone = snapshot_report(
        &file,
        &metadata(vec![snapshot(1, None, &[])], Some(1), Vec::new()),
    );
    assert_eq!(alone.last().unwrap(), "  (none)");
}

#[test]
fn version_and_uuid_are_printed() {
    let file = MetadataFile::parse(
        "metadata/00042-65F87F03-6d7e-41be-8dce-c813ffe70937.metadata.json",
    )
    .unwrap();
    assert_eq!(
        version_lines(&file),
        vec!["Current version: 42", "UUID: 65f87f03-6d7e-41be-8dce-c813ffe70937"]
    );
    assert_eq!(
        no_metadata_message(),
        "no <NNNNN>-<uuid>.metadata.json files found under metadata/"
    );
}

const NS_A: &str = "019d3bc6-1e12-79e3-a0a2-caa2f0aec0b7";
const NS_B: &str = "019d9daf-e720-7131-ba9a-b771f5c2b2f1";
const TABLE_1: &str = "019d4111-2222-3333-4444-555555555555";
const TABLE_2: &str = "019d6666-7777-8888-9999-aaaaaaaaaaaa";
const TABLE_3: &str = "019dbbbb-cccc-dddd-eeee-ffffffffffff";

fn put(store: &InMemory, key: &str) {
    block_on(store.put(&ObjPath::from(key), PutPayload::from_static(b""))).unwrap();
}

fn subdirs(store: &InMemory, path: &str) -> Vec<String> {
    let key = ObjPath::from(object_path(path));
    let listing = block_on(store.list_with_delimiter(Some(&key))).unwrap();
    list_subdirs(&listing.common_prefixes.iter().map(|p| p.as_ref().to_string()).collect())
}

/// The tables that a search finds, and how many listings it asked for.
fn discover(store: &InMemory, prefix: &str) -> (Vec<TableEntry>, usize) {
    let mut search = Discovery::new(prefix);
    let mut path = prefix.to_string();
    let mut listings = 0;
    loop {
        listings += 1;
        match search.take(subdirs(store, &path)) {
            DiscoveryStep::List { path: next_path, next } => {
                search = next;
                path = next_path;
            }
            DiscoveryStep::Found(entries) => return (entries, listings),
        }
    }
}

#[test]
fn detects_table_level_when_metadata_is_a_direct_subdir() {
    let store = InMemory::new();
    put(&store, &format!("iceberg/{NS_A}/{TABLE_1}/metadata/00001.metadata.json"));

    let (pairs, listings) = discover(&store, &format!("iceberg/{NS_A}/{TABLE_1}"));

    assert_eq!(
        pairs,
        vec![TableEntry {
            namespace: NS_A.to_string(),
            table: TABLE_1.to_string(),
        }]
    );
    assert_eq!(listings, 1);
}

#[test]
fn detects_namespace_level_and_lists_each_table() {
    let store = InMemory::new();
    put(&store, &format!("iceberg/{NS_A}/{TABLE_1}/metadata/00001.metadata.json"));
    put(&store, &format!("iceberg/{NS_A}/{TABLE_2}/metadata/00001.metadata.json"));
    // No UUID: to be left out.
    put(&store, &format!("iceberg/{NS_A}/notes/readme.txt"));

    let (mut pairs, listings) = discover(&store, &format!("iceberg/{NS_A}"));
    pairs.sort_by(|a, b| a.table.cmp(&b.table));

    assert_eq!(
        pairs,
        vec![
            TableEntry { namespace: NS_A.to_string(), table: TABLE_1.to_string() },
            TableEntry { namespace: NS_A.to_string(), table: TABLE_2.to_string() },
        ]
    );
    assert_eq!(listings, 2);
}

#[test]
fn detects_root_level_and_walks_namespaces() {
    let store = InMemory::new();
    put(&store, &format!("iceberg/{NS_A}/{TABLE_1}/metadata/00001.metadata.json"));
    put(&store, &format!("iceberg/{NS_B}/{TABLE_2}/metadata/00001.metadata.json"));
    put(&store, &format!("iceberg/{NS_B}/{TABLE_3}/metadata/00001.metadata.json"));

    let (mut pairs, listings) = discover(&store, "iceberg");
    pairs.sort_by(|a, b| {
        (a.namespace.as_str(), a.table.as_str()).cmp(&(b.namespace.as_str(), b.table.as_str()))
    });

    assert_eq!(
        pairs,
        vec![
            TableEntry { namespace: NS_A.to_string(), table: TABLE_1.to_string() },
            TableEntry { namespace: NS_B.to_string(), table: TABLE_2.to_string() },
            TableEntry { namespace: NS_B.to_string(), table: TABLE_3.to_string() },
        ]
    );
    assert_eq!(listings, 3);
}

#[test]
fn returns_empty_when_no_uuid_subdirs() {
    let store = InMemory::new();
    put(&store, "iceberg/notes/readme.txt");
    assert!(discover(&store, "iceberg").0.is_empty());
}

#[test]
fn root_with_one_empty_namespace() {
    let store = InMemory::new();
    put(&store, &format!("iceberg/{NS_A}/notes/readme.txt"));
    let (pairs, listings) = discover(&store, "iceberg");
    assert!(pairs.is_empty());
    assert_eq!(listings, 2);
}

#[test]
fn split_ns_and_table_handles_short_paths() {
    assert_eq!(
        split_ns_and_table("iceberg/ns-uuid/table-uuid"),
        ("ns-uuid".to_string(), "table-uuid".to_string())
    );
    assert_eq!(
        split_ns_and_table("iceberg/ns-uuid/table-uuid/"),
        ("ns-uuid".to_string(), "table-uuid".to_string())
    );
    assert_eq!(
        split_ns_and_table("table-uuid"),
        (UNKNOWN.to_string(), "table-uuid".to_string())
    );
    assert_eq!(split_ns_and_table(""), (UNKNOWN.to_string(), UNKNOWN.to_string()));
}

#[test]
fn pairs_line_up() {
    let pairs = vec![
        TableEntry { namespace: "n".to_string(), table: "table-1".to_string() },
        TableEntry { namespace: UNKNOWN.to_string(), table: "t".to_string() },
    ];
    assert_eq!(
        pair_lines(&pairs),
        vec![
            "namespace | table  ",
            "----------+--------",
            "n         | table-1",
            "(unknown) | t      ",
        ]
    );
    assert_eq!(pair_lines(&Vec::new()), vec!["No tables found."]);
}
