//! Metadata: finding the current snapshot and schema, and the names of files.
use std::collections::HashMap;

use icehorn::iceberg::ident::read_uuid;
use icehorn::iceberg::metadata::{
    find_latest, find_specific_version, match_version, pick_metadata, version_not_found,
    LatestScan, MetadataChoice, MetadataFile,
};
use icehorn::iceberg::model::{find_snapshot, Metadata, Schema, SchemaField, Snapshot, Summary};
use object_store::memory::InMemory;
use object_store::path::Path as ObjPath;
use object_store::{ObjectStore, ObjectStoreExt, PutPayload};
use serde_json::Value;

fn number(value: Option<&Value>) -> Option<i64> {
    value.and_then(|v| v.as_i64())
}

fn items(value: Option<&Value>) -> Vec<Value> {
    value.and_then(|v| v.as_array()).cloned().unwrap_or_default()
}

fn text(value: Option<&Value>) -> Option<String> {
    value.and_then(|v| v.as_str()).map(|s| s.to_string())
}

fn metadata(raw: &str) -> Metadata {
    let v: Value = serde_json::from_str(raw).unwrap();
    let snapshots = items(v.get("snapshots"))
        .iter()
        .map(|s| Snapshot {
            snapshot_id: number(s.get("snapshot-id")).unwrap(),
            parent_snapshot_id: number(s.get("parent-snapshot-id")),
            timestamp_ms: number(s.get("timestamp-ms")).unwrap_or(0),
            manifest_list: text(s.get("manifest-list")),
            summary: Summary::from_entries(
                s.get("summary")
                    .and_then(|m| m.as_object())
                    .map(|m| m.iter().map(|(k, v)| (k.clone(), text(Some(v)).unwrap())).collect())
                    .unwrap_or_default(),
            ),
            other: HashMap::new(),
        })
        .collect();
    let schemas = items(v.get("schemas"))
        .iter()
        .map(|s| Schema {
            schema_id: number(s.get("schema-id")).unwrap() as i32,
            fields: items(s.get("fields"))
                .iter()
                .map(|f| SchemaField {
                    id: number(f.get("id")).unwrap() as i32,
                    name: text(f.get("name")).unwrap(),
                    required: f.get("required").and_then(|r| r.as_bool()).unwrap(),
                    field_type: f.get("type").unwrap().clone(),
                    other: HashMap::new(),
                })
                .collect(),
            other: HashMap::new(),
        })
        .collect();
    Metadata {
        format_version: number(v.get("format-version")).unwrap() as u32,
        table_uuid: text(v.get("table-uuid")),
        location: text(v.get("location")),
        current_snapshot_id: number(v.get("current-snapshot-id")),
        current_schema_id: number(v.get("current-schema-id")).map(|n| n as i32),
        schemas,
        snapshots,
        snapshot_log: Vec::new(),
        metadata_log: Vec::new(),
        statistics: Vec::new(),
        partition_statistics: Vec::new(),
        other: HashMap::new(),
    }
}

#[test]
fn deserializes_representative_metadata() {
    let raw = r#"{
            "format-version": 2,
            "table-uuid": "019d9daf-e720-7131-ba9a-b771f5c2b2f1",
            "location": "s3://bucket/tbl",
            "last-updated-ms": 1700000050000,
            "last-column-id": 3,
            "current-snapshot-id": 1000000000000000002,
            "snapshots": [
                {
                    "snapshot-id": 1000000000000000001,
                    "timestamp-ms": 1700000000000,
                    "summary": { "operation": "append", "added-records": "100" },
                    "manifest-list": "s3://bucket/tbl/metadata/snap-1.avro"
                },
                {
                    "snapshot-id": 1000000000000000002,
                    "parent-snapshot-id": 1000000000000000001,
                    "timestamp-ms": 1700000050000,
                    "summary": { "operation": "append", "added-records": "250" },
                    "manifest-list": "s3://bucket/tbl/metadata/snap-2.avro"
                }
            ]
        }"#;

    let meta = metadata(raw);
    assert_eq!(meta.format_version, 2);
    assert_eq!(meta.current_snapshot_id, Some(1000000000000000002));
    assert_eq!(meta.snapshots.len(), 2);
    assert_eq!(meta.snapshots[1].parent_snapshot_id, Some(1000000000000000001));
    assert_eq!(meta.snapshots[0].summary.get("operation").unwrap(), "append");
    assert_eq!(
        meta.current_snapshot().unwrap().snapshot_id,
        1000000000000000002
    );
    assert!(meta.snapshots[0].summary.get("deleted-records").is_none());
    assert_eq!(find_snapshot(&meta.snapshots, 1000000000000000001).unwrap().timestamp_ms, 1700000000000);
    assert!(find_snapshot(&meta.snapshots, 7).is_none());
}

#[test]
fn current_snapshot_handles_empty_table() {
    let raw = r#"{ "format-version": 2 }"#;
    let meta = metadata(raw);
    assert!(meta.current_snapshot().is_none());

    let raw = r#"{ "format-version": 2, "current-snapshot-id": -1 }"#;
    let meta = metadata(raw);
    assert!(meta.current_snapshot().is_none());
}

#[test]
fn current_snapshot_may_be_missing_from_the_list() {
    let meta = metadata(r#"{ "format-version": 2, "current-snapshot-id": 9 }"#);
    assert!(meta.current_snapshot().is_none());
}

#[test]
fn current_schema_resolves_by_id() {
    let raw = r#"{
            "format-version": 2,
            "current-schema-id": 1,
            "schemas": [
                {"schema-id": 0, "type": "struct", "fields": []},
                {"schema-id": 1, "type": "struct", "fields": [
                    {"id": 1, "name": "id", "required": true, "type": "long"},
                    {"id": 2, "name": "name", "required": false, "type": "string"}
                ]}
            ]
        }"#;
    let meta = metadata(raw);
    let schema = meta.current_schema().expect("current schema present");
    assert_eq!(schema.schema_id, 1);
    assert_eq!(schema.fields.len(), 2);
    assert_eq!(schema.fields[0].name, "id");
    assert!(schema.fields[0].required);
    assert_eq!(schema.fields[0].field_type.as_str(), Some("long"));
}

#[test]
fn current_schema_falls_back_to_sole_entry() {
    let raw = r#"{
            "format-version": 1,
            "schemas": [
                {"schema-id": 0, "fields": [
                    {"id": 1, "name": "x", "required": true, "type": "int"}
                ]}
            ]
        }"#;
    let meta = metadata(raw);
    assert_eq!(meta.current_schema().unwrap().schema_id, 0);
}

#[test]
fn current_schema_is_not_guessed() {
    let two = r#"{"format-version": 1, "schemas": [
        {"schema-id": 0, "fields": []}, {"schema-id": 1, "fields": []}]}"#;
    assert!(metadata(two).current_schema().is_none());
    let other = r#"{"format-version": 1, "current-schema-id": 5, "schemas": [
        {"schema-id": 0, "fields": []}]}"#;
    assert!(metadata(other).current_schema().is_none());
}

#[test]
fn parses_plain_metadata_name() {
    let m = MetadataFile::parse(
        "warehouse/tbl/metadata/00005-65f87f03-6d7e-41be-8dce-c813ffe70937.metadata.json",
    )
    .unwrap();
    assert_eq!(m.version, 5);
    assert_eq!(
        m.uuid,
        read_uuid("65f87f03-6d7e-41be-8dce-c813ffe70937").unwrap()
    );
    assert_eq!(m.filename(), "00005-65f87f03-6d7e-41be-8dce-c813ffe70937.metadata.json");
}

#[test]
fn parses_metadata_name_with_trailing_gz() {
    let m = MetadataFile::parse(
        "metadata/00123-019d9daf-e720-7131-ba9a-b771f5c2b2f1.metadata.json.gz",
    )
    .unwrap();
    assert_eq!(m.version, 123);
    assert_eq!(
        m.uuid,
        read_uuid("019d9daf-e720-7131-ba9a-b771f5c2b2f1").unwrap()
    );
}

#[test]
fn parses_metadata_name_with_gz_before_json() {
    let m = MetadataFile::parse(
        "metadata/44282-019d9daf-e720-7131-ba9a-b771f5c2b2f1.gz.metadata.json",
    )
    .unwrap();
    assert_eq!(m.version, 44282);
    assert_eq!(
        m.uuid,
        read_uuid("019d9daf-e720-7131-ba9a-b771f5c2b2f1").unwrap()
    );
}

#[test]
fn rejects_invalid_uuid() {
    assert!(MetadataFile::parse(
        "metadata/00001-not-a-real-uuid-at-all-xxxxxxxxxxxx.metadata.json",
    )
    .is_none());
}

#[test]
fn rejects_manifest_list() {
    assert!(MetadataFile::parse(
        "metadata/snap-1081867561747206961-1-fc6cefef-bfb2-4c11-a105-205785bcb5ac.avro",
    )
    .is_none());
}

#[test]
fn rejects_manifest_file() {
    assert!(MetadataFile::parse(
        "metadata/fc6cefef-bfb2-4c11-a105-205785bcb5ac-m0.avro",
    )
    .is_none());
}

#[test]
fn rejects_hadoop_style_name() {
    assert!(MetadataFile::parse("metadata/v2.metadata.json").is_none());
}

#[test]
fn rejects_version_hint_file() {
    assert!(MetadataFile::parse("metadata/version-hint.text").is_none());
}

#[test]
fn rejects_near_misses() {
    let uuid = "65f87f03-6d7e-41be-8dce-c813ffe70937";
    assert!(MetadataFile::parse(&format!("0005-{uuid}.metadata.json")).is_none());
    assert!(MetadataFile::parse(&format!("0000x-{uuid}.metadata.json")).is_none());
    assert!(MetadataFile::parse(&format!("+0005-{uuid}.metadata.json")).is_none());
    assert!(MetadataFile::parse(&format!("00005-{uuid}-metadata.json")).is_none());
    assert!(MetadataFile::parse(&format!("00005-{uuid}.metadata.xml")).is_none());
    assert!(MetadataFile::parse("00005-65f87f03").is_none());
    assert!(MetadataFile::parse("").is_none());
}

#[test]
fn find_latest_skips_interleaved_manifests_and_stops_at_non_digit() {
    let store = InMemory::new();
    let seed = [
        "metadata/00001-aaaaaaaa-aaaa-aaaa-aaaa-aaaaaaaaaaaa.metadata.json",
        "metadata/00002-bbbbbbbb-bbbb-bbbb-bbbb-bbbbbbbbbbbb.metadata.json",
        "metadata/00099abc-1234-5678-9abc-def012345678-m0.avro",
        "metadata/00003-cccccccc-cccc-cccc-cccc-cccccccccccc.metadata.json",
        "metadata/abcdef01-2345-6789-abcd-ef0123456789-m0.avro",
        "metadata/snap-123-1-abcdef01-2345-6789-abcd-ef0123456789.avro",
        "metadata/version-hint.text",
    ];
    for key in seed {
        futures::executor::block_on(store.put(&ObjPath::from(key), PutPayload::from_static(b"")))
            .unwrap();
    }
    let listed = futures::executor::block_on(futures::TryStreamExt::try_collect::<Vec<_>>(
        store.list(Some(&ObjPath::from("metadata"))),
    ))
    .unwrap();
    let keys: Vec<String> = listed.iter().map(|o| o.location.as_ref().to_string()).collect();

    let latest = find_latest(&keys).expect("should find the highest-version metadata file");
    assert_eq!(latest.version, 3);

    // The order in which they were named has the manifest in between.
    let seeded: Vec<String> = seed.iter().map(|s| s.to_string()).collect();
    assert_eq!(find_latest(&seeded).unwrap().version, 3);
}

#[test]
fn scan_stops_where_no_metadata_can_follow() {
    let mut scan = LatestScan::new();
    assert!(scan.offer("m/00002-bbbbbbbb-bbbb-bbbb-bbbb-bbbbbbbbbbbb.metadata.json"));
    assert!(scan.offer("m/00099abc-1234-5678-9abc-def012345678-m0.avro"));
    assert!(!scan.offer("m/snap-1.avro"));
    assert_eq!(scan.finish().unwrap().version, 2);
    assert!(find_latest(&Vec::new()).is_none());
    let after_snap = vec![
        "m/snap-1.avro".to_string(),
        "m/00002-bbbbbbbb-bbbb-bbbb-bbbb-bbbbbbbbbbbb.metadata.json".to_string(),
    ];
    assert!(find_latest(&after_snap).is_none());
}

#[test]
fn first_file_of_a_version_counts() {
    let a = "m/00002-aaaaaaaa-aaaa-aaaa-aaaa-aaaaaaaaaaaa.metadata.json".to_string();
    let b = "m/00002-bbbbbbbb-bbbb-bbbb-bbbb-bbbbbbbbbbbb.metadata.json".to_string();
    assert_eq!(find_latest(&vec![a.clone(), b.clone()]).unwrap().path, a);
    assert_eq!(find_specific_version(&vec![a.clone(), b], 2).unwrap().path, a);
    assert!(find_specific_version(&vec![a.clone()], 3).is_none());
    assert!(match_version(&a, 2).is_some());
    assert!(match_version(&a, 1).is_none());
}

#[test]
fn current_version_is_picked_without_a_search() {
    let latest =
        MetadataFile::parse("m/00007-aaaaaaaa-aaaa-aaaa-aaaa-aaaaaaaaaaaa.metadata.json").unwrap();
    assert!(matches!(pick_metadata(None, &latest), MetadataChoice::Latest));
    assert!(matches!(pick_metadata(Some(7), &latest), MetadataChoice::Latest));
    assert!(matches!(pick_metadata(Some(3), &latest), MetadataChoice::Search(3)));
    assert_eq!(latest.duplicate().path, latest.path);
}

#[test]
fn missing_version_is_named() {
    assert_eq!(
        version_not_found(7, "ns/t/metadata"),
        "metadata version 00007 not found under ns/t/metadata"
    );
}

#[test]
fn summary_has_one_value_for_a_key() {
    let pair = |k: &str, v: &str| (k.to_string(), v.to_string());
    let summary = Summary::from_entries(vec![pair("a", "1"), pair("b", "2"), pair("a", "3")]);
    assert_eq!(summary.get("a"), Some("3"));
    assert_eq!(summary.get("b"), Some("2"));
    assert_eq!(summary.get("c"), None);
    assert_eq!(summary.into_entries().len(), 2);
}
