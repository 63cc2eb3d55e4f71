//! Paths, keys and directories.
use futures::executor::block_on;
use icehorn::copy::paths::{filename_of, relative_under, strip_url_prefix};
use icehorn::iceberg::ident::{is_uuid, read_uuid, write_uuid};
use icehorn::iceberg::layout::{
    join, key_under, last_segment, list_subdirs, list_uuids, object_path, without_last_segment,
};
use icehorn::text::replace_all;
use object_store::memory::InMemory;
use object_store::path::Path as ObjPath;
use object_store::{ObjectStore, ObjectStoreExt, PutPayload};

fn put(store: &InMemory, key: &str) {
    block_on(store.put(&ObjPath::from(key), PutPayload::from_static(b""))).unwrap();
}

fn common_prefixes(store: &InMemory, prefix: &str) -> Vec<String> {
    let key = ObjPath::from(object_path(prefix));
    let listing = block_on(store.list_with_delimiter(Some(&key))).unwrap();
    listing.common_prefixes.iter().map(|p| p.as_ref().to_string()).collect()
}

#[test]
fn strip_url_prefix_handles_with_and_without_trailing_slash() {
    let src = "s3://bucket/iceberg/ns/uuid";
    assert_eq!(
        strip_url_prefix(src, "s3://bucket/iceberg/ns/uuid/metadata/foo.avro"),
        "metadata/foo.avro"
    );
    assert_eq!(strip_url_prefix(src, "s3://bucket/iceberg/ns/uuid"), "");
}

#[test]
fn filename_of_returns_last_segment() {
    assert_eq!(
        filename_of("metadata/00005-uuid.metadata.json"),
        "00005-uuid.metadata.json"
    );
    assert_eq!(filename_of("nofileinpath"), "nofileinpath");
}

#[test]
fn relative_under_strips_prefix_and_leading_slash() {
    let p = object_path("ns/uuid/data/file.parquet");
    assert_eq!(relative_under(&p, "ns/uuid"), "data/file.parquet");
}

#[test]
fn paths_outside_the_prefix_stay() {
    assert_eq!(relative_under("/other/x", "ns"), "other/x");
    assert_eq!(strip_url_prefix("s3://a", "s3://b/c"), "s3://b/c");
    assert_eq!(
        strip_url_prefix("s3://b/t1", "s3://b/t10/data/x.parquet"),
        "s3://b/t10/data/x.parquet"
    );
    assert_eq!(strip_url_prefix("s3://b/t1", "/data/x.parquet"), "/data/x.parquet");
    assert_eq!(strip_url_prefix("s3://b/t/", "s3://b/t/x"), "x");
    assert_eq!(strip_url_prefix("s3://b/t/", "s3://b/t/"), "");
    assert_eq!(strip_url_prefix("s3://b/t/", "s3://b/t"), "s3://b/t");
}

#[test]
fn last_segment_strips_trailing_slashes() {
    assert_eq!(last_segment("ns/uuid/"), Some("uuid"));
    assert_eq!(last_segment("ns/uuid"), Some("uuid"));
    assert_eq!(last_segment("just-one"), Some("just-one"));
    assert_eq!(last_segment(""), None);
    assert_eq!(last_segment("///"), None);
    assert_eq!(without_last_segment("ns/uuid/"), "ns/");
    assert_eq!(without_last_segment("one"), "");
}

#[test]
fn is_uuid_accepts_standard_form_and_rejects_others() {
    assert!(is_uuid("019d3bc6-1e12-79e3-a0a2-caa2f0aec0b7"));
    assert!(!is_uuid("notes"));
    assert!(!is_uuid(""));
}

#[test]
fn is_uuid_accepts_the_other_forms() {
    assert!(is_uuid("019D3BC61E1279E3A0A2CAA2F0AEC0B7"));
    assert!(is_uuid("{019d3bc6-1e12-79e3-a0a2-caa2f0aec0b7}"));
    assert!(is_uuid("urn:UUID:019d3bc6-1e12-79e3-a0a2-caa2f0aec0b7"));
    assert!(!is_uuid("019d3bc6-1e12-79e3-a0a2caa2f0aec0b7"));
    assert!(!is_uuid("019d3bc6x1e12-79e3-a0a2-caa2f0aec0b7"));
    assert!(!is_uuid("019g3bc6-1e12-79e3-a0a2-caa2f0aec0b7"));
}

#[test]
fn written_uuid_reads_back() {
    let n: u128 = 0x019d3bc6_1e12_79e3_a0a2_caa2f0aec0b7;
    assert_eq!(write_uuid(n), "019d3bc6-1e12-79e3-a0a2-caa2f0aec0b7");
    assert_eq!(read_uuid(&write_uuid(n)), Some(n));
    assert_eq!(write_uuid(0), "00000000-0000-0000-0000-000000000000");
    assert_eq!(read_uuid(&write_uuid(u128::MAX)), Some(u128::MAX));
    assert_eq!(read_uuid("nope"), None);
}

#[test]
fn keys_are_cleaned_up() {
    assert_eq!(object_path("a/b/c.parquet"), "a/b/c.parquet");
    assert_eq!(object_path("/a//b/"), "a/b");
    assert_eq!(object_path("a b/c"), "a b/c");
    assert_eq!(object_path("a/100%"), "a/100%25");
    assert_eq!(join("a/", "b"), "a//b");
    assert_eq!(key_under("a/", "b"), "a/b");
    assert_eq!(key_under("ns/t", "metadata/x.avro"), "ns/t/metadata/x.avro");
}

#[test]
fn list_subdirs_returns_leaf_names_without_trailing_slash() {
    let store = InMemory::new();
    let prefix = "iceberg/ns";
    for key in [
        "iceberg/ns/019d3bc6-1e12-79e3-a0a2-caa2f0aec0b7/data.parquet",
        "iceberg/ns/019d9daf-e720-7131-ba9a-b771f5c2b2f1/data.parquet",
        "iceberg/ns/notes/readme.txt",
    ] {
        put(&store, key);
    }

    let mut subdirs = list_subdirs(&common_prefixes(&store, prefix));
    subdirs.sort();
    assert_eq!(
        subdirs,
        vec![
            "019d3bc6-1e12-79e3-a0a2-caa2f0aec0b7".to_string(),
            "019d9daf-e720-7131-ba9a-b771f5c2b2f1".to_string(),
            "notes".to_string(),
        ]
    );
    assert_eq!(list_subdirs(&vec!["a/b/".to_string(), "//".to_string()]), vec!["b".to_string()]);
}

#[test]
fn list_uuids_filters_out_non_uuid_subdirs() {
    let store = InMemory::new();
    let prefix = "iceberg/ns";
    for key in [
        "iceberg/ns/019d3bc6-1e12-79e3-a0a2-caa2f0aec0b7/data.parquet",
        "iceberg/ns/019d9daf-e720-7131-ba9a-b771f5c2b2f1/data.parquet",
        "iceberg/ns/notes/readme.txt",
    ] {
        put(&store, key);
    }

    let mut uuids = list_uuids(&common_prefixes(&store, prefix));
    uuids.sort();
    assert_eq!(
        uuids,
        vec![
            "019d3bc6-1e12-79e3-a0a2-caa2f0aec0b7".to_string(),
            "019d9daf-e720-7131-ba9a-b771f5c2b2f1".to_string(),
        ]
    );
}

#[test]
fn discovers_uuid_named_subdirs_under_namespace() {
    let store = InMemory::new();
    let ns = "iceberg/ns-uuid";

    let with_metadata = "019d3bc6-1e12-79e3-a0a2-caa2f0aec0b7";
    let without_metadata = "019d9daf-e720-7131-ba9a-b771f5c2b2f1";

    put(
        &store,
        &format!(
            "{ns}/{with_metadata}/metadata/00001-65f87f03-6d7e-41be-8dce-c813ffe70937.metadata.json"
        ),
    );
    put(&store, &format!("{ns}/{without_metadata}/data/file.parquet"));
    put(&store, &format!("{ns}/notes/readme.txt"));

    let mut tables = list_uuids(&common_prefixes(&store, ns));
    tables.sort();
    assert_eq!(
        tables,
        vec![with_metadata.to_string(), without_metadata.to_string()]
    );
}

#[test]
fn discovers_tables_returns_empty_when_namespace_has_none() {
    let store = InMemory::new();
    let ns = "iceberg/empty";
    put(&store, &format!("{ns}/notes/file.txt"));

    let tables = list_uuids(&common_prefixes(&store, ns));
    assert!(tables.is_empty());
}

#[test]
fn moved_path_stays_the_same_below_the_table() {
    let (src, dst) = ("s3://src/ns/t", "s3://other/place/t");
    let path = join(src, "metadata/snap-1.avro");
    let moved = replace_all(&path, src, dst);
    assert_eq!(moved, "s3://other/place/t/metadata/snap-1.avro");
    assert_eq!(strip_url_prefix(dst, &moved), strip_url_prefix(src, &path));
    assert_eq!(strip_url_prefix(src, &path), "metadata/snap-1.avro");
}
