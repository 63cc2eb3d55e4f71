//! Manifests: paths in them, and how they are walked and rewritten.
use apache_avro::types::Value;
use apache_avro::{Schema, Writer};
use icehorn::copy::file::{
    classify, relocate_text, rewrite_avro, rewrite_json, rewrite_paths, AvroRewriteError, FileType,
    JsonRewriteError,
};
use icehorn::copy::transfer::{run_copy, RewriteError};
use icehorn::gzip::{pack, sniff_gzip, unpack};
use icehorn::iceberg::avro::{crate_value, read_records, AvroValue, ContainerError};
use icehorn::iceberg::manifest::{
    collect_named, extract_file_paths, extract_manifest_paths, manifest_key, strip_s3_prefix,
    ListWalk, WalkEvent,
};

fn record(fields: Vec<(&str, AvroValue)>) -> AvroValue {
    AvroValue::Record(fields.into_iter().map(|(n, v)| (n.to_string(), v)).collect())
}

fn text(s: &str) -> AvroValue {
    AvroValue::Text(s.to_string())
}

const LIST_SCHEMA: &str = r#"{"type":"record","name":"manifest_file","fields":[
    {"name":"manifest_path","type":"string"},
    {"name":"manifest_length","type":"long"}]}"#;

const MANIFEST_SCHEMA: &str = r#"{"type":"record","name":"manifest_entry","fields":[
    {"name":"status","type":"int"},
    {"name":"sizes","type":{"type":"map","values":"double"}},
    {"name":"data_file","type":{"type":"record","name":"r2","fields":[
        {"name":"file_path","type":"string"},
        {"name":"note","type":["null","string"]}]}}]}"#;

fn list_file(paths: &[&str]) -> Vec<u8> {
    let schema = Schema::parse_str(LIST_SCHEMA).unwrap();
    let mut writer = Writer::new(&schema, Vec::new());
    for (i, p) in paths.iter().enumerate() {
        writer
            .append(Value::Record(vec![
                ("manifest_path".into(), Value::String(p.to_string())),
                ("manifest_length".into(), Value::Long(i as i64)),
            ]))
            .unwrap();
    }
    writer.into_inner().unwrap()
}

fn manifest_file(paths: &[&str]) -> Vec<u8> {
    let schema = Schema::parse_str(MANIFEST_SCHEMA).unwrap();
    let mut writer = Writer::new(&schema, Vec::new());
    for p in paths {
        let sizes = [("s3://a/x".to_string(), Value::Double(1.5))].into_iter().collect();
        writer
            .append(Value::Record(vec![
                ("status".into(), Value::Int(1)),
                ("sizes".into(), Value::Map(sizes)),
                (
                    "data_file".into(),
                    Value::Record(vec![
                        ("file_path".into(), Value::String(p.to_string())),
                        (
                            "note".into(),
                            Value::Union(1, Box::new(Value::String("s3://a/note".into()))),
                        ),
                    ]),
                ),
            ]))
            .unwrap();
    }
    writer.into_inner().unwrap()
}

#[test]
fn strip_s3_prefix_handles_s3_and_s3a() {
    assert_eq!(strip_s3_prefix("s3://b/path/to/file"), Some("path/to/file"));
    assert_eq!(strip_s3_prefix("s3a://b/path/to/file"), Some("path/to/file"));
    assert_eq!(strip_s3_prefix("not-an-s3-url"), None);
    assert_eq!(strip_s3_prefix("s3://bucket-only"), None);
}

#[test]
fn collect_named_finds_field_at_any_depth() {
    let v = record(vec![
        (
            "data_file",
            record(vec![("file_path", text("a.parquet")), ("file_size", AvroValue::Long(123))]),
        ),
        ("status", AvroValue::Int(1)),
    ]);
    let mut out = Vec::new();
    collect_named(&v, "file_path", &mut out);
    assert_eq!(out, vec!["a.parquet".to_string()]);
}

#[test]
fn collect_named_handles_union_wrapping() {
    let v = record(vec![(
        "file_path",
        AvroValue::Union(1, Box::new(text("b.parquet"))),
    )]);
    let mut out = Vec::new();
    collect_named(&v, "file_path", &mut out);
    assert_eq!(out, vec!["b.parquet".to_string()]);
}

#[test]
fn collect_named_walks_arrays_and_dictionaries() {
    let inner = record(vec![("p", text("1"))]);
    let other = record(vec![("p", text("2"))]);
    let v = AvroValue::Array(vec![
        inner,
        AvroValue::Dictionary(vec![("k".to_string(), other)]),
        record(vec![("p", AvroValue::Int(3)), ("q", text("4"))]),
    ]);
    let mut out = vec!["0".to_string()];
    collect_named(&v, "p", &mut out);
    assert_eq!(out, vec!["0", "1", "2"]);
}

#[test]
fn paths_are_taken_from_files() {
    let list = list_file(&["s3://a/m1.avro", "s3://a/m2.avro"]);
    assert_eq!(
        extract_manifest_paths(&list).ok().unwrap(),
        vec!["s3://a/m1.avro", "s3://a/m2.avro"]
    );
    assert!(extract_file_paths(&list).ok().unwrap().is_empty());
    let manifest = manifest_file(&["s3://a/1.parquet"]);
    assert_eq!(extract_file_paths(&manifest).ok().unwrap(), vec!["s3://a/1.parquet"]);
    assert!(matches!(extract_file_paths(b"junk"), Err(ContainerError::Open(_))));
    let cut = &manifest[..manifest.len() - 3];
    assert!(matches!(extract_file_paths(cut), Err(ContainerError::Record(_))));
}

#[test]
fn keys_of_manifests() {
    assert_eq!(manifest_key("s3://b/path/m.avro"), "path/m.avro");
    assert_eq!(manifest_key("path/m.avro"), "path/m.avro");
}

#[test]
fn walk_reads_every_manifest_once() {
    let mut lists = ListWalk::new(3);
    assert_eq!(
        lists.take(Some(vec!["m1".to_string(), "m2".to_string()])),
        WalkEvent::ManifestList { done: 1, total: 3 }
    );
    assert_eq!(lists.take(None), WalkEvent::ManifestList { done: 2, total: 3 });
    assert_eq!(
        lists.take(Some(vec!["m2".to_string(), "m3".to_string()])),
        WalkEvent::ManifestList { done: 3, total: 3 }
    );
    let mut walk = lists.finish();
    let mut names: Vec<String> = walk.manifests().iter().map(|s| s.to_string()).collect();
    names.sort();
    assert_eq!(names, vec!["m1", "m2", "m3"]);
    assert_eq!(
        walk.take(Some(vec!["f1".to_string(), "f2".to_string()])),
        WalkEvent::Manifest { done: 1, total: 3 }
    );
    assert_eq!(walk.take(None), WalkEvent::Manifest { done: 2, total: 3 });
    assert_eq!(
        walk.take(Some(vec!["f2".to_string()])),
        WalkEvent::Manifest { done: 3, total: 3 }
    );
    let tree = walk.finish();
    let mut manifests = tree.manifest_files;
    manifests.sort();
    assert_eq!(manifests, vec!["m1", "m2", "m3"]);
    let mut files = tree.content_files;
    files.sort();
    assert_eq!(files, vec!["f1", "f2"]);
}

#[test]
fn files_are_told_apart_by_their_endings() {
    assert_eq!(classify("a/b.parquet"), FileType::Parquet);
    assert_eq!(classify("a/b.metadata.json"), FileType::Json);
    assert_eq!(classify("a/b.avro"), FileType::Avro);
    assert_eq!(classify("a/b.metadata.json.gz"), FileType::Other);
    assert_eq!(classify("avro"), FileType::Other);
    assert_eq!(FileType::Json.as_str(), "json");
    assert_eq!(FileType::Avro.as_str(), "avro");
    assert_eq!(FileType::Parquet.as_str(), "parquet");
    assert_eq!(FileType::Other.as_str(), "other");
    assert!(FileType::Json.is_rewritten() && FileType::Avro.is_rewritten());
    assert!(!FileType::Parquet.is_rewritten() && !FileType::Other.is_rewritten());
}

#[test]
fn paths_are_rewritten_in_their_fields_only() {
    let mut v = record(vec![
        ("manifest_path", text("s3://a/m.avro")),
        ("other", text("s3://a/other")),
        (
            "data_file",
            AvroValue::Union(
                0,
                Box::new(record(vec![
                    ("file_path", text("s3://a/f.parquet")),
                    ("wrapped", AvroValue::Array(vec![record(vec![("file_path", text("no match"))])])),
                ])),
            ),
        ),
        ("file_path", AvroValue::Union(1, Box::new(text("s3://a/optional")))),
    ]);
    rewrite_paths(&mut v, "s3://a", "s3://b");
    let mut paths = Vec::new();
    collect_named(&v, "manifest_path", &mut paths);
    collect_named(&v, "file_path", &mut paths);
    collect_named(&v, "other", &mut paths);
    assert_eq!(
        paths,
        vec!["s3://b/m.avro", "s3://b/f.parquet", "no match", "s3://b/optional", "s3://a/other"]
    );
}

#[test]
fn avro_files_are_rewritten() {
    let out = rewrite_avro(&manifest_file(&["s3://a/1.parquet", "s3://c/2.parquet"]), "s3://a", "s3://b")
        .ok()
        .unwrap();
    assert_eq!(
        extract_file_paths(&out).ok().unwrap(),
        vec!["s3://b/1.parquet", "s3://c/2.parquet"]
    );
    let records = read_records(&out).ok().unwrap();
    let mut notes = Vec::new();
    collect_named(&records[0], "note", &mut notes);
    assert_eq!(notes, vec!["s3://a/note"]);
    // What the library does not look into comes through as it was.
    match crate_value(records.into_iter().next().unwrap()) {
        Value::Record(fields) => match &fields[1].1 {
            Value::Map(sizes) => assert_eq!(sizes.get("s3://a/x"), Some(&Value::Double(1.5))),
            other => panic!("{other:?}"),
        },
        other => panic!("{other:?}"),
    }
    assert!(matches!(
        rewrite_avro(b"junk", "a", "b"),
        Err(AvroRewriteError::Read(ContainerError::Open(_)))
    ));
}

#[test]
fn json_is_rewritten_plain_and_compressed() {
    let plain = br#"{"location":"s3://a/t","x":"s3://a/t/y"}"#;
    let wanted = br#"{"location":"s3://b/t","x":"s3://b/t/y"}"#;
    assert_eq!(rewrite_json(plain, "s3://a", "s3://b").ok().unwrap(), wanted);

    let packed = pack(plain.to_vec(), true).unwrap();
    assert!(sniff_gzip(&packed));
    let out = rewrite_json(&packed, "s3://a", "s3://b").ok().unwrap();
    assert!(sniff_gzip(&out));
    assert_eq!(unpack(&out).unwrap(), wanted);

    assert!(matches!(rewrite_json(&[0xff, 0xfe], "a", "b"), Err(JsonRewriteError::NotUtf8)));
    assert!(matches!(rewrite_json(&[0x1f, 0x8b, 0], "a", "b"), Err(JsonRewriteError::Decompress)));
    let bad_text = pack(vec![0xff], true).unwrap();
    assert!(matches!(rewrite_json(&bad_text, "a", "b"), Err(JsonRewriteError::Decompress)));
    assert_eq!(relocate_text(b"xax".to_vec(), "a", "bb"), Some(b"xbbx".to_vec()));
    assert_eq!(relocate_text(vec![0xff], "a", "b"), None);
}

#[test]
fn read_json_passes_plain_bytes_through() {
    let body = br#"{"format-version":2}"#.to_vec();
    assert_eq!(unpack(&body).unwrap(), body);
}

#[test]
fn read_json_decompresses_gzipped_bytes_regardless_of_suffix() {
    let plain = br#"{"format-version":2}"#;
    let mut encoder = flate2::write::GzEncoder::new(Vec::new(), flate2::Compression::default());
    std::io::Write::write_all(&mut encoder, plain).unwrap();
    let gzipped = encoder.finish().unwrap();
    assert_eq!(unpack(&gzipped).unwrap(), plain);
    assert!(unpack(&[0x1f, 0x8b]).is_err());
    assert!(!sniff_gzip(&[0x1f]));
    assert_eq!(pack(plain.to_vec(), false).unwrap(), plain);
}

#[test]
fn files_are_copied_by_their_kind() {
    let data = b"s3://a in the data".to_vec();
    for kind in [FileType::Parquet, FileType::Other] {
        assert_eq!(run_copy(kind, data.clone(), "s3://a", "s3://b").ok().unwrap(), data);
    }
    assert_eq!(
        run_copy(FileType::Json, data.clone(), "s3://a", "s3://b").ok().unwrap(),
        b"s3://b in the data"
    );
    assert!(matches!(
        run_copy(FileType::Avro, data, "s3://a", "s3://b"),
        Err(RewriteError::Avro(_))
    ));
    assert!(matches!(
        run_copy(FileType::Json, vec![0xff], "s3://a", "s3://b"),
        Err(RewriteError::Json(JsonRewriteError::NotUtf8))
    ));
    let list = list_file(&["s3://a/m1.avro"]);
    let out = run_copy(FileType::Avro, list, "s3://a", "s3://b").ok().unwrap();
    assert_eq!(extract_manifest_paths(&out).ok().unwrap(), vec!["s3://b/m1.avro"]);
}
