//! Container files that the reader can be given, and those that it cannot.
use apache_avro::types::Value;
use apache_avro::{Reader, Schema, Writer};
use icehorn::copy::file::{rewrite_avro, AvroRewriteError};
use icehorn::iceberg::avro::{read_records, ContainerError};
use icehorn::iceberg::avro_schema::{test_schema, test_type_name};
use icehorn::iceberg::container::test_readable;
use icehorn::iceberg::manifest::extract_file_paths;

fn number(n: i64) -> Vec<u8> {
    let mut z = ((n << 1) ^ (n >> 63)) as u64;
    let mut out = Vec::new();
    while z > 0x7f {
        out.push((z & 0x7f) as u8 | 0x80);
        z >>= 7;
    }
    out.push(z as u8);
    out
}

/// A container file with the schema and the blocks.
fn container(schema: &str, blocks: &[(i64, &[u8])]) -> Vec<u8> {
    let mut out = b"Obj\x01".to_vec();
    out.extend(number(1));
    out.extend(number(11));
    out.extend(b"avro.schema");
    out.extend(number(schema.len() as i64));
    out.extend(schema.as_bytes());
    out.push(0);
    out.extend([7; 16]);
    for (count, data) in blocks {
        out.extend(number(*count));
        out.extend(number(data.len() as i64));
        out.extend(*data);
        out.extend([7; 16]);
    }
    out
}

fn is_unfit(schema: &str) -> bool {
    let file = container(schema, &[]);
    assert_eq!(test_readable(&file, false), !matches!(read_records(&file), Err(ContainerError::Unfit)));
    !test_readable(&file, false)
}

fn fits(schema: &str) -> bool {
    test_schema(&serde_json::from_str(schema).unwrap(), false)
}

#[test]
fn names_of_types() {
    for good in ["a", "_", "r102", "k117_v118", "a.b", "com.pterodator.icehorn.X", ".a"] {
        assert!(test_type_name(good), "{good}");
        assert!(apache_avro::schema::Name::new(good).is_ok(), "{good}");
    }
    for bad in ["", ".", "a-b", "1a", "a.", "a..b", ".a.b", "a.1", "é", "a b", "..a"] {
        assert!(!test_type_name(bad), "{bad}");
        assert!(apache_avro::schema::Name::new(bad).is_err(), "{bad}");
    }
}

#[test]
fn names_that_are_none_are_refused() {
    assert!(is_unfit(r#"{"type":"record","name":"a-b","fields":[]}"#));
    assert!(is_unfit(r#"{"type":"enum","name":"a b","symbols":["X"]}"#));
    assert!(is_unfit(r#"{"type":"fixed","name":"1","size":4}"#));
    assert!(is_unfit(r#"{"type":"record","name":"a","aliases":["b-c"],"fields":[]}"#));
    assert!(is_unfit(
        r#"{"type":"record","name":"a","fields":[
            {"name":"x","type":["null",{"type":"fixed","name":"f-g","size":4}]}]}"#
    ));
    assert!(!is_unfit(r#"{"type":"record","name":"x.a","aliases":["b","y.c"],"fields":[]}"#));
}

#[test]
fn records_that_hold_themselves_are_refused() {
    assert!(is_unfit(r#"{"type":"record","name":"R","fields":[{"name":"r","type":"R"}]}"#));
    assert!(is_unfit(
        r#"{"type":"record","name":"R","namespace":"n","fields":[
            {"name":"s","type":{"type":"record","name":"S","fields":[{"name":"r","type":"n.R"}]}}]}"#
    ));
    assert!(is_unfit(
        r#"{"type":"record","name":"R","aliases":["Q"],"fields":[{"name":"q","type":"Q"}]}"#
    ));
    // A list is another matter: it comes to an end where the union says so.
    let list = r#"{"type":"record","name":"R","fields":[{"name":"next","type":["null","R"]}]}"#;
    assert!(!is_unfit(list));
    let file = container(list, &[(1, &[2, 2, 0])]);
    assert_eq!(read_records(&file).ok().unwrap().len(), 1);
    // So is a record that is used twice.
    assert!(fits(
        r#"{"type":"record","name":"R","fields":[
            {"name":"a","type":{"type":"record","name":"S","fields":[]}},
            {"name":"b","type":"S"}]}"#
    ));
    // So are two records of one name in two namespaces, and an alias that
    // differs in its namespace alone.
    assert!(!is_unfit(
        r#"{"type":"record","name":"R","fields":[
            {"name":"a","type":{"type":"record","name":"x.S","fields":[]}},
            {"name":"b","type":{"type":"record","name":"y.S","fields":[]}}]}"#
    ));
    assert!(!is_unfit(r#"{"type":"record","name":"x.R","aliases":["y.R"],"fields":[]}"#));
    // One inside the other is not told from a record in itself.
    assert!(is_unfit(
        r#"{"type":"record","name":"x.S","fields":[
            {"name":"a","type":{"type":"record","name":"y.S","fields":[]}}]}"#
    ));
    // The way back may lead through a record that comes later.
    assert!(is_unfit(
        r#"{"type":"record","name":"R","fields":[
            {"name":"a","type":["null",{"type":"record","name":"S","fields":[
                {"name":"t","type":{"type":"record","name":"T","fields":[
                    {"name":"s","type":{"type":"S"}}]}}]}]}]}"#
    ));
}

#[test]
fn sizes_beyond_reason_are_refused() {
    assert!(is_unfit(r#"{"type":"fixed","name":"f","size":9223372036854775807}"#));
    assert!(is_unfit(r#"{"type":"fixed","name":"f","size":268435456}"#));
    assert!(is_unfit(r#"{"type":"fixed","name":"f","size":-1}"#));
    assert!(!is_unfit(r#"{"type":"fixed","name":"f","size":268435455}"#));
    let endless = container(r#""null""#, &[(i64::MAX, &[])]);
    assert!(matches!(read_records(&endless), Err(ContainerError::Unfit)));
    let negative = container(r#""null""#, &[(-1, &[])]);
    assert!(matches!(read_records(&negative), Err(ContainerError::Unfit)));
    let later = container(r#""null""#, &[(2, &[]), (1 << 40, &[])]);
    assert!(matches!(read_records(&later), Err(ContainerError::Unfit)));
    let three = container(r#""null""#, &[(2, &[]), (1, &[])]);
    assert_eq!(read_records(&three).ok().unwrap().len(), 3);
}

#[test]
fn parts_of_the_wrong_kind_are_refused() {
    let with = |part: &str| {
        format!(
            r#"{{"type":"record","name":"R","fields":[
                {{"name":"a","type":{{"type":"record","name":"S","fields":[],{part}}},"default":1}}]}}"#
        )
    };
    for part in [r#""size":true"#, r#""items":5"#, r#""order":[1]"#, r#""symbols":[1]"#] {
        assert!(is_unfit(&with(part)), "{part}");
    }
    assert!(!is_unfit(&with(r#""field-id":5"#)));
    // They matter only for the message on a default value that is none.
    let odd = r#"{"type":"record","name":"S","fields":[],"size":true,"items":5,"order":[1]}"#;
    assert!(read_records(&container(odd, &[])).is_ok());
    // A type with a name has all its parts.
    for part in ["record", "enum", "fixed"] {
        assert!(is_unfit(&format!(r#"{{"type":"{part}","name":"S"}}"#)), "{part}");
    }
}

#[test]
fn default_values_are_read() {
    let field = |rest: &str| {
        container(
            &format!(r#"{{"type":"record","name":"R","fields":[{{"name":"a",{rest}}}]}}"#),
            &[],
        )
    };
    for good in [
        r#""type":{"type":"map","values":"string"},"default":{}"#,
        r#""type":{"type":"map","values":"string"},"default":{"k":"v"}"#,
        r#""type":{"type":"map","values":["null","R"]},"default":{}"#,
        r#""type":{"type":"array","items":"int"},"default":[1,2]"#,
        r#""type":{"type":"array","items":["null","int"]},"default":[null,2]"#,
        r#""type":{"type":"record","name":"S","fields":[{"name":"x","type":"int"}]},
           "default":{"x":1}"#,
        r#""type":["null","R"],"default":null"#,
        r#""type":"bytes","default":"x""#,
    ] {
        assert!(read_records(&field(good)).is_ok(), "{good}");
    }
    // Those that are none are refused by the parser.
    for bad in [
        r#""type":"int","default":{}"#,
        r#""type":"int","default":[1]"#,
        r#""type":{"type":"array","items":"int"},"default":["x"]"#,
        r#""type":{"type":"map","values":"int"},"default":1"#,
    ] {
        assert!(matches!(read_records(&field(bad)), Err(ContainerError::Open(_))), "{bad}");
    }
    // Here it would look for a type in a union before all of them are known.
    for unfit in [
        r#""type":{"type":"array","items":["null","R"]},"default":[{}]"#,
        r#""type":{"type":"map","values":["null","R"]},"default":{"k":{}}"#,
    ] {
        assert!(matches!(read_records(&field(unfit)), Err(ContainerError::Unfit)), "{unfit}");
    }
}

#[test]
fn cut_headers_are_refused() {
    let file = container(r#""null""#, &[]);
    assert!(test_readable(&file, false));
    for len in 4..file.len() {
        assert!(!test_readable(&file[..len], false), "{len}");
        assert!(matches!(read_records(&file[..len]), Err(ContainerError::Unfit)));
    }
    // What is no container file at all is left to the reader.
    for len in 0..4 {
        assert!(matches!(read_records(&file[..len]), Err(ContainerError::Open(_))));
    }
    assert!(matches!(read_records(&container("no json", &[])), Err(ContainerError::Open(_))));
}

#[test]
fn parts_of_a_header_may_come_with_their_length() {
    let mut file = b"Obj\x01".to_vec();
    file.extend(number(-1));
    file.extend(number(19));
    file.extend(number(11));
    file.extend(b"avro.schema");
    file.extend(number(6));
    file.extend(br#""null""#);
    file.extend(number(1));
    file.extend(number(1));
    file.extend(b"k");
    file.extend(number(0));
    file.push(0);
    file.extend([7; 16]);
    assert!(test_readable(&file, false));
    assert!(read_records(&file).ok().unwrap().is_empty());
}

#[test]
fn schema_of_a_manifest_is_read() {
    assert!(fits(
        r#"{"type":"record","name":"manifest_entry","fields":[
            {"name":"status","type":"int","field-id":0},
            {"name":"snapshot_id","type":["null","long"],"default":null,"field-id":1},
            {"name":"data_file","type":{"type":"record","name":"r2","fields":[
                {"name":"file_path","type":"string","doc":"Location URI","field-id":100},
                {"name":"partition","type":{"type":"record","name":"r102","fields":[
                    {"name":"day","type":["null",{"type":"int","logicalType":"date"}],
                     "default":null,"field-id":1000},
                    {"name":"price","type":["null",{"type":"fixed","name":"decimal_9_2","size":4,
                     "logicalType":"decimal","precision":9,"scale":2}],"default":null}]}},
                {"name":"column_sizes","type":["null",{"type":"array","logicalType":"map","items":
                    {"type":"record","name":"k117_v118","fields":[
                        {"name":"key","type":"int","field-id":117},
                        {"name":"value","type":"long","field-id":118}]}}],
                 "default":null,"field-id":108},
                {"name":"split_offsets","type":["null",{"type":"array","items":"long",
                 "element-id":133}],"default":null,"field-id":132}]}}]}"#
    ));
}

#[test]
fn decimals_of_no_bytes_are_read_and_not_written() {
    let schema = r#"{"type":"record","name":"R","fields":[
        {"name":"d","type":{"type":"fixed","name":"f","size":0,
         "logicalType":"decimal","precision":1,"scale":0}},
        {"name":"file_path","type":"string"}]}"#;
    let file = container(schema, &[(1, &[2, b'x'])]);
    assert_eq!(extract_file_paths(&file).ok().unwrap(), vec!["x"]);
    assert!(!test_readable(&file, true));
    assert!(matches!(rewrite_avro(&file, "x", "y"), Err(AvroRewriteError::Unwritable)));
    let wrapped = r#"{"type":"record","name":"R","fields":[
        {"name":"d","type":{"type":"fixed","name":"f","size":0},
         "logicalType":"decimal","precision":1,"scale":0}]}"#;
    assert!(!test_readable(&container(wrapped, &[]), true));
    // A fixed type of no bytes that is no decimal is written.
    let bare = r#"{"type":"record","name":"R","fields":[
        {"name":"d","type":{"type":"fixed","name":"f","size":0}},
        {"name":"file_path","type":"string"}]}"#;
    let file = container(bare, &[(1, &[2, b'x'])]);
    let out = rewrite_avro(&file, "x", "y").ok().unwrap();
    assert_eq!(extract_file_paths(&out).ok().unwrap(), vec!["y"]);
}

#[test]
fn fields_with_the_alias_of_another_are_read_and_not_written() {
    let schema = r#"{"type":"record","name":"r","fields":[
        {"name":"a","type":"bytes"},
        {"name":"b","type":["null",{"type":"bytes","logicalType":"big-decimal"}],
         "aliases":["a"]}]}"#;
    let file = container(schema, &[(1, &[0, 0])]);
    assert_eq!(read_records(&file).ok().unwrap().len(), 1);
    assert!(!test_readable(&file, true));
    assert!(matches!(rewrite_avro(&file, "x", "y"), Err(AvroRewriteError::Unwritable)));
    // An alias of its own is no obstacle, nor one that no field has for a name.
    let schema = r#"{"type":"record","name":"r","fields":[
        {"name":"file_path","type":"string","aliases":["file_path","path"]},
        {"name":"b","type":"int","aliases":["path","c"]}]}"#;
    let file = container(schema, &[(1, &[2, b'x', 0])]);
    assert!(test_readable(&file, true));
    let out = rewrite_avro(&file, "x", "y").ok().unwrap();
    assert_eq!(extract_file_paths(&out).ok().unwrap(), vec!["y"]);
}

#[test]
fn optional_paths_are_rewritten_in_files() {
    let schema = Schema::parse_str(
        r#"{"type":"record","name":"R","fields":[{"name":"file_path","type":["null","string"]}]}"#,
    )
    .unwrap();
    let mut writer = Writer::new(&schema, Vec::new());
    for value in [
        Value::Union(1, Box::new(Value::String("s3://a/t/f.parquet".into()))),
        Value::Union(0, Box::new(Value::Null)),
    ] {
        writer.append(Value::Record(vec![("file_path".into(), value)])).unwrap();
    }
    let file = writer.into_inner().unwrap();
    let out = rewrite_avro(&file, "s3://a/t", "s3://b/t").ok().unwrap();
    assert_eq!(extract_file_paths(&out).ok().unwrap(), vec!["s3://b/t/f.parquet"]);
}

#[test]
fn everything_but_the_paths_is_kept() {
    let schema = Schema::parse_str(
        r#"{"type":"record","name":"R","fields":[
            {"name":"file_path","type":"string","field-id":100},
            {"name":"bound","type":"bytes"},
            {"name":"day","type":{"type":"int","logicalType":"date"}},
            {"name":"price","type":{"type":"fixed","name":"decimal_3_1","size":2,
             "logicalType":"decimal","precision":3,"scale":1}},
            {"name":"id","type":"fixed","size":3},
            {"name":"counts","type":["null",{"type":"map","values":"long"}],"default":null}]}"#,
    )
    .unwrap();
    let record = |path: &str| {
        Value::Record(vec![
            ("file_path".into(), Value::String(path.into())),
            ("bound".into(), Value::Bytes(vec![0, 255, 7])),
            ("day".into(), Value::Date(19000)),
            ("price".into(), Value::Decimal(apache_avro::Decimal::from(vec![1, 2]))),
            ("id".into(), Value::Fixed(3, vec![4, 5, 6])),
            (
                "counts".into(),
                Value::Union(1, Box::new(Value::Map([("k".to_string(), Value::Long(-9))].into()))),
            ),
        ])
    };
    let mut writer = Writer::new(&schema, Vec::new());
    writer.append(record("s3://a/t/f.parquet")).unwrap();
    writer.append(record("elsewhere")).unwrap();
    let file = writer.into_inner().unwrap();
    let out = rewrite_avro(&file, "s3://a/t", "s3://b/t").ok().unwrap();
    let back: Vec<Value> = Reader::new(out.as_slice()).unwrap().map(|r| r.unwrap()).collect();
    assert_eq!(back, vec![record("s3://b/t/f.parquet"), record("elsewhere")]);
    assert_eq!(read_records(&out).ok().unwrap().len(), 2);
}

#[test]
fn what_is_missing_stays_missing() {
    // A text that is announced and not there is taken for null, and null is
    // no text to write.
    let plain = r#"{"type":"record","name":"R","fields":[{"name":"file_path","type":"string"}]}"#;
    let file = container(plain, &[(1, &[10])]);
    assert_eq!(read_records(&file).ok().unwrap().len(), 1);
    assert!(matches!(rewrite_avro(&file, "x", "y"), Err(AvroRewriteError::Write(_))));
    // An optional one may be missing.
    let optional =
        r#"{"type":"record","name":"R","fields":[{"name":"file_path","type":["null","string"]}]}"#;
    let file = container(optional, &[(1, &[])]);
    let out = rewrite_avro(&file, "x", "y").ok().unwrap();
    assert_eq!(read_records(&out).ok().unwrap().len(), 1);
    assert!(extract_file_paths(&out).ok().unwrap().is_empty());
}
