//! Planning a copy and carrying it out.
use std::collections::HashMap;
use std::path::PathBuf;

use icehorn::cli::{CopyArgs, Scope};
use icehorn::copy::file::FileType;
use icehorn::copy::namespace::{
    at_least_one, namespace_label, no_tables_message, table_copies, totals, NamespaceEvent,
    NamespaceRun, NamespaceStep,
};
use icehorn::copy::plan::{
    build_plan, head_existing, metadata_filenames, should_skip, ExistingScan,
    HEAD_PROBE_THRESHOLD,
};
use icehorn::copy::progress::{ScanProgress, TableProgress};
use icehorn::copy::run::{status_of, StepEvent, TableAction, TableEnd, TableRun};
use icehorn::copy::table::{
    build_to_copy_list, content_of, file_basename, filter_metadata_in_place, final_stats,
    manifest_list_keys, metadata_entry, metadata_prefix, planned_total, prepare_filtered_copy,
    route_for, LoadedMetadata, TableRoute, TableStats,
};
use icehorn::copy::transfer::{
    listed_task, log_entry, planned_task, process_listed, process_relative, record_outcome,
    render_metadata_json, CopyOutcome, FileStep, HeadReply,
};
use icehorn::gzip::unpack;
use icehorn::iceberg::manifest::ManifestTree;
use icehorn::iceberg::metadata::MetadataFile;
use icehorn::iceberg::model::{
    Metadata, MetadataLogEntry, Snapshot, SnapshotLogEntry, StatisticsFile, Summary,
};
use icehorn::names::{NameMap, NameSet};
use icehorn::s3_url::S3Location;
use icehorn::sync_log::Entry;
use icehorn::ui::event::CopyEvent;
use icehorn::ui::reporter::Reporter;

const SRC: &str = "s3://src/ns/t";

fn names(list: &[&str]) -> NameSet {
    let mut set = NameSet::new();
    for n in list {
        set.insert(n.to_string());
    }
    set
}

fn snapshot(id: i64, list: Option<&str>) -> Snapshot {
    Snapshot {
        snapshot_id: id,
        parent_snapshot_id: None,
        timestamp_ms: 0,
        manifest_list: list.map(|l| format!("{SRC}/metadata/{l}")),
        summary: Summary::from_entries(Vec::new()),
        other: HashMap::new(),
    }
}

fn statistics(id: i64, path: &str) -> StatisticsFile {
    StatisticsFile {
        snapshot_id: id,
        statistics_path: format!("{SRC}/{path}"),
        other: HashMap::new(),
    }
}

/// Snapshots 1 to 4, of which 4 is the current one and 3 has no list.
fn metadata() -> Metadata {
    let mut other = HashMap::new();
    other.insert("properties".to_string(), serde_json::Value::Bool(true));
    Metadata {
        format_version: 2,
        table_uuid: None,
        location: Some(SRC.to_string()),
        current_snapshot_id: Some(4),
        current_schema_id: None,
        schemas: Vec::new(),
        snapshots: vec![
            snapshot(1, Some("snap-1.avro")),
            snapshot(2, Some("snap-2.avro")),
            snapshot(3, None),
            snapshot(4, Some("snap-4.avro")),
        ],
        snapshot_log: (1..5).map(|id| SnapshotLogEntry { snapshot_id: id, timestamp_ms: id }).collect(),
        metadata_log: ["v1", "v2", "v3"]
            .iter()
            .map(|v| MetadataLogEntry {
                metadata_file: format!("{SRC}/metadata/{v}.metadata.json"),
                timestamp_ms: 0,
            })
            .collect(),
        statistics: vec![statistics(1, "stats/1"), statistics(2, "stats/2")],
        partition_statistics: vec![statistics(3, "stats/p3"), statistics(4, "stats/p4")],
        other,
    }
}

fn chosen() -> MetadataFile {
    MetadataFile { version: 3, uuid: 0, path: "ns/t/metadata/v3.metadata.json".to_string() }
}

#[test]
fn plan_keeps_current_and_known_lists() {
    let plan = build_plan(SRC, &metadata(), &names(&["snap-1.avro", "unrelated"]));
    assert_eq!(
        plan.kept_manifest_lists.names().clone(),
        vec!["metadata/snap-4.avro", "metadata/snap-1.avro"]
    );
    let first = build_plan(SRC, &metadata(), &names(&[]));
    assert_eq!(first.kept_manifest_lists.names().clone(), vec!["metadata/snap-4.avro"]);
    assert_eq!(
        manifest_list_keys(&plan, "ns/t"),
        vec!["ns/t/metadata/snap-4.avro", "ns/t/metadata/snap-1.avro"]
    );
    assert_eq!(metadata_prefix("ns/t"), "ns/t/metadata");
}

#[test]
fn filter_drops_what_is_not_copied() {
    let there = names(&["snap-1.avro", "v1.metadata.json"]);
    let mut meta = metadata();
    let plan = build_plan(SRC, &meta, &there);
    filter_metadata_in_place(&mut meta, &plan, &there, &chosen(), SRC);
    let ids: Vec<i64> = meta.snapshots.iter().map(|s| s.snapshot_id).collect();
    assert_eq!(ids, vec![1, 4]);
    let logged: Vec<i64> = meta.snapshot_log.iter().map(|s| s.snapshot_id).collect();
    assert_eq!(logged, vec![1, 4]);
    let files: Vec<&str> =
        meta.metadata_log.iter().map(|e| file_basename(&e.metadata_file)).collect();
    assert_eq!(files, vec!["v1.metadata.json", "v3.metadata.json"]);
    assert_eq!(meta.statistics.len(), 1);
    assert_eq!(meta.partition_statistics.len(), 1);
    assert_eq!(meta.current_snapshot().unwrap().snapshot_id, 4);
    assert_eq!(meta.location.as_deref(), Some(SRC));
    assert_eq!(meta.other.len(), 1);
}

#[test]
fn everything_is_prepared() {
    let there = names(&["snap-1.avro"]);
    let plan = build_plan(SRC, &metadata(), &there);
    let tree = ManifestTree {
        manifest_files: vec![format!("{SRC}/metadata/m1.avro"), format!("{SRC}/metadata/m2.avro")],
        content_files: vec![
            format!("{SRC}/data/1.parquet"),
            format!("{SRC}/data/1.parquet"),
            format!("{SRC}/metadata/m1.avro"),
        ],
    };
    assert_eq!(content_of(&tree, SRC).len(), 3);
    let loaded = LoadedMetadata {
        chosen: chosen(),
        raw_size: 123,
        meta: metadata(),
        dst_existing_meta: there,
    };
    let prepared = prepare_filtered_copy(loaded, &plan, &tree, SRC, "ns/t");
    let mut files = prepared.to_copy.clone();
    files.sort();
    assert_eq!(
        files,
        vec![
            "data/1.parquet",
            "metadata/m1.avro",
            "metadata/m2.avro",
            "metadata/snap-1.avro",
            "metadata/snap-4.avro",
            "stats/1",
            "stats/p4",
        ]
    );
    assert_eq!(prepared.metadata_rel, "metadata/v3.metadata.json");
    assert_eq!(planned_total(&prepared), 8);
    let entry = metadata_entry(&prepared);
    assert_eq!(entry.relative_path, "metadata/v3.metadata.json");
    assert_eq!(entry.source_size, 123);
    assert_eq!(entry.source_etag, None);
    assert_eq!(entry.file_type, "json");
    assert!(entry.rewritten);
    assert_eq!(
        build_to_copy_list(&plan, &names(&["metadata/snap-4.avro"]), &prepared.meta, SRC).len(),
        4
    );
}

#[test]
fn scopes_choose_the_route() {
    assert_eq!(route_for(Scope::All), TableRoute::Everything);
    assert_eq!(route_for(Scope::Latest), TableRoute::Reachable(None));
    assert_eq!(route_for(Scope::Version(4)), TableRoute::Reachable(Some(4)));
}

#[test]
fn existing_files_are_noted_by_their_paths() {
    let mut scan = ExistingScan::new();
    assert_eq!(scan.note("ns/t/data/1.parquet", "ns/t", 5), 1);
    assert_eq!(scan.note("ns/t/data/2.parquet", "ns/t", 7), 2);
    let sizes = scan.finish();
    assert_eq!(sizes.get("data/2.parquet"), Some(&7));
    assert_eq!(sizes.len(), 2);
    let told = head_existing(vec![Some(("a".to_string(), 1)), None, Some(("b".to_string(), 2))]);
    assert_eq!(told.len(), 2);
    assert_eq!(told.get("b"), Some(&2));
    let found = metadata_filenames(&vec!["ns/t/metadata/a.avro".to_string(), "b".to_string()]);
    assert!(found.contains("a.avro") && found.contains("b"));
    assert_eq!(HEAD_PROBE_THRESHOLD, 1000);
}

fn logged(path: &str, size: u64, etag: Option<&str>) -> NameMap<Entry> {
    let mut log = NameMap::new();
    log.insert(path.to_string(), log_entry(path, size, etag, FileType::Avro));
    log
}

fn sizes(list: &[(&str, u64)]) -> NameMap<u64> {
    let mut map = NameMap::new();
    for (n, s) in list {
        map.insert(n.to_string(), *s);
    }
    map
}

#[test]
fn unchanged_files_are_skipped() {
    let none: NameMap<Entry> = NameMap::new();
    assert!(should_skip(&sizes(&[("p", 5)]), &none, "p", 5, None));
    assert!(!should_skip(&sizes(&[("p", 6)]), &none, "p", 5, None));
    assert!(!should_skip(&sizes(&[]), &none, "p", 5, None));
    let log = logged("p", 5, Some("t"));
    assert!(should_skip(&sizes(&[("p", 6)]), &log, "p", 5, Some("t")));
    assert!(!should_skip(&sizes(&[("p", 6)]), &log, "p", 5, Some("u")));
    assert!(!should_skip(&sizes(&[]), &log, "p", 5, Some("t")));
}

#[test]
fn listed_and_planned_files_are_decided_alike() {
    let task = listed_task("ns/t", "dst/t", "ns/t/metadata/x.avro");
    assert_eq!(task.relative, "metadata/x.avro");
    assert_eq!(task.src_key, "ns/t/metadata/x.avro");
    assert_eq!(task.dst_key, "dst/t/metadata/x.avro");
    let planned = planned_task("ns/t", "dst/t", "metadata/x.avro");
    assert_eq!(planned.src_key, task.src_key);
    assert_eq!(planned.dst_key, task.dst_key);
    let none: NameMap<Entry> = NameMap::new();
    let nothing = sizes(&[]);
    let same = sizes(&[("metadata/x.avro", 9)]);
    assert_eq!(process_listed(&task, &nothing, &none, 9, None), FileStep::Copy(FileType::Avro));
    assert_eq!(process_listed(&task, &same, &none, 9, None), FileStep::Skip);
    let found = HeadReply::Found { size: 9, etag: None };
    assert_eq!(process_relative(&task, &nothing, &none, &found), FileStep::Copy(FileType::Avro));
    assert_eq!(process_relative(&task, &same, &none, &found), FileStep::Skip);
    assert_eq!(process_relative(&task, &nothing, &none, &HeadReply::NotFound), FileStep::Skip);
    assert_eq!(process_relative(&task, &nothing, &none, &HeadReply::Failed), FileStep::Fail);
}

#[test]
fn outcomes_are_counted_and_logged() {
    let reporter = Reporter::channel();
    let mut progress = TableProgress::new("k");
    progress.set_total(3, &reporter);
    let (event, entry) = record_outcome(
        CopyOutcome::Copied,
        "p",
        5,
        Some("t"),
        FileType::Json,
        &mut progress,
        &reporter,
    );
    assert!(matches!(event, Some(CopyEvent::TableQueueChanged { queued: 2, copied: 1, skipped: 0, .. })));
    let entry = entry.unwrap();
    assert_eq!(entry.relative_path, "p");
    assert!(entry.rewritten && entry.matches_source(5, Some("t")));
    let (event, entry) = record_outcome(
        CopyOutcome::Missing,
        "p",
        5,
        None,
        FileType::Json,
        &mut progress,
        &reporter,
    );
    assert!(entry.is_none());
    assert!(matches!(event, Some(CopyEvent::TableQueueChanged { queued: 1, copied: 1, skipped: 1, .. })));
    assert_eq!(final_stats(&progress), TableStats { copied: 1, skipped: 1, failed: 0 });
    let (event, entry) = record_outcome(
        CopyOutcome::Failed,
        "p",
        5,
        None,
        FileType::Json,
        &mut progress,
        &reporter,
    );
    assert!(entry.is_none());
    assert!(matches!(event, Some(CopyEvent::TableQueueChanged { queued: 0, copied: 1, skipped: 1, .. })));
    assert_eq!(final_stats(&progress), TableStats { copied: 1, skipped: 1, failed: 1 });
}

#[test]
fn progress_is_reported() {
    let reporter = Reporter::channel();
    let mut progress = TableProgress::new("k");
    assert!(progress.can_record());
    assert!(matches!(
        progress.add_total(2, &reporter),
        Some(CopyEvent::TableQueueChanged { queued: 2, copied: 0, skipped: 0, .. })
    ));
    assert!(matches!(
        progress.record_skipped(&reporter),
        Some(CopyEvent::TableQueueChanged { queued: 1, copied: 0, skipped: 1, .. })
    ));
    progress.record_failed(&reporter);
    assert_eq!(final_stats(&progress).failed, 1);
    assert!(progress.record_copied(&Reporter::plain()).is_none());
}

#[test]
fn scan_shows_lists_then_manifests() {
    let reporter = Reporter::channel();
    let mut scan = ScanProgress::new("k");
    assert_eq!(scan.text(), None);
    let event = scan.record_manifest_list(1, 3, &reporter);
    assert!(matches!(event, Some(CopyEvent::TableStatus { message: Some(_), .. })));
    let lists = scan.text().unwrap();
    assert!(lists.contains("1/3"));
    scan.record_manifest(2, 7, &reporter);
    let manifests = scan.text().unwrap();
    assert!(manifests.contains("manifests 2/7") && !manifests.contains("1/3"));
    scan.record_dst_objects(42, &reporter);
    assert!(scan.text().unwrap().contains("42"));
}

#[test]
fn metadata_is_rendered_with_new_paths() {
    let json = r#"{"location":"s3://src/ns/t"}"#;
    let plain = MetadataFile { version: 1, uuid: 0, path: "m/00001-x.metadata.json".to_string() };
    assert_eq!(
        render_metadata_json(json, &plain, "s3://src/ns", "s3://dst/n").unwrap(),
        br#"{"location":"s3://dst/n/t"}"#
    );
    let packed = MetadataFile { version: 1, uuid: 0, path: "m/00001-x.gz.metadata.json".to_string() };
    let out = render_metadata_json(json, &packed, "s3://src/ns", "s3://dst/n").unwrap();
    assert_eq!(unpack(&out).unwrap(), br#"{"location":"s3://dst/n/t"}"#);
}

#[test]
fn namespace_copies_every_table() {
    let args = CopyArgs {
        from_config: PathBuf::from("a"),
        from: "s3://src/ns".to_string(),
        to_config: PathBuf::from("b"),
        to: "s3://dst/x".to_string(),
        scope: Scope::Latest,
        copy_parallel: 7,
        tables_parallel: 2,
    };
    let src = S3Location::parse(&args.from).unwrap();
    let dst = S3Location::parse(&args.to).unwrap();
    let copies = table_copies(&args, &src, &dst, &vec!["t1".to_string(), "t2".to_string()]);
    assert_eq!(copies.len(), 2);
    assert_eq!(copies[1].src_prefix, "ns/t2");
    assert_eq!(copies[1].dst_prefix, "x/t2");
    assert_eq!(copies[1].src_url, "s3://src/ns/t2");
    assert_eq!(copies[1].dst_url, "s3://dst/x/t2");
    assert_eq!(copies[1].scope, Scope::Latest);
    assert_eq!(copies[1].parallelism, 7);
    assert_eq!(copies[1].table_key, "t2");
    assert_eq!(copies[1].namespace_label, "ns");
    assert_eq!(namespace_label("a/b/"), "b");
    assert_eq!(namespace_label("//"), "//");
    assert_eq!(at_least_one(0), 1);
    assert_eq!(at_least_one(4), 4);
    assert_eq!(
        no_tables_message("s3://src/ns"),
        "no Iceberg tables found under s3://src/ns — expected UUID-named subdirectories with a metadata/ folder"
    );
}

#[test]
fn namespace_waits_for_all_tables() {
    let stats = TableStats { copied: 3, skipped: 2, failed: 1 };
    let mut run = NamespaceRun::new();
    let done = NamespaceEvent::TableDone { prefix: "ns/a".to_string(), stats };
    assert!(matches!(run.take(done), NamespaceStep::Wait));
    assert!(matches!(run.take(NamespaceEvent::TaskCancelled), NamespaceStep::Wait));
    let done = NamespaceEvent::TableDone { prefix: "ns/b".to_string(), stats };
    assert!(matches!(run.take(done), NamespaceStep::Wait));
    assert!(matches!(run.take(NamespaceEvent::NoTaskLeft), NamespaceStep::Finish));
    assert_eq!(
        totals(&run.results),
        Some(TableStats { copied: 6, skipped: 4, failed: 2 })
    );
    assert_eq!(run.take(NamespaceEvent::Interrupted), NamespaceStep::Abandon);
    assert_eq!(run.finish(), Ok(vec![stats, stats]));
    let huge = TableStats { copied: u64::MAX, skipped: 0, failed: 0 };
    assert_eq!(totals(&vec![huge, stats]), None);
    assert_eq!(totals(&Vec::new()), Some(TableStats::default()));
}

#[test]
fn failed_table_does_not_stop_its_siblings() {
    let stats = TableStats { copied: 3, skipped: 2, failed: 1 };
    let mut run = NamespaceRun::new();
    let failed = NamespaceEvent::TableFailed { prefix: "ns/c".to_string() };
    assert_eq!(run.take(failed), NamespaceStep::Wait);
    let panicked = NamespaceEvent::TaskPanicked { reason: "boom".to_string() };
    assert_eq!(run.take(panicked), NamespaceStep::Wait);
    let done = NamespaceEvent::TableDone { prefix: "ns/a".to_string(), stats };
    assert_eq!(run.take(done), NamespaceStep::Wait);
    assert_eq!(run.take(NamespaceEvent::NoTaskLeft), NamespaceStep::Finish);
    assert_eq!(run.results, vec![stats]);
    assert_eq!(run.finish(), Err("table ns/c".to_string()));

    let mut run = NamespaceRun::new();
    run.take(NamespaceEvent::TaskPanicked { reason: "boom".to_string() });
    assert_eq!(run.finish(), Err("table task panicked: boom".to_string()));
}

fn actions(route: TableRoute, events: &[StepEvent]) -> Vec<TableAction> {
    let mut run = TableRun::new(route);
    let mut out = vec![run.action];
    for e in events {
        out.push(run.advance(*e));
    }
    out
}

#[test]
fn steps_of_a_whole_copy() {
    use_done(
        TableRoute::Everything,
        &[
            TableAction::ScanDestination,
            TableAction::TakeSlot,
            TableAction::CopyListed,
            TableAction::CloseLog { commit: true },
            TableAction::Finish(TableEnd::Copied),
        ],
    );
    use_done(
        TableRoute::Reachable(Some(7)),
        &[
            TableAction::LoadMetadata(Some(7)),
            TableAction::WalkAndScan,
            TableAction::TakeSlot,
            TableAction::CopyPlanned,
            TableAction::WriteMetadata,
            TableAction::CloseLog { commit: true },
            TableAction::Finish(TableEnd::Copied),
        ],
    );
}

fn use_done(route: TableRoute, wanted: &[TableAction]) {
    let events = vec![StepEvent::Done; wanted.len() - 1];
    assert_eq!(actions(route, &events), wanted);
}

#[test]
fn failed_copy_leaves_metadata_and_log_alone() {
    let done = StepEvent::Done;
    assert_eq!(
        actions(
            TableRoute::Reachable(None),
            &[done, done, StepEvent::Nothing, done, StepEvent::Failed, done]
        ),
        vec![
            TableAction::LoadMetadata(None),
            TableAction::WalkAndScan,
            TableAction::TakeSlot,
            TableAction::WaitForSlot,
            TableAction::CopyPlanned,
            TableAction::CloseLog { commit: false },
            TableAction::Finish(TableEnd::Failed),
        ]
    );
    assert_eq!(
        actions(TableRoute::Reachable(None), &[StepEvent::Nothing])[1],
        TableAction::Finish(TableEnd::Skipped)
    );
    assert_eq!(
        actions(TableRoute::Everything, &[StepEvent::Failed])[1],
        TableAction::Finish(TableEnd::Failed)
    );
    let unwritten = [done, done, done, done, StepEvent::Failed, done];
    assert_eq!(
        *actions(TableRoute::Reachable(None), &unwritten).last().unwrap(),
        TableAction::Finish(TableEnd::Failed)
    );
}

#[test]
fn statuses_of_steps() {
    assert_eq!(status_of(TableAction::LoadMetadata(None)).unwrap(), "loading metadata");
    assert_eq!(status_of(TableAction::ScanDestination).unwrap(), "scanning destination");
    assert_eq!(
        status_of(TableAction::WalkAndScan).unwrap(),
        "walking manifest tree and scanning destination"
    );
    assert_eq!(status_of(TableAction::WaitForSlot).unwrap(), "waiting for copy slot");
    assert_eq!(status_of(TableAction::CopyListed).unwrap(), "copying");
    assert_eq!(status_of(TableAction::CopyPlanned).unwrap(), "copying");
    assert!(status_of(TableAction::TakeSlot).is_none());
}
