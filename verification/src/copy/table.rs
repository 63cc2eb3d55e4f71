//! The copy of one table: which metadata stays, and which files go along.
use vstd::prelude::*;

use crate::cli::Scope;
use crate::copy::file::FileType;
use crate::copy::paths::{filename_of, relative, relative_under, strip_url_prefix, url_relative};
use crate::copy::plan::{list_of, CopyPlan};
use crate::copy::progress::TableProgress;
use crate::copy::transfer::{entry_of, log_entry};
use crate::iceberg::layout::{joined, key_under, object_key};
use crate::iceberg::manifest::ManifestTree;
use crate::iceberg::metadata::MetadataFile;
use crate::iceberg::model::{
    Metadata, MetadataLogEntry, Snapshot, SnapshotLogEntry, StatisticsFile,
};
use crate::names::{deduped, deduped_names_are_the_same_names, groups_add_up, NameSet};
use crate::order::texts;
use crate::sync_log::Entry;
use crate::text::{after_last, same_text};

verus! {

/// What a table copy did.
#[derive(Debug, Clone, Copy, PartialEq, Eq, Structural)]
pub struct TableStats {
    pub copied: u64,
    pub skipped: u64,
    /// Files that could not be read or written. They have no log entry, so
    /// that the next run tries them again.
    pub failed: u64,
}

impl Default for TableStats {
    fn default() -> (r: TableStats)
        ensures
            r == (TableStats { copied: 0, skipped: 0, failed: 0 }),
    {
        TableStats { copied: 0, skipped: 0, failed: 0 }
    }
}

/// Which way a table is copied.
#[derive(Debug, Clone, Copy, PartialEq, Eq, Structural)]
pub enum TableRoute {
    /// Every file below the source prefix.
    Everything,
    /// What one metadata file needs: the current one, or that of a version.
    Reachable(Option<u32>),
}

/// The way for a scope.
pub fn route_for(scope: Scope) -> (r: TableRoute)
    ensures
        r == match scope {
            Scope::All => TableRoute::Everything,
            Scope::Latest => TableRoute::Reachable(None),
            Scope::Version(v) => TableRoute::Reachable(Some(v)),
        },
{
    match scope {
        Scope::All => TableRoute::Everything,
        Scope::Latest => TableRoute::Reachable(None),
        Scope::Version(v) => TableRoute::Reachable(Some(v)),
    }
}

/// The key prefix of a table's metadata files.
pub fn metadata_prefix(table_prefix: &str) -> (r: String)
    ensures
        r@ == object_key(joined(table_prefix@, "metadata"@)),
{
    key_under(table_prefix, "metadata")
}

/// The keys of the manifest lists to walk.
pub fn manifest_list_keys(plan: &CopyPlan, src_prefix: &str) -> (r: Vec<String>)
    ensures
        texts(r@) == plan.kept_manifest_lists@.map_values(
            |ml: Seq<char>| object_key(joined(src_prefix@, ml)),
        ),
{
    let names = plan.kept_manifest_lists.names();
    let mut out: Vec<String> = Vec::new();
    let mut i: usize = 0;
    while i < names.len()
        invariant
            i <= names@.len(),
            out@.len() == i,
            forall|j: int|
                0 <= j < i ==> (#[trigger] out@[j])@ == object_key(
                    joined(src_prefix@, names@[j]@),
                ),
        decreases names@.len() - i,
    {
        out.push(key_under(src_prefix, names[i].as_str()));
        i += 1;
    }
    proof {
        assert(texts(out@) =~= plan.kept_manifest_lists@.map_values(
            |ml: Seq<char>| object_key(joined(src_prefix@, ml)),
        ));
    }
    out
}

// ---------------------------------------------------------------------------
// The metadata that stays
// ---------------------------------------------------------------------------

/// Those of the items that are to stay, in their order.
pub open spec fn staying<T>(items: Seq<T>, stays: spec_fn(T) -> bool) -> Seq<T>
    decreases items.len(),
{
    if items.len() == 0 {
        Seq::empty()
    } else {
        let rest = staying(items.drop_last(), stays);
        if stays(items.last()) {
            rest.push(items.last())
        } else {
            rest
        }
    }
}

/// An item stays exactly if it is to.
pub proof fn lemma_staying<T>(items: Seq<T>, stays: spec_fn(T) -> bool, item: T)
    ensures
        staying(items, stays).contains(item) <==> items.contains(item) && stays(item),
    decreases items.len(),
{
    if items.len() > 0 {
        let init = items.drop_last();
        lemma_staying(init, stays, item);
        let rest = staying(init, stays);
        let all = staying(items, stays);
        if items.contains(item) && !init.contains(item) {
            let i = choose|i: int| 0 <= i < items.len() && items[i] == item;
            if i < init.len() {
                assert(init[i] == item);
            }
        }
        if init.contains(item) {
            let i = choose|i: int| 0 <= i < init.len() && init[i] == item;
            assert(items[i] == item);
        }
        if rest.contains(item) {
            let i = choose|i: int| 0 <= i < rest.len() && rest[i] == item;
            assert(all[i] == item);
        }
        if all.contains(item) {
            let i = choose|i: int| 0 <= i < all.len() && all[i] == item;
            if i < rest.len() {
                assert(rest[i] == item);
            } else {
                assert(items[items.len() - 1] == item);
            }
        }
        if items.last() == item && stays(item) {
            assert(all[all.len() - 1] == item);
        }
    }
}

/// Does the snapshot stay? It does if its manifest list is kept.
pub open spec fn snapshot_stays(
    lists: Seq<Seq<char>>,
    src_url: Seq<char>,
) -> spec_fn(Snapshot) -> bool {
    |s: Snapshot| list_of(src_url, s) matches Some(rel) && lists.contains(rel)
}

/// The ids of the snapshots.
pub open spec fn ids_of(snapshots: Seq<Snapshot>) -> Seq<i64> {
    snapshots.map_values(|s: Snapshot| s.snapshot_id)
}

/// Does the log entry on a snapshot stay?
pub open spec fn log_stays(ids: Seq<i64>) -> spec_fn(SnapshotLogEntry) -> bool {
    |e: SnapshotLogEntry| ids.contains(e.snapshot_id)
}

/// Do the statistics stay?
pub open spec fn statistics_stay(ids: Seq<i64>) -> spec_fn(StatisticsFile) -> bool {
    |s: StatisticsFile| ids.contains(s.snapshot_id)
}

/// Does the log entry on a metadata file stay? It does if the file is at the
/// destination, or is the one that is being copied.
pub open spec fn file_log_stays(
    there: Seq<Seq<char>>,
    chosen: Seq<char>,
) -> spec_fn(MetadataLogEntry) -> bool {
    |e: MetadataLogEntry|
        there.contains(after_last(e.metadata_file@, '/')) || after_last(e.metadata_file@, '/')
            == chosen
}

/// Is `after` the metadata `before` without what the destination will not
/// have the files of? All the rest is as it was.
pub open spec fn is_filtered(
    before: Metadata,
    after: Metadata,
    lists: Seq<Seq<char>>,
    there: Seq<Seq<char>>,
    chosen: Seq<char>,
    src_url: Seq<char>,
) -> bool {
    let ids = ids_of(after.snapshots@);
    &&& after.snapshots@ == staying(before.snapshots@, snapshot_stays(lists, src_url))
    &&& after.snapshot_log@ == staying(before.snapshot_log@, log_stays(ids))
    &&& after.metadata_log@ == staying(before.metadata_log@, file_log_stays(there, chosen))
    &&& after.statistics@ == staying(before.statistics@, statistics_stay(ids))
    &&& after.partition_statistics@ == staying(before.partition_statistics@, statistics_stay(ids))
    &&& after.format_version == before.format_version
    &&& after.table_uuid == before.table_uuid
    &&& after.location == before.location
    &&& after.current_snapshot_id == before.current_snapshot_id
    &&& after.current_schema_id == before.current_schema_id
    &&& after.schemas == before.schemas
    &&& after.other == before.other
}

fn has_id(ids: &Vec<i64>, id: i64) -> (r: bool)
    ensures
        r == ids@.contains(id),
{
    let mut i: usize = 0;
    while i < ids.len()
        invariant
            i <= ids@.len(),
            forall|j: int| 0 <= j < i ==> ids@[j] != id,
        decreases ids@.len() - i,
    {
        if ids[i] == id {
            proof {
                assert(ids@[i as int] == id);
            }
            return true;
        }
        i += 1;
    }
    false
}

fn keep_snapshots(snapshots: Vec<Snapshot>, plan: &CopyPlan, src_url: &str) -> (r: Vec<Snapshot>)
    ensures
        r@ == staying(
            snapshots@,
            snapshot_stays(plan.kept_manifest_lists@, src_url@),
        ),
{
    let ghost stays = snapshot_stays(plan.kept_manifest_lists@, src_url@);
    let mut out: Vec<Snapshot> = Vec::new();
    proof {
        assert(snapshots@.take(0) =~= Seq::<Snapshot>::empty());
    }
    for s in it: snapshots
        invariant
            it.seq() == snapshots@,
            stays == snapshot_stays(plan.kept_manifest_lists@, src_url@),
            out@ == staying(it.seq().take(it.index() as int), stays),
    {
        proof {
            let i = it.index() as int;
            assert(it.seq().take(i + 1).drop_last() =~= it.seq().take(i));
            assert(it.seq().take(i + 1).last() == s);
        }
        let keep = match &s.manifest_list {
            Some(ml) => plan.kept_manifest_lists.contains(strip_url_prefix(src_url, ml.as_str())),
            None => false,
        };
        if keep {
            out.push(s);
        }
    }
    proof {
        assert(snapshots@.take(snapshots@.len() as int) =~= snapshots@);
    }
    out
}

fn keep_log(log: Vec<SnapshotLogEntry>, ids: &Vec<i64>) -> (r: Vec<SnapshotLogEntry>)
    ensures
        r@ == staying(log@, log_stays(ids@)),
{
    let ghost stays = log_stays(ids@);
    let mut out: Vec<SnapshotLogEntry> = Vec::new();
    proof {
        assert(log@.take(0) =~= Seq::<SnapshotLogEntry>::empty());
    }
    for e in it: log
        invariant
            it.seq() == log@,
            stays == log_stays(ids@),
            out@ == staying(it.seq().take(it.index() as int), stays),
    {
        proof {
            let i = it.index() as int;
            assert(it.seq().take(i + 1).drop_last() =~= it.seq().take(i));
            assert(it.seq().take(i + 1).last() == e);
        }
        if has_id(ids, e.snapshot_id) {
            out.push(e);
        }
    }
    proof {
        assert(log@.take(log@.len() as int) =~= log@);
    }
    out
}

fn keep_statistics(files: Vec<StatisticsFile>, ids: &Vec<i64>) -> (r: Vec<StatisticsFile>)
    ensures
        r@ == staying(files@, statistics_stay(ids@)),
{
    let ghost stays = statistics_stay(ids@);
    let mut out: Vec<StatisticsFile> = Vec::new();
    proof {
        assert(files@.take(0) =~= Seq::<StatisticsFile>::empty());
    }
    for s in it: files
        invariant
            it.seq() == files@,
            stays == statistics_stay(ids@),
            out@ == staying(it.seq().take(it.index() as int), stays),
    {
        proof {
            let i = it.index() as int;
            assert(it.seq().take(i + 1).drop_last() =~= it.seq().take(i));
            assert(it.seq().take(i + 1).last() == s);
        }
        if has_id(ids, s.snapshot_id) {
            out.push(s);
        }
    }
    proof {
        assert(files@.take(files@.len() as int) =~= files@);
    }
    out
}

/// What follows the last slash of a path.
pub fn file_basename<'a>(path: &'a str) -> (r: &'a str)
    ensures
        r@ == after_last(path@, '/'),
{
    filename_of(path)
}

fn keep_file_log(log: Vec<MetadataLogEntry>, there: &NameSet, chosen: &str) -> (r: Vec<
    MetadataLogEntry,
>)
    ensures
        r@ == staying(log@, file_log_stays(there@, chosen@)),
{
    let ghost stays = file_log_stays(there@, chosen@);
    let mut out: Vec<MetadataLogEntry> = Vec::new();
    proof {
        assert(log@.take(0) =~= Seq::<MetadataLogEntry>::empty());
    }
    for e in it: log
        invariant
            it.seq() == log@,
            stays == file_log_stays(there@, chosen@),
            out@ == staying(it.seq().take(it.index() as int), stays),
    {
        proof {
            let i = it.index() as int;
            assert(it.seq().take(i + 1).drop_last() =~= it.seq().take(i));
            assert(it.seq().take(i + 1).last() == e);
        }
        let name = file_basename(e.metadata_file.as_str());
        let keep = there.contains(name) || same_text(name, chosen);
        if keep {
            out.push(e);
        }
    }
    proof {
        assert(log@.take(log@.len() as int) =~= log@);
    }
    out
}

/// Drops what refers to files that the destination will not have after this
/// run: snapshots, log entries and statistics.
pub fn filter_metadata_in_place(
    meta: &mut Metadata,
    plan: &CopyPlan,
    dst_existing_meta: &NameSet,
    chosen: &MetadataFile,
    src_url: &str,
)
    ensures
        is_filtered(
            *old(meta),
            *final(meta),
            plan.kept_manifest_lists@,
            dst_existing_meta@,
            after_last(chosen@.path, '/'),
            src_url@,
        ),
{
    let mut snapshots: Vec<Snapshot> = Vec::new();
    std::mem::swap(&mut snapshots, &mut meta.snapshots);
    let snapshots = keep_snapshots(snapshots, plan, src_url);
    let mut ids: Vec<i64> = Vec::new();
    let mut i: usize = 0;
    while i < snapshots.len()
        invariant
            i <= snapshots@.len(),
            ids@.len() == i,
            forall|j: int| 0 <= j < i ==> #[trigger] ids@[j] == snapshots@[j].snapshot_id,
        decreases snapshots@.len() - i,
    {
        ids.push(snapshots[i].snapshot_id);
        i += 1;
    }
    proof {
        assert(ids@ =~= ids_of(snapshots@));
    }
    meta.snapshots = snapshots;
    let mut log: Vec<SnapshotLogEntry> = Vec::new();
    std::mem::swap(&mut log, &mut meta.snapshot_log);
    meta.snapshot_log = keep_log(log, &ids);
    let mut files: Vec<MetadataLogEntry> = Vec::new();
    std::mem::swap(&mut files, &mut meta.metadata_log);
    meta.metadata_log = keep_file_log(files, dst_existing_meta, chosen.filename());
    let mut statistics: Vec<StatisticsFile> = Vec::new();
    std::mem::swap(&mut statistics, &mut meta.statistics);
    meta.statistics = keep_statistics(statistics, &ids);
    let mut statistics: Vec<StatisticsFile> = Vec::new();
    std::mem::swap(&mut statistics, &mut meta.partition_statistics);
    meta.partition_statistics = keep_statistics(statistics, &ids);
}

// ---------------------------------------------------------------------------
// The files that go along
// ---------------------------------------------------------------------------

/// The paths below the table of these absolute paths.
pub open spec fn rel_paths(src_url: Seq<char>, paths: Seq<Seq<char>>) -> Seq<Seq<char>> {
    paths.map_values(|p: Seq<char>| url_relative(src_url, p))
}

/// The paths below the table of statistics files.
pub open spec fn statistics_paths(src_url: Seq<char>, files: Seq<StatisticsFile>) -> Seq<
    Seq<char>,
> {
    files.map_values(|s: StatisticsFile| url_relative(src_url, s.statistics_path@))
}

/// All files to copy, each once: manifest lists, manifests, data files, and
/// the statistics that stay.
pub open spec fn files_to_copy(
    lists: Seq<Seq<char>>,
    content: Seq<Seq<char>>,
    meta: Metadata,
    src_url: Seq<char>,
) -> Seq<Seq<char>> {
    deduped(
        lists + content + statistics_paths(src_url, meta.statistics@) + statistics_paths(
            src_url,
            meta.partition_statistics@,
        ),
    )
}

fn relatives(src_url: &str, paths: &Vec<String>) -> (r: Vec<String>)
    ensures
        texts(r@) == rel_paths(src_url@, texts(paths@)),
{
    let mut out: Vec<String> = Vec::new();
    let mut i: usize = 0;
    while i < paths.len()
        invariant
            i <= paths@.len(),
            out@.len() == i,
            forall|j: int|
                0 <= j < i ==> (#[trigger] out@[j])@ == url_relative(src_url@, paths@[j]@),
        decreases paths@.len() - i,
    {
        out.push(strip_url_prefix(src_url, paths[i].as_str()).to_owned());
        i += 1;
    }
    proof {
        assert(texts(out@) =~= rel_paths(src_url@, texts(paths@)));
    }
    out
}

fn statistics_relatives(src_url: &str, files: &Vec<StatisticsFile>) -> (r: Vec<String>)
    ensures
        texts(r@) == statistics_paths(src_url@, files@),
{
    let mut out: Vec<String> = Vec::new();
    let mut i: usize = 0;
    while i < files.len()
        invariant
            i <= files@.len(),
            out@.len() == i,
            forall|j: int|
                0 <= j < i ==> (#[trigger] out@[j])@ == url_relative(
                    src_url@,
                    files@[j].statistics_path@,
                ),
        decreases files@.len() - i,
    {
        out.push(strip_url_prefix(src_url, files[i].statistics_path.as_str()).to_owned());
        i += 1;
    }
    proof {
        assert(texts(out@) =~= statistics_paths(src_url@, files@));
    }
    out
}

/// The manifests and data files of a walk, below the table, each once.
pub fn content_of(tree: &ManifestTree, src_url: &str) -> (r: NameSet)
    ensures
        r@ == deduped(
            rel_paths(src_url@, texts(tree.manifest_files@)) + rel_paths(
                src_url@,
                texts(tree.content_files@),
            ),
        ),
{
    let mut content = NameSet::new();
    let ghost a = rel_paths(src_url@, texts(tree.manifest_files@));
    let ghost b = rel_paths(src_url@, texts(tree.content_files@));
    content.insert_all(&relatives(src_url, &tree.manifest_files));
    proof {
        groups_add_up(Seq::empty(), a);
        assert(Seq::<Seq<char>>::empty() + a =~= a);
        groups_add_up(a, b);
    }
    content.insert_all(&relatives(src_url, &tree.content_files));
    content
}

/// The list of all files to copy. The same data file may be named by several
/// manifests, and stands in the list once.
pub fn build_to_copy_list(
    plan: &CopyPlan,
    content_files: &NameSet,
    meta: &Metadata,
    src_url: &str,
) -> (r: Vec<String>)
    ensures
        texts(r@) == files_to_copy(
            plan.kept_manifest_lists@,
            content_files@,
            *meta,
            src_url@,
        ),
        texts(r@).no_duplicates(),
{
    let mut out = NameSet::new();
    let ghost a = plan.kept_manifest_lists@;
    let ghost b = content_files@;
    let ghost c = statistics_paths(src_url@, meta.statistics@);
    let ghost d = statistics_paths(src_url@, meta.partition_statistics@);
    out.insert_all(plan.kept_manifest_lists.names());
    out.insert_all(content_files.names());
    out.insert_all(&statistics_relatives(src_url, &meta.statistics));
    out.insert_all(&statistics_relatives(src_url, &meta.partition_statistics));
    proof {
        groups_add_up(Seq::empty(), a);
        assert(Seq::<Seq<char>>::empty() + a =~= a);
        groups_add_up(a, b);
        groups_add_up(a + b, c);
        groups_add_up(a + b + c, d);
    }
    out.into_names()
}

/// What was loaded of a table before the plan was made.
pub struct LoadedMetadata {
    pub chosen: MetadataFile,
    pub raw_size: usize,
    pub meta: Metadata,
    pub dst_existing_meta: NameSet,
}

/// What is needed for the copy itself.
pub struct PreparedCopy {
    /// Paths below the table of the files to copy.
    pub to_copy: Vec<String>,
    /// The path of the metadata file below the table.
    pub metadata_rel: String,
    pub chosen: MetadataFile,
    /// The metadata to write.
    pub meta: Metadata,
    pub raw_metadata_size: usize,
}

/// Makes everything ready for the copy: the metadata to write, and the files
/// that go along.
pub fn prepare_filtered_copy(
    loaded: LoadedMetadata,
    plan: &CopyPlan,
    tree: &ManifestTree,
    src_url: &str,
    src_prefix: &str,
) -> (r: PreparedCopy)
    ensures
        is_filtered(
            loaded.meta,
            r.meta,
            plan.kept_manifest_lists@,
            loaded.dst_existing_meta@,
            after_last(loaded.chosen@.path, '/'),
            src_url@,
        ),
        texts(r.to_copy@) == files_to_copy(
            plan.kept_manifest_lists@,
            deduped(
                rel_paths(src_url@, texts(tree.manifest_files@)) + rel_paths(
                    src_url@,
                    texts(tree.content_files@),
                ),
            ),
            r.meta,
            src_url@,
        ),
        texts(r.to_copy@).no_duplicates(),
        r.metadata_rel@ == relative(loaded.chosen@.path, src_prefix@),
        r.chosen == loaded.chosen,
        r.raw_metadata_size == loaded.raw_size,
{
    let mut meta = loaded.meta;
    let content = content_of(tree, src_url);
    filter_metadata_in_place(
        &mut meta,
        plan,
        &loaded.dst_existing_meta,
        &loaded.chosen,
        src_url,
    );
    let metadata_rel = relative_under(loaded.chosen.path.as_str(), src_prefix).to_owned();
    let to_copy = build_to_copy_list(plan, &content, &meta, src_url);
    PreparedCopy {
        to_copy,
        metadata_rel,
        chosen: loaded.chosen,
        meta,
        raw_metadata_size: loaded.raw_size,
    }
}

/// How many files the copy is to settle: those of the list, and the metadata
/// file at the end.
pub fn planned_total(prepared: &PreparedCopy) -> (r: u64)
    requires
        prepared.to_copy@.len() < u64::MAX,
    ensures
        r == prepared.to_copy@.len() + 1,
{
    prepared.to_copy.len() as u64 + 1
}

/// The log entry for the metadata file, which has no tag of its own.
pub fn metadata_entry(prepared: &PreparedCopy) -> (r: Entry)
    ensures
        r@ == entry_of(
            prepared.metadata_rel@,
            prepared.raw_metadata_size as u64,
            None,
            FileType::Json,
        ),
{
    log_entry(
        prepared.metadata_rel.as_str(),
        prepared.raw_metadata_size as u64,
        None,
        FileType::Json,
    )
}

/// What the copy did, by its counters.
pub fn final_stats(progress: &TableProgress) -> (r: TableStats)
    ensures
        r == (TableStats {
            copied: progress.copied,
            skipped: progress.skipped,
            failed: progress.failed,
        }),
{
    TableStats { copied: progress.copied, skipped: progress.skipped, failed: progress.failed }
}

// ---------------------------------------------------------------------------
// What holds of the copy
// ---------------------------------------------------------------------------

/// Every snapshot that stays has its manifest list among the files to copy,
/// and all statistics that stay belong to such snapshots and are among the
/// files too: the new metadata refers to nothing that is not copied.
pub proof fn what_stays_is_copied(
    before: Metadata,
    after: Metadata,
    lists: Seq<Seq<char>>,
    content: Seq<Seq<char>>,
    there: Seq<Seq<char>>,
    chosen: Seq<char>,
    src_url: Seq<char>,
)
    requires
        is_filtered(before, after, lists, there, chosen, src_url),
    ensures
        forall|s: Snapshot| #[trigger]
            after.snapshots@.contains(s) ==> (list_of(src_url, s) matches Some(rel)
                && files_to_copy(lists, content, after, src_url).contains(rel)),
        forall|s: StatisticsFile| #[trigger]
            after.statistics@.contains(s) ==> ids_of(after.snapshots@).contains(s.snapshot_id)
                && files_to_copy(lists, content, after, src_url).contains(
                url_relative(src_url, s.statistics_path@),
            ),
        forall|s: StatisticsFile| #[trigger]
            after.partition_statistics@.contains(s) ==> ids_of(after.snapshots@).contains(
                s.snapshot_id,
            ) && files_to_copy(lists, content, after, src_url).contains(
                url_relative(src_url, s.statistics_path@),
            ),
        forall|e: SnapshotLogEntry| #[trigger]
            after.snapshot_log@.contains(e) ==> ids_of(after.snapshots@).contains(e.snapshot_id),
{
    let a = lists;
    let c = statistics_paths(src_url, after.statistics@);
    let d = statistics_paths(src_url, after.partition_statistics@);
    let all = a + content + c + d;
    deduped_names_are_the_same_names(all);
    assert forall|s: Snapshot| #[trigger] after.snapshots@.contains(s) implies (list_of(
        src_url,
        s,
    ) matches Some(rel) && files_to_copy(lists, content, after, src_url).contains(rel)) by {
        lemma_staying(before.snapshots@, snapshot_stays(lists, src_url), s);
        let rel = list_of(src_url, s)->0;
        let i = choose|i: int| 0 <= i < a.len() && a[i] == rel;
        assert(all[i] == rel);
    }
    assert forall|s: StatisticsFile| #[trigger] after.statistics@.contains(s) implies ids_of(
        after.snapshots@,
    ).contains(s.snapshot_id) && files_to_copy(lists, content, after, src_url).contains(
        url_relative(src_url, s.statistics_path@),
    ) by {
        lemma_staying(before.statistics@, statistics_stay(ids_of(after.snapshots@)), s);
        let i = choose|i: int| 0 <= i < after.statistics@.len() && after.statistics@[i] == s;
        assert(c[i] == url_relative(src_url, s.statistics_path@));
        assert(all[a.len() + content.len() + i] == c[i]);
    }
    assert forall|s: StatisticsFile| #[trigger]
        after.partition_statistics@.contains(s) implies ids_of(after.snapshots@).contains(
        s.snapshot_id,
    ) && files_to_copy(lists, content, after, src_url).contains(
        url_relative(src_url, s.statistics_path@),
    ) by {
        lemma_staying(before.partition_statistics@, statistics_stay(ids_of(after.snapshots@)), s);
        let i = choose|i: int|
            0 <= i < after.partition_statistics@.len() && after.partition_statistics@[i] == s;
        assert(d[i] == url_relative(src_url, s.statistics_path@));
        assert(all[a.len() + content.len() + c.len() + i] == d[i]);
    }
    assert forall|e: SnapshotLogEntry| #[trigger] after.snapshot_log@.contains(e) implies ids_of(
        after.snapshots@,
    ).contains(e.snapshot_id) by {
        lemma_staying(before.snapshot_log@, log_stays(ids_of(after.snapshots@)), e);
    }
}

/// The list of files to copy has every file once, and leaves none out.
pub proof fn every_file_is_copied_once(
    lists: Seq<Seq<char>>,
    content: Seq<Seq<char>>,
    meta: Metadata,
    src_url: Seq<char>,
    path: Seq<char>,
)
    ensures
        files_to_copy(lists, content, meta, src_url).no_duplicates(),
        lists.contains(path) || content.contains(path) ==> files_to_copy(
            lists,
            content,
            meta,
            src_url,
        ).contains(path),
{
    let c = statistics_paths(src_url, meta.statistics@);
    let d = statistics_paths(src_url, meta.partition_statistics@);
    let all = lists + content + c + d;
    deduped_names_are_the_same_names(all);
    if lists.contains(path) {
        let i = choose|i: int| 0 <= i < lists.len() && lists[i] == path;
        assert(all[i] == path);
    }
    if content.contains(path) {
        let i = choose|i: int| 0 <= i < content.len() && content[i] == path;
        assert(all[lists.len() + i] == path);
    }
}

/// A snapshot that an earlier run brought over stays: its manifest list is at
/// the destination. So the history there grows from run to run.
pub proof fn snapshots_at_the_destination_stay(
    src_url: Seq<char>,
    before: Metadata,
    after: Metadata,
    there: Seq<Seq<char>>,
    chosen: Seq<char>,
    snapshot: Snapshot,
)
    requires
        is_filtered(
            before,
            after,
            crate::copy::plan::kept_lists(src_url, before, there),
            there,
            chosen,
            src_url,
        ),
        before.snapshots@.contains(snapshot),
        crate::copy::plan::is_there(src_url, snapshot, there),
    ensures
        after.snapshots@.contains(snapshot),
{
    let lists = crate::copy::plan::kept_lists(src_url, before, there);
    let i = choose|i: int| 0 <= i < before.snapshots@.len() && before.snapshots@[i] == snapshot;
    assert(crate::copy::plan::is_there(src_url, before.snapshots@[i], there));
    crate::copy::plan::kept_lists_are_current_or_there(
        src_url,
        before,
        there,
        list_of(src_url, snapshot)->0,
    );
    lemma_staying(before.snapshots@, snapshot_stays(lists, src_url), snapshot);
}

/// The current snapshot stays, if it has a manifest list.
pub proof fn current_snapshot_stays(
    src_url: Seq<char>,
    before: Metadata,
    after: Metadata,
    there: Seq<Seq<char>>,
    chosen: Seq<char>,
)
    requires
        is_filtered(
            before,
            after,
            crate::copy::plan::kept_lists(src_url, before, there),
            there,
            chosen,
            src_url,
        ),
        before.current_snapshot_at() is Some,
        before.snapshots@[before.current_snapshot_at()->0].manifest_list is Some,
    ensures
        after.snapshots@.contains(before.snapshots@[before.current_snapshot_at()->0]),
{
    let i = before.current_snapshot_at()->0;
    let s = before.snapshots@[i];
    crate::iceberg::model::lemma_snapshot_at(before.snapshots@, before.current_snapshot_id->0);
    let lists = crate::copy::plan::kept_lists(src_url, before, there);
    crate::copy::plan::kept_lists_are_current_or_there(
        src_url,
        before,
        there,
        list_of(src_url, s)->0,
    );
    lemma_staying(before.snapshots@, snapshot_stays(lists, src_url), s);
}

/// Do the positions pick `after` from `before`, in order?
pub open spec fn picks<T>(before: Seq<T>, after: Seq<T>, positions: Seq<int>) -> bool {
    &&& positions.len() == after.len()
    &&& forall|i: int|
        0 <= i < after.len() ==> 0 <= #[trigger] positions[i] < before.len() && after[i]
            == before[positions[i]]
    &&& forall|i: int, j: int|
        0 <= i < j < after.len() ==> #[trigger] positions[i] < #[trigger] positions[j]
}

/// What stays stays in its order, and as often as it was there.
pub proof fn what_stays_keeps_its_order<T>(items: Seq<T>, stays: spec_fn(T) -> bool) -> (positions:
    Seq<int>)
    ensures
        picks(items, staying(items, stays), positions),
        forall|k: int|
            0 <= k < items.len() && stays(#[trigger] items[k]) ==> positions.contains(k),
        forall|k: int| #[trigger]
            positions.contains(k) ==> 0 <= k < items.len() && stays(items[k]),
    decreases items.len(),
{
    if items.len() == 0 {
        Seq::empty()
    } else {
        let init = items.drop_last();
        let last = items.len() - 1;
        let before = what_stays_keeps_its_order(init, stays);
        let all = staying(items, stays);
        let positions = if stays(items.last()) {
            before.push(last)
        } else {
            before
        };
        assert forall|i: int| 0 <= i < before.len() implies 0 <= #[trigger] before[i] < last
            && init[before[i]] == items[before[i]] by {}
        assert forall|i: int| 0 <= i < all.len() implies 0 <= #[trigger] positions[i]
            < items.len() && all[i] == items[positions[i]] by {
            if i < before.len() {
                assert(before[i] == positions[i]);
            }
        }
        assert forall|k: int| 0 <= k < items.len() && stays(#[trigger] items[k]) implies
            positions.contains(k) by {
            if k < last {
                assert(init[k] == items[k]);
                let i = choose|i: int| 0 <= i < before.len() && before[i] == k;
                assert(positions[i] == k);
            } else {
                assert(positions[positions.len() - 1] == k);
            }
        }
        assert forall|k: int| #[trigger] positions.contains(k) implies 0 <= k < items.len()
            && stays(items[k]) by {
            let i = choose|i: int| 0 <= i < positions.len() && positions[i] == k;
            if i < before.len() {
                assert(before[i] == k);
                assert(before.contains(k));
                assert(init[k] == items[k]);
            }
        }
        positions
    }
}

/// The metadata that is written has exactly the snapshots whose manifest
/// lists are kept, the log entries and statistics of these snapshots, and the
/// log entries on metadata files that are at the destination or being copied;
/// all the rest is what it was.
pub proof fn written_metadata_is_what_the_destination_has(
    before: Metadata,
    after: Metadata,
    lists: Seq<Seq<char>>,
    there: Seq<Seq<char>>,
    chosen: Seq<char>,
    src_url: Seq<char>,
)
    requires
        is_filtered(before, after, lists, there, chosen, src_url),
    ensures
        forall|s: Snapshot| #[trigger]
            after.snapshots@.contains(s) <==> before.snapshots@.contains(s) && (s.manifest_list
                matches Some(ml) && lists.contains(url_relative(src_url, ml@))),
        forall|e: SnapshotLogEntry| #[trigger]
            after.snapshot_log@.contains(e) <==> before.snapshot_log@.contains(e) && (exists|i: int|
                0 <= i < after.snapshots@.len() && (#[trigger] after.snapshots@[i]).snapshot_id
                    == e.snapshot_id),
        forall|f: StatisticsFile| #[trigger]
            after.statistics@.contains(f) <==> before.statistics@.contains(f) && (exists|i: int|
                0 <= i < after.snapshots@.len() && (#[trigger] after.snapshots@[i]).snapshot_id
                    == f.snapshot_id),
        forall|f: StatisticsFile| #[trigger]
            after.partition_statistics@.contains(f) <==> before.partition_statistics@.contains(f)
                && (exists|i: int|
                0 <= i < after.snapshots@.len() && (#[trigger] after.snapshots@[i]).snapshot_id
                    == f.snapshot_id),
        forall|e: MetadataLogEntry| #[trigger]
            after.metadata_log@.contains(e) <==> before.metadata_log@.contains(e) && (
            there.contains(after_last(e.metadata_file@, '/')) || after_last(e.metadata_file@, '/')
                == chosen),
        exists|at: Seq<int>| picks(before.snapshots@, after.snapshots@, at),
        exists|at: Seq<int>| picks(before.snapshot_log@, after.snapshot_log@, at),
        exists|at: Seq<int>| picks(before.metadata_log@, after.metadata_log@, at),
        exists|at: Seq<int>| picks(before.statistics@, after.statistics@, at),
        exists|at: Seq<int>| picks(before.partition_statistics@, after.partition_statistics@, at),
        after.format_version == before.format_version,
        after.table_uuid == before.table_uuid,
        after.location == before.location,
        after.current_snapshot_id == before.current_snapshot_id,
        after.current_schema_id == before.current_schema_id,
        after.schemas == before.schemas,
        after.other == before.other,
{
    let ids = ids_of(after.snapshots@);
    assert forall|id: i64| #[trigger] ids.contains(id) <==> exists|i: int|
        0 <= i < after.snapshots@.len() && (#[trigger] after.snapshots@[i]).snapshot_id == id by {
        if ids.contains(id) {
            let i = choose|i: int| 0 <= i < ids.len() && ids[i] == id;
            assert(after.snapshots@[i].snapshot_id == id);
        }
        if exists|i: int|
            0 <= i < after.snapshots@.len() && (#[trigger] after.snapshots@[i]).snapshot_id == id {
            let i = choose|i: int|
                0 <= i < after.snapshots@.len() && (#[trigger] after.snapshots@[i]).snapshot_id
                    == id;
            assert(ids[i] == id);
        }
    }
    assert forall|s: Snapshot| #[trigger] after.snapshots@.contains(s)
        <==> before.snapshots@.contains(s) && (s.manifest_list matches Some(ml) && lists.contains(
        url_relative(src_url, ml@),
    )) by {
        lemma_staying(before.snapshots@, snapshot_stays(lists, src_url), s);
    }
    assert forall|e: SnapshotLogEntry| #[trigger] after.snapshot_log@.contains(e)
        <==> before.snapshot_log@.contains(e) && ids.contains(e.snapshot_id) by {
        lemma_staying(before.snapshot_log@, log_stays(ids), e);
    }
    assert forall|f: StatisticsFile| #[trigger] after.statistics@.contains(f)
        <==> before.statistics@.contains(f) && ids.contains(f.snapshot_id) by {
        lemma_staying(before.statistics@, statistics_stay(ids), f);
    }
    assert forall|f: StatisticsFile| #[trigger] after.partition_statistics@.contains(f)
        <==> before.partition_statistics@.contains(f) && ids.contains(f.snapshot_id) by {
        lemma_staying(before.partition_statistics@, statistics_stay(ids), f);
    }
    assert forall|e: MetadataLogEntry| #[trigger] after.metadata_log@.contains(e)
        <==> before.metadata_log@.contains(e) && (there.contains(
        after_last(e.metadata_file@, '/'),
    ) || after_last(e.metadata_file@, '/') == chosen) by {
        lemma_staying(before.metadata_log@, file_log_stays(there, chosen), e);
    }
    let at = what_stays_keeps_its_order(before.snapshots@, snapshot_stays(lists, src_url));
    assert(picks(before.snapshots@, after.snapshots@, at));
    let at = what_stays_keeps_its_order(before.snapshot_log@, log_stays(ids));
    assert(picks(before.snapshot_log@, after.snapshot_log@, at));
    let at = what_stays_keeps_its_order(before.metadata_log@, file_log_stays(there, chosen));
    assert(picks(before.metadata_log@, after.metadata_log@, at));
    let at = what_stays_keeps_its_order(before.statistics@, statistics_stay(ids));
    assert(picks(before.statistics@, after.statistics@, at));
    let at = what_stays_keeps_its_order(before.partition_statistics@, statistics_stay(ids));
    assert(picks(before.partition_statistics@, after.partition_statistics@, at));
}

/// In the metadata that is written for a plan, every snapshot is kept whose
/// manifest list has a name that is among those at the destination, and none
/// is kept but these and the current one.
pub proof fn history_at_the_destination_is_kept(
    src_url: Seq<char>,
    before: Metadata,
    after: Metadata,
    there: Seq<Seq<char>>,
    chosen: Seq<char>,
    snapshot: Snapshot,
)
    requires
        is_filtered(
            before,
            after,
            crate::copy::plan::kept_lists(src_url, before, there),
            there,
            chosen,
            src_url,
        ),
        before.snapshots@.contains(snapshot),
    ensures
        snapshot.manifest_list matches Some(ml) ==> ml@ != src_url && there.contains(
            after_last(ml@, '/'),
        ) ==> after.snapshots@.contains(snapshot),
        snapshot.manifest_list is None ==> !after.snapshots@.contains(snapshot),
        snapshot.manifest_list matches Some(ml) ==> after.snapshots@.contains(snapshot) ==> {
            ||| there.contains(after_last(url_relative(src_url, ml@), '/'))
            ||| exists|i: int|
                0 <= i < before.snapshots@.len() && before.current_snapshot_id == Some(
                    (#[trigger] before.snapshots@[i]).snapshot_id,
                ) && (before.snapshots@[i].manifest_list matches Some(other) && url_relative(
                    src_url,
                    other@,
                ) == url_relative(src_url, ml@))
        },
{
    let lists = crate::copy::plan::kept_lists(src_url, before, there);
    crate::copy::plan::lists_at_the_destination_are_kept(src_url, before, there);
    written_metadata_is_what_the_destination_has(before, after, lists, there, chosen, src_url);
    let k = choose|k: int| 0 <= k < before.snapshots@.len() && before.snapshots@[k] == snapshot;
    assert(before.snapshots@[k] == snapshot);
    if snapshot.manifest_list is Some && after.snapshots@.contains(snapshot) {
        let rel = url_relative(src_url, snapshot.manifest_list->0@);
        assert(lists.contains(rel));
    }
}

/// The list of files to copy has nothing but the manifest lists that are
/// kept, what the walk found, and the statistics that stay, and it has all of
/// them.
pub proof fn nothing_else_is_copied(
    lists: Seq<Seq<char>>,
    content: Seq<Seq<char>>,
    meta: Metadata,
    src_url: Seq<char>,
    path: Seq<char>,
)
    ensures
        files_to_copy(lists, content, meta, src_url).contains(path) <==> {
            ||| lists.contains(path)
            ||| content.contains(path)
            ||| exists|i: int|
                0 <= i < meta.statistics@.len() && url_relative(
                    src_url,
                    (#[trigger] meta.statistics@[i]).statistics_path@,
                ) == path
            ||| exists|i: int|
                0 <= i < meta.partition_statistics@.len() && url_relative(
                    src_url,
                    (#[trigger] meta.partition_statistics@[i]).statistics_path@,
                ) == path
        },
{
    let c = statistics_paths(src_url, meta.statistics@);
    let d = statistics_paths(src_url, meta.partition_statistics@);
    let all = lists + content + c + d;
    deduped_names_are_the_same_names(all);
    every_file_is_copied_once(lists, content, meta, src_url, path);
    if exists|i: int|
        0 <= i < meta.statistics@.len() && url_relative(
            src_url,
            (#[trigger] meta.statistics@[i]).statistics_path@,
        ) == path {
        let i = choose|i: int|
            0 <= i < meta.statistics@.len() && url_relative(
                src_url,
                (#[trigger] meta.statistics@[i]).statistics_path@,
            ) == path;
        assert(c[i] == path);
        assert(all[lists.len() + content.len() + i] == path);
    }
    if exists|i: int|
        0 <= i < meta.partition_statistics@.len() && url_relative(
            src_url,
            (#[trigger] meta.partition_statistics@[i]).statistics_path@,
        ) == path {
        let i = choose|i: int|
            0 <= i < meta.partition_statistics@.len() && url_relative(
                src_url,
                (#[trigger] meta.partition_statistics@[i]).statistics_path@,
            ) == path;
        assert(d[i] == path);
        assert(all[lists.len() + content.len() + c.len() + i] == path);
    }
    if all.contains(path) {
        let k = choose|k: int| 0 <= k < all.len() && all[k] == path;
        if k < lists.len() {
            assert(lists[k] == path);
        } else if k < lists.len() + content.len() {
            assert(content[k - lists.len()] == path);
        } else if k < lists.len() + content.len() + c.len() {
            let i = k - lists.len() - content.len();
            assert(c[i] == path);
            assert(url_relative(src_url, meta.statistics@[i].statistics_path@) == path);
        } else {
            let i = k - lists.len() - content.len() - c.len();
            assert(d[i] == path);
            assert(url_relative(src_url, meta.partition_statistics@[i].statistics_path@) == path);
        }
    }
}

} // verus!
