//! What becomes of one file: whether it is copied, what is written, and what
//! is recorded of it.
use vstd::prelude::*;
use vstd::slice::slice_to_vec;
use vstd::utf8::{encode_utf8, valid_utf8};

use crate::copy::file::{
    all_relocated, classify, kind_is_told_by_the_ending, name_of_type, relocated_text, rewrite_avro,
    rewrite_json, text_is_rewritten_as_text, type_of, AvroRewriteError, FileType, JsonRewriteError,
};
use crate::copy::paths::{relative, relative_under};
use crate::copy::plan::{is_skipped, should_skip};
use crate::copy::progress::TableProgress;
use crate::gzip::{gunzipped, is_gzip, pack, packed, unpacked};
use crate::iceberg::avro::{avro_reading, avro_written, can_be_written, is_read_back, is_written_for_certain, AvroReading};
use crate::iceberg::container::is_readable;
use crate::iceberg::layout::{joined, key_under, object_key};
use crate::iceberg::metadata::MetadataFile;
use crate::names::NameMap;
use crate::sync_log::{entries_in, etag_text, Entry, EntryView};
use crate::text::{
    after_last, ends_with, has_inside, has_suffix, occurs_at, occurs_in, replace_all, replaced,
};
use crate::ui::event::CopyEvent;
use crate::ui::reporter::Reporter;

verus! {

/// A file to be dealt with: its path below the table, and its keys at the
/// source and at the destination.
pub struct FileTask {
    pub relative: String,
    pub src_key: String,
    pub dst_key: String,
}

/// The task for a file that a plan names by its path below the table.
pub fn planned_task(src_prefix: &str, dst_prefix: &str, relative: &str) -> (r: FileTask)
    ensures
        r.relative@ == relative@,
        r.src_key@ == object_key(joined(src_prefix@, relative@)),
        r.dst_key@ == object_key(joined(dst_prefix@, relative@)),
{
    FileTask {
        relative: relative.to_owned(),
        src_key: key_under(src_prefix, relative),
        dst_key: key_under(dst_prefix, relative),
    }
}

/// The task for an object that a listing of the source found.
pub fn listed_task(src_prefix: &str, dst_prefix: &str, location: &str) -> (r: FileTask)
    ensures
        r.relative@ == relative(location@, src_prefix@),
        r.src_key@ == location@,
        r.dst_key@ == object_key(joined(dst_prefix@, relative(location@, src_prefix@))),
{
    let rel = relative_under(location, src_prefix);
    FileTask {
        relative: rel.to_owned(),
        src_key: location.to_owned(),
        dst_key: key_under(dst_prefix, rel),
    }
}

/// What is to be done about a file.
#[derive(Debug, Clone, Copy, PartialEq, Eq, Structural)]
pub enum FileStep {
    /// Count it as skipped.
    Skip,
    /// Copy it, as a file of this kind.
    Copy(FileType),
    /// Give up: the source cannot be asked.
    Fail,
}

/// Decides about a file whose size and tag at the source are known.
pub fn process_listed(
    task: &FileTask,
    existing: &NameMap<u64>,
    prev_sync: &NameMap<Entry>,
    size: u64,
    etag: Option<&str>,
) -> (r: FileStep)
    ensures
        r == if is_skipped(
            existing@,
            entries_in(prev_sync@),
            task.relative@,
            size,
            etag_text(etag),
        ) {
            FileStep::Skip
        } else {
            FileStep::Copy(type_of(task.src_key@))
        },
{
    if should_skip(existing, prev_sync, task.relative.as_str(), size, etag) {
        FileStep::Skip
    } else {
        FileStep::Copy(classify(task.src_key.as_str()))
    }
}

/// What the source says of a file.
pub enum HeadReply {
    Found { size: u64, etag: Option<String> },
    NotFound,
    Failed,
}

/// The text of an optional string.
pub open spec fn owned_text(s: Option<String>) -> Option<Seq<char>> {
    match s {
        Some(s) => Some(s@),
        None => None,
    }
}

/// Decides about a file that a plan names, once the source has been asked
/// for it. A file that is missing there is skipped.
pub fn process_relative(
    task: &FileTask,
    existing: &NameMap<u64>,
    prev_sync: &NameMap<Entry>,
    reply: &HeadReply,
) -> (r: FileStep)
    ensures
        r == match *reply {
            HeadReply::Found { size, etag } => if is_skipped(
                existing@,
                entries_in(prev_sync@),
                task.relative@,
                size,
                owned_text(etag),
            ) {
                FileStep::Skip
            } else {
                FileStep::Copy(type_of(task.src_key@))
            },
            HeadReply::NotFound => FileStep::Skip,
            HeadReply::Failed => FileStep::Fail,
        },
{
    match reply {
        HeadReply::Found { size, etag } => {
            let tag: Option<&str> = match etag {
                Some(s) => Some(s.as_str()),
                None => None,
            };
            process_listed(task, existing, prev_sync, *size, tag)
        },
        HeadReply::NotFound => FileStep::Skip,
        HeadReply::Failed => FileStep::Fail,
    }
}

// ---------------------------------------------------------------------------
// What is written
// ---------------------------------------------------------------------------

/// Why a file could not be rewritten.
pub enum RewriteError {
    Json(JsonRewriteError),
    Avro(AvroRewriteError),
}

/// Is `out` what is to be written for the file? Metadata comes with its
/// paths rewritten, any other file as it is.
pub open spec fn is_rewritten_as(
    file_type: FileType,
    data: Seq<u8>,
    src_url: Seq<char>,
    dst_url: Seq<char>,
    out: Seq<u8>,
) -> bool {
    match file_type {
        FileType::Parquet | FileType::Other => out == data,
        FileType::Json => {
            &&& unpacked(data) matches Some(text)
            &&& valid_utf8(text)
            &&& out == packed(relocated_text(text, src_url, dst_url), is_gzip(data))
            &&& is_gzip(data) ==> is_gzip(out) && gunzipped(out) == Some(
                relocated_text(text, src_url, dst_url),
            )
        },
        FileType::Avro => {
            &&& avro_reading(data) matches AvroReading::Records(records)
            &&& avro_written(data, all_relocated(records, src_url, dst_url), out)
            &&& avro_reading(out) matches AvroReading::Records(back) ==> back == all_relocated(
                records,
                src_url,
                dst_url,
            )
            &&& is_read_back(data, all_relocated(records, src_url, dst_url)) ==> avro_reading(out)
                == AvroReading::Records(all_relocated(records, src_url, dst_url))
        },
    }
}

/// Makes what is to be written of what was read.
pub fn run_copy(file_type: FileType, data: Vec<u8>, src_url: &str, dst_url: &str) -> (r: Result<
    Vec<u8>,
    RewriteError,
>)
    ensures
        match r {
            Ok(out) => is_rewritten_as(file_type, data@, src_url@, dst_url@, out@),
            Err(RewriteError::Json(e)) => file_type == FileType::Json && match e {
                JsonRewriteError::Decompress => is_gzip(data@) && (unpacked(data@) matches Some(
                    text,
                ) ==> !valid_utf8(text)),
                JsonRewriteError::NotUtf8 => !is_gzip(data@) && !valid_utf8(data@),
                JsonRewriteError::Compress(_) => false,
            },
            Err(RewriteError::Avro(e)) => file_type == FileType::Avro && match e {
                AvroRewriteError::Read(_) => !(avro_reading(data@) is Records),
                AvroRewriteError::Unwritable => avro_reading(data@) is Records && !is_readable(
                    data@,
                    true,
                ),
                AvroRewriteError::Write(_) => {
                    &&& avro_reading(data@) matches AvroReading::Records(records)
                    &&& !can_be_written(data@, all_relocated(records, src_url@, dst_url@))
                    &&& !is_written_for_certain(data@, records)
                },
            },
        },
{
    match file_type {
        FileType::Parquet => Ok(data),
        FileType::Other => Ok(data),
        FileType::Json => match rewrite_json(data.as_slice(), src_url, dst_url) {
            Ok(out) => Ok(out),
            Err(e) => Err(RewriteError::Json(e)),
        },
        FileType::Avro => match rewrite_avro(data.as_slice(), src_url, dst_url) {
            Ok(out) => Ok(out),
            Err(e) => Err(RewriteError::Avro(e)),
        },
    }
}

/// Does the name of a metadata file say that it is compressed?
pub open spec fn named_as_gzip(name: Seq<char>) -> bool {
    ends_with(name, ".gz"@) || occurs_in(name, ".gz."@)
}

/// The bytes of the new metadata file, from its JSON text. A replacement over
/// the whole text catches every absolute path, also in fields that have no
/// model. The file is compressed if its name says so.
pub fn render_metadata_json(json: &str, chosen: &MetadataFile, src_url: &str, dst_url: &str) -> (r:
    Result<Vec<u8>, std::io::Error>)
    ensures
        r is Ok,
        r matches Ok(out) ==> {
            let text = encode_utf8(replaced(json@, src_url@, dst_url@));
            let compress = named_as_gzip(after_last(chosen@.path, '/'));
            &&& out@ == packed(text, compress)
            &&& compress ==> is_gzip(out@) && gunzipped(out@) == Some(text)
            &&& !compress ==> out@ == text
        },
{
    let rewritten = replace_all(json, src_url, dst_url);
    let name = chosen.filename();
    let needs_gzip = has_suffix(name, ".gz") || has_inside(name, ".gz.");
    pack(slice_to_vec(rewritten.as_str().as_bytes()), needs_gzip)
}

// ---------------------------------------------------------------------------
// What is recorded
// ---------------------------------------------------------------------------

/// How the copy of a file ended.
#[derive(Debug, Clone, Copy, PartialEq, Eq, Structural)]
pub enum CopyOutcome {
    Copied,
    /// The source file disappeared in the meantime.
    Missing,
    /// Reading or writing it failed for another reason.
    Failed,
}

/// The log entry for a file that was copied.
pub open spec fn entry_of(
    relative: Seq<char>,
    size: u64,
    etag: Option<Seq<char>>,
    file_type: FileType,
) -> EntryView {
    EntryView {
        relative_path: relative,
        source_size: size as i64,
        source_etag: etag,
        file_type: name_of_type(file_type),
        rewritten: file_type.rewritten(),
    }
}

/// The log entry for a file that was copied.
pub fn log_entry(relative: &str, size: u64, etag: Option<&str>, file_type: FileType) -> (r: Entry)
    ensures
        r@ == entry_of(relative@, size, etag_text(etag), file_type),
{
    Entry {
        relative_path: relative.to_owned(),
        source_size: size as i64,
        source_etag: match etag {
            Some(s) => Some(s.to_owned()),
            None => None,
        },
        file_type: file_type.as_str().to_owned(),
        rewritten: file_type.is_rewritten(),
    }
}

/// Counts a file, and makes the log entry if it was copied. A file that is
/// gone from the source is counted as skipped, one that could not be copied as
/// failed. Neither is logged: one bad file is no reason to fail the whole
/// table, and the next run tries again.
pub fn record_outcome(
    outcome: CopyOutcome,
    relative: &str,
    size: u64,
    etag: Option<&str>,
    file_type: FileType,
    progress: &mut TableProgress,
    reporter: &Reporter,
) -> (r: (Option<CopyEvent>, Option<Entry>))
    requires
        old(progress).settled() < u64::MAX,
    ensures
        match outcome {
            CopyOutcome::Copied => {
                &&& *final(progress) == (TableProgress {
                    copied: (old(progress).copied + 1) as u64,
                    ..*old(progress)
                })
                &&& r.1 matches Some(entry)
                &&& entry@ == entry_of(relative@, size, etag_text(etag), file_type)
            },
            CopyOutcome::Missing => {
                &&& *final(progress) == (TableProgress {
                    skipped: (old(progress).skipped + 1) as u64,
                    ..*old(progress)
                })
                &&& r.1 is None
            },
            CopyOutcome::Failed => {
                &&& *final(progress) == (TableProgress {
                    failed: (old(progress).failed + 1) as u64,
                    ..*old(progress)
                })
                &&& r.1 is None
            },
        },
        final(progress).reported(r.0, reporter@.active),
{
    match outcome {
        CopyOutcome::Copied => {
            let event = progress.record_copied(reporter);
            (event, Some(log_entry(relative, size, etag, file_type)))
        },
        CopyOutcome::Missing => (progress.record_skipped(reporter), None),
        CopyOutcome::Failed => (progress.record_failed(reporter), None),
    }
}

/// A file that was copied and logged is skipped by the next run, as long as
/// it is at the destination in whatever size and the source did not change.
pub proof fn logged_file_is_skipped_next_time(
    existing: Map<Seq<char>, u64>,
    prev_sync: Map<Seq<char>, EntryView>,
    relative: Seq<char>,
    size: u64,
    etag: Option<Seq<char>>,
    file_type: FileType,
)
    requires
        existing.contains_key(relative),
        prev_sync.contains_key(relative),
        prev_sync[relative] == entry_of(relative, size, etag, file_type),
    ensures
        is_skipped(existing, prev_sync, relative, size, etag),
{
}

/// A file that is not at the destination is copied, whatever the log says.
pub proof fn missing_file_is_copied(
    existing: Map<Seq<char>, u64>,
    prev_sync: Map<Seq<char>, EntryView>,
    relative: Seq<char>,
    size: u64,
    etag: Option<Seq<char>>,
)
    requires
        !existing.contains_key(relative),
    ensures
        !is_skipped(existing, prev_sync, relative, size, etag),
{
}

/// A data file arrives byte for byte as it was.
pub proof fn data_files_arrive_unchanged(
    data: Seq<u8>,
    src_url: Seq<char>,
    dst_url: Seq<char>,
    out: Seq<u8>,
)
    ensures
        is_rewritten_as(FileType::Parquet, data, src_url, dst_url, out) <==> out == data,
        is_rewritten_as(FileType::Other, data, src_url, dst_url, out) <==> out == data,
{
}

/// A JSON file arrives as its text with the destination in place of the
/// source, compressed exactly if it came compressed.
pub proof fn json_files_arrive_with_new_paths(
    text: Seq<char>,
    data: Seq<u8>,
    src_url: Seq<char>,
    dst_url: Seq<char>,
    out: Seq<u8>,
)
    requires
        is_rewritten_as(FileType::Json, data, src_url, dst_url, out),
    ensures
        !is_gzip(data) && data == encode_utf8(text) ==> out == encode_utf8(
            replaced(text, src_url, dst_url),
        ),
        is_gzip(data) && gunzipped(data) == Some(encode_utf8(text)) ==> is_gzip(out) && gunzipped(
            out,
        ) == Some(encode_utf8(replaced(text, src_url, dst_url))),
{
    text_is_rewritten_as_text(text, src_url, dst_url);
}

/// An Avro file arrives with the records that it had, relocated: whatever is
/// read from it again is those records, and nothing else.
pub proof fn avro_files_arrive_with_their_records(
    data: Seq<u8>,
    src_url: Seq<char>,
    dst_url: Seq<char>,
    out: Seq<u8>,
)
    requires
        is_rewritten_as(FileType::Avro, data, src_url, dst_url, out),
        avro_reading(out) is Records,
    ensures
        avro_reading(data) is Records,
        avro_reading(out)->Records_0 == all_relocated(
            avro_reading(data)->Records_0,
            src_url,
            dst_url,
        ),
{
}

/// A metadata file is compressed if the mark for it stands at the end of its
/// name or as a part of the name between two dots, and not otherwise.
pub proof fn mark_in_the_name_means_compressed(a: Seq<char>, b: Seq<char>, name: Seq<char>)
    ensures
        named_as_gzip(a + ".gz"@),
        named_as_gzip(a + ".gz."@ + b),
        !occurs_in(name, ".gz"@) ==> !named_as_gzip(name),
        named_as_gzip(name) ==> name == name.take(name.len() - 3) + ".gz"@ || occurs_in(
            name,
            ".gz."@,
        ),
{
    reveal_strlit(".gz");
    reveal_strlit(".gz.");
    let x = a + ".gz"@;
    assert(x.subrange(x.len() - 3, x.len() as int) =~= ".gz"@);
    let y = a + ".gz."@ + b;
    assert(y.subrange(a.len() as int, a.len() as int + 4) =~= ".gz."@);
    assert(occurs_at(y, ".gz."@, a.len() as int));
    if occurs_in(name, ".gz."@) {
        let i = choose|i: int| occurs_at(name, ".gz."@, i);
        assert(name.subrange(i, i + 3) =~= name.subrange(i, i + 4).take(3));
        assert(".gz."@.take(3) =~= ".gz"@);
        assert(occurs_at(name, ".gz"@, i));
    }
    if ends_with(name, ".gz"@) {
        assert(occurs_at(name, ".gz"@, name.len() - 3));
        assert(name =~= name.take(name.len() - 3) + name.subrange(
            name.len() - 3,
            name.len() as int,
        ));
    }
}

/// The log entry for a file says where it stands, what it was like at the
/// source, of which kind it is and whether it was rewritten.
pub proof fn entry_tells_of_the_file(
    relative: Seq<char>,
    size: u64,
    etag: Option<Seq<char>>,
    stem: Seq<char>,
)
    requires
        size <= i64::MAX,
    ensures
        ({
            let data = entry_of(relative, size, etag, type_of(stem + ".parquet"@));
            &&& data.relative_path == relative
            &&& data.source_size == size
            &&& data.source_etag == etag
            &&& data.file_type == "parquet"@
            &&& !data.rewritten
        }),
        ({
            let manifest = entry_of(relative, size, etag, type_of(stem + ".avro"@));
            &&& manifest.relative_path == relative
            &&& manifest.source_size == size
            &&& manifest.source_etag == etag
            &&& manifest.file_type == "avro"@
            &&& manifest.rewritten
        }),
        ({
            let metadata = entry_of(relative, size, etag, type_of(stem + ".json"@));
            &&& metadata.relative_path == relative
            &&& metadata.source_size == size
            &&& metadata.source_etag == etag
            &&& metadata.file_type == "json"@
            &&& metadata.rewritten
        }),
        entry_of(relative, size, etag, FileType::Other).file_type == "other"@,
        !entry_of(relative, size, etag, FileType::Other).rewritten,
{
    kind_is_told_by_the_ending(stem, stem);
}

} // verus!
