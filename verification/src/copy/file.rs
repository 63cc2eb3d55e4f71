//! What is done to a single file: which kind it is, how its paths are
//! rewritten, and how its download is carried to the end.
use vstd::arithmetic::power2::pow2;
use vstd::prelude::*;
use vstd::slice::slice_to_vec;
use vstd::utf8::{decode_utf8, encode_utf8, valid_utf8};

use crate::gzip::{gunzipped, is_gzip, pack, packed, sniff_gzip, unpack, unpacked};
use crate::iceberg::avro::{
    all_data, all_named_data, avro_reading, avro_written, can_be_written, dictionary_of, is_filled,
    is_read_back, is_written_for_certain, lemma_all_data, lemma_all_named_data, read_records,
    same_layout, same_layouts, write_records, AvroData, AvroReading, AvroValue, ContainerError,
};
use crate::iceberg::container::{is_readable, test_readable};
use crate::number::{digits, push_decimal};
use crate::text::{
    ends_with, found_text_cuts_in_three, has_inside, has_suffix, occurs_in, replace_all, replaced,
    same_text, text_without_a_match_is_unchanged,
};
use crate::time::Span;

verus! {

/// The kinds of files that a table is made of.
#[derive(Debug, Clone, Copy, PartialEq, Eq, Structural)]
pub enum FileType {
    Parquet,
    Json,
    Avro,
    Other,
}

/// The name of a kind of file.
pub open spec fn name_of_type(file_type: FileType) -> Seq<char> {
    match file_type {
        FileType::Parquet => "parquet"@,
        FileType::Json => "json"@,
        FileType::Avro => "avro"@,
        FileType::Other => "other"@,
    }
}

impl FileType {
    pub fn as_str(self) -> (r: &'static str)
        ensures
            r@ == name_of_type(self),
    {
        match self {
            FileType::Parquet => "parquet",
            FileType::Json => "json",
            FileType::Avro => "avro",
            FileType::Other => "other",
        }
    }

    /// Is the file changed on its way rather than passed through?
    pub open spec fn rewritten(self) -> bool {
        self == FileType::Json || self == FileType::Avro
    }

    /// Is the file changed on its way rather than passed through?
    pub fn is_rewritten(self) -> (r: bool)
        ensures
            r == self.rewritten(),
    {
        matches!(self, FileType::Json | FileType::Avro)
    }
}

/// The kind of file that a path names by its ending.
pub open spec fn type_of(path: Seq<char>) -> FileType {
    if ends_with(path, ".parquet"@) {
        FileType::Parquet
    } else if ends_with(path, ".json"@) {
        FileType::Json
    } else if ends_with(path, ".avro"@) {
        FileType::Avro
    } else {
        FileType::Other
    }
}

pub fn classify(path: &str) -> (r: FileType)
    ensures
        r == type_of(path@),
{
    if has_suffix(path, ".parquet") {
        FileType::Parquet
    } else if has_suffix(path, ".json") {
        FileType::Json
    } else if has_suffix(path, ".avro") {
        FileType::Avro
    } else {
        FileType::Other
    }
}

// ---------------------------------------------------------------------------
// Paths inside JSON
// ---------------------------------------------------------------------------

/// Why a JSON file could not be rewritten.
pub enum JsonRewriteError {
    /// It is compressed, and cannot be decompressed to text.
    Decompress,
    /// It is not compressed, and not text.
    NotUtf8,
    /// It could not be compressed again.
    Compress(std::io::Error),
}

/// The bytes of a text with `to` in place of every `from`.
pub open spec fn relocated_text(data: Seq<u8>, from: Seq<char>, to: Seq<char>) -> Seq<u8> {
    encode_utf8(replaced(decode_utf8(data), from, to))
}

/// Puts `to` in place of every `from` in the text that the bytes hold.
/// `None` if they hold no text.
pub fn relocate_text(data: Vec<u8>, from: &str, to: &str) -> (r: Option<Vec<u8>>)
    ensures
        match r {
            Some(out) => valid_utf8(data@) && out@ == relocated_text(data@, from@, to@),
            None => !valid_utf8(data@),
        },
{
    match String::from_utf8(data) {
        Ok(text) => {
            proof {
                vstd::utf8::encode_utf8_decode_utf8(text@);
            }
            let out = replace_all(text.as_str(), from, to);
            Some(slice_to_vec(out.as_str().as_bytes()))
        },
        Err(_) => None,
    }
}

/// Rewrites the paths in a JSON file. A blunt replacement covers every field
/// that may hold a path without a model of them all. A file that comes
/// compressed is compressed again.
pub fn rewrite_json(raw: &[u8], from_url: &str, to_url: &str) -> (r: Result<
    Vec<u8>,
    JsonRewriteError,
>)
    ensures
        match r {
            Ok(out) => {
                &&& unpacked(raw@) matches Some(data)
                &&& valid_utf8(data)
                &&& out@ == packed(relocated_text(data, from_url@, to_url@), is_gzip(raw@))
                &&& is_gzip(raw@) ==> is_gzip(out@) && gunzipped(out@) == Some(
                    relocated_text(data, from_url@, to_url@),
                )
            },
            Err(JsonRewriteError::Decompress) => is_gzip(raw@) && (unpacked(raw@) matches Some(
                data,
            ) ==> !valid_utf8(data)),
            Err(JsonRewriteError::NotUtf8) => !is_gzip(raw@) && !valid_utf8(raw@),
            Err(JsonRewriteError::Compress(_)) => false,
        },
{
    let compressed = sniff_gzip(raw);
    let data = match unpack(raw) {
        Ok(data) => data,
        Err(_) => return Err(JsonRewriteError::Decompress),
    };
    match relocate_text(data, from_url, to_url) {
        Some(out) => match pack(out, compressed) {
            Ok(bytes) => Ok(bytes),
            Err(e) => Err(JsonRewriteError::Compress(e)),
        },
        None => if compressed {
            Err(JsonRewriteError::Decompress)
        } else {
            Err(JsonRewriteError::NotUtf8)
        },
    }
}

// ---------------------------------------------------------------------------
// Paths inside Avro
// ---------------------------------------------------------------------------

/// The fields that hold absolute paths: `manifest_path` in manifest lists,
/// `file_path` in manifests.
pub open spec fn is_path_field(name: Seq<char>) -> bool {
    name == "manifest_path"@ || name == "file_path"@
}

/// A value with every path in it relocated: the text that it is, if it stands
/// in a path field, plain or wrapped as optional, and the texts of the path
/// fields in it, at any depth.
pub open spec fn relocated_at(
    data: AvroData,
    is_path: bool,
    from: Seq<char>,
    to: Seq<char>,
) -> AvroData
    decreases data,
{
    match data {
        AvroData::Text(s) => if is_path {
            AvroData::Text(replaced(s, from, to))
        } else {
            data
        },
        AvroData::Union(i, inner) => AvroData::Union(
            i,
            Box::new(relocated_at(*inner, is_path, from, to)),
        ),
        AvroData::Array(items) => AvroData::Array(
            Seq::new(
                items.len(),
                |i: int|
                    if 0 <= i < items.len() {
                        relocated_at(items[i], false, from, to)
                    } else {
                        arbitrary()
                    },
            ),
        ),
        AvroData::Dictionary(table) => AvroData::Dictionary(
            Map::new(
                |k: Seq<char>| table.contains_key(k),
                |k: Seq<char>|
                    if table.contains_key(k) {
                        relocated_at(table[k], false, from, to)
                    } else {
                        arbitrary()
                    },
            ),
        ),
        AvroData::Record(fields) => AvroData::Record(
            Seq::new(
                fields.len(),
                |i: int|
                    if 0 <= i < fields.len() {
                        (
                            fields[i].0,
                            relocated_at(fields[i].1, is_path_field(fields[i].0), from, to),
                        )
                    } else {
                        arbitrary()
                    },
            ),
        ),
        other => other,
    }
}

/// A value with every path field in it, at any depth, relocated.
pub open spec fn relocated(data: AvroData, from: Seq<char>, to: Seq<char>) -> AvroData {
    relocated_at(data, false, from, to)
}

/// The records with every path field relocated.
pub open spec fn all_relocated(
    records: Seq<AvroData>,
    from: Seq<char>,
    to: Seq<char>,
) -> Seq<AvroData> {
    records.map_values(|d: AvroData| relocated(d, from, to))
}

/// Relocation changes what texts say and nothing else.
pub proof fn relocation_keeps_the_layout(
    data: AvroData,
    is_path: bool,
    from: Seq<char>,
    to: Seq<char>,
)
    ensures
        same_layout(data, relocated_at(data, is_path, from, to)),
    decreases data,
{
    match data {
        AvroData::Union(i, inner) => {
            relocation_keeps_the_layout(*inner, is_path, from, to);
        },
        AvroData::Array(items) => {
            assert forall|i: int| 0 <= i < items.len() implies same_layout(
                #[trigger] items[i],
                relocated_at(data, is_path, from, to)->Array_0[i],
            ) by {
                relocation_keeps_the_layout(items[i], false, from, to);
            }
        },
        AvroData::Dictionary(table) => {
            let out = relocated_at(data, is_path, from, to)->Dictionary_0;
            assert(out.dom() =~= table.dom());
            assert forall|k: Seq<char>| #[trigger] table.contains_key(k) implies same_layout(
                table[k],
                out[k],
            ) by {
                relocation_keeps_the_layout(table[k], false, from, to);
            }
        },
        AvroData::Record(fields) => {
            let out = relocated_at(data, is_path, from, to)->Record_0;
            assert forall|i: int| 0 <= i < fields.len() implies (#[trigger] fields[i]).0 == out[i].0
                && same_layout(fields[i].1, out[i].1) by {
                relocation_keeps_the_layout(fields[i].1, is_path_field(fields[i].0), from, to);
            }
        },
        _ => {},
    }
}

/// Relocation neither fills in what is missing nor takes anything away.
pub proof fn relocation_keeps_what_is_there(
    data: AvroData,
    is_path: bool,
    from: Seq<char>,
    to: Seq<char>,
)
    ensures
        is_filled(relocated_at(data, is_path, from, to)) == is_filled(data),
    decreases data,
{
    let out = relocated_at(data, is_path, from, to);
    match data {
        AvroData::Union(i, inner) => {
            relocation_keeps_what_is_there(*inner, is_path, from, to);
            assert(relocated_at(*inner, is_path, from, to) is Null == (*inner is Null));
        },
        AvroData::Array(items) => {
            let moved = out->Array_0;
            assert forall|i: int|
                #![trigger items[i]]
                #![trigger moved[i]]
                0 <= i < items.len() implies is_filled(items[i]) == is_filled(moved[i]) by {
                relocation_keeps_what_is_there(items[i], false, from, to);
            }
        },
        AvroData::Dictionary(table) => {
            let moved = out->Dictionary_0;
            assert(moved.dom() =~= table.dom());
            assert forall|k: Seq<char>|
                #![trigger table.contains_key(k)]
                #![trigger moved.contains_key(k)]
                table.contains_key(k) implies is_filled(table[k]) == is_filled(moved[k]) by {
                relocation_keeps_what_is_there(table[k], false, from, to);
            }
        },
        AvroData::Record(fields) => {
            let moved = out->Record_0;
            assert forall|i: int|
                #![trigger fields[i]]
                #![trigger moved[i]]
                0 <= i < fields.len() implies is_filled(fields[i].1) == is_filled(moved[i].1) by {
                relocation_keeps_what_is_there(fields[i].1, is_path_field(fields[i].0), from, to);
            }
        },
        _ => {},
    }
}

/// The pairs with each value relocated.
spec fn relocated_pairs(
    pairs: Seq<(Seq<char>, AvroData)>,
    from: Seq<char>,
    to: Seq<char>,
) -> Seq<(Seq<char>, AvroData)> {
    pairs.map_values(|p: (Seq<char>, AvroData)| (p.0, relocated(p.1, from, to)))
}

/// A dictionary of relocated pairs is the relocated dictionary.
proof fn lemma_relocated_dictionary(
    pairs: Seq<(Seq<char>, AvroData)>,
    is_path: bool,
    from: Seq<char>,
    to: Seq<char>,
)
    ensures
        AvroData::Dictionary(dictionary_of(relocated_pairs(pairs, from, to))) == relocated_at(
            AvroData::Dictionary(dictionary_of(pairs)),
            is_path,
            from,
            to,
        ),
    decreases pairs.len(),
{
    let out = relocated_pairs(pairs, from, to);
    let table = dictionary_of(pairs);
    let want = relocated_at(AvroData::Dictionary(table), is_path, from, to)->Dictionary_0;
    if pairs.len() > 0 {
        let init = pairs.drop_last();
        lemma_relocated_dictionary(init, is_path, from, to);
        assert(out.drop_last() =~= relocated_pairs(init, from, to));
        assert(out.last() == (pairs.last().0, relocated(pairs.last().1, from, to)));
    }
    assert(dictionary_of(out) =~= want);
}

/// Puts `to` in place of every `from` in the path fields of the value, and in
/// the value itself if it stands in such a field.
fn relocate_value(value: AvroValue, is_path: bool, from: &str, to: &str) -> (r: AvroValue)
    ensures
        r.data() == relocated_at(value.data(), is_path, from@, to@),
    decreases value,
{
    match value {
        AvroValue::Text(s) => if is_path && has_inside(s.as_str(), from) {
            AvroValue::Text(replace_all(s.as_str(), from, to))
        } else {
            proof {
                if is_path {
                    crate::text::text_without_a_match_is_unchanged(s@, from@, to@);
                }
            }
            AvroValue::Text(s)
        },
        AvroValue::Union(i, inner) => AvroValue::Union(
            i,
            Box::new(relocate_value(*inner, is_path, from, to)),
        ),
        AvroValue::Array(items) => {
            let mut out: Vec<AvroValue> = Vec::new();
            for item in it: items
                invariant
                    value == AvroValue::Array(items),
                    it.seq() == items@,
                    out@.len() == it.index(),
                    forall|i: int|
                        0 <= i < it.index() ==> #[trigger] out@[i].data() == relocated(
                            items@[i].data(),
                            from@,
                            to@,
                        ),
            {
                proof {
                    assert(item == items@[it.index() as int]);
                    assert(decreases_to!(value => value->Array_0));
                    assert(decreases_to!(value->Array_0 => value->Array_0@));
                    assert(decreases_to!(items@ => items@[it.index() as int]));
                }
                out.push(relocate_value(item, false, from, to));
            }
            proof {
                let want = relocated_at(value.data(), is_path, from@, to@)->Array_0;
                assert forall|i: int| 0 <= i < out@.len() implies #[trigger] out@[i].data()
                    == want[i] by {
                    assert(all_data(items@)[i] == items@[i].data());
                }
                lemma_all_data(out@, want);
            }
            AvroValue::Array(out)
        },
        AvroValue::Dictionary(pairs) => {
            let mut out: Vec<(String, AvroValue)> = Vec::new();
            for pair in it: pairs
                invariant
                    value == AvroValue::Dictionary(pairs),
                    it.seq() == pairs@,
                    out@.len() == it.index(),
                    forall|i: int|
                        0 <= i < it.index() ==> (#[trigger] out@[i]).0@ == pairs@[i].0@
                            && out@[i].1.data() == relocated(pairs@[i].1.data(), from@, to@),
            {
                proof {
                    assert(pair == pairs@[it.index() as int]);
                    assert(decreases_to!(value => value->Dictionary_0));
                    assert(decreases_to!(value->Dictionary_0 => value->Dictionary_0@));
                    assert(decreases_to!(pairs@ => pairs@[it.index() as int]));
                    assert(decreases_to!(pair => pair.1));
                }
                let (name, part) = pair;
                out.push((name, relocate_value(part, false, from, to)));
            }
            proof {
                assert(all_named_data(out@) =~= relocated_pairs(
                    all_named_data(pairs@),
                    from@,
                    to@,
                ));
                lemma_relocated_dictionary(all_named_data(pairs@), is_path, from@, to@);
            }
            AvroValue::Dictionary(out)
        },
        AvroValue::Record(fields) => {
            let mut out: Vec<(String, AvroValue)> = Vec::new();
            for field in it: fields
                invariant
                    value == AvroValue::Record(fields),
                    it.seq() == fields@,
                    out@.len() == it.index(),
                    forall|i: int|
                        0 <= i < it.index() ==> (#[trigger] out@[i]).0@ == fields@[i].0@
                            && out@[i].1.data() == relocated_at(
                            fields@[i].1.data(),
                            is_path_field(fields@[i].0@),
                            from@,
                            to@,
                        ),
            {
                proof {
                    assert(field == fields@[it.index() as int]);
                    assert(decreases_to!(value => value->Record_0));
                    assert(decreases_to!(value->Record_0 => value->Record_0@));
                    assert(decreases_to!(fields@ => fields@[it.index() as int]));
                    assert(decreases_to!(field => field.1));
                }
                let (name, part) = field;
                let named = same_text(name.as_str(), "manifest_path") || same_text(
                    name.as_str(),
                    "file_path",
                );
                out.push((name, relocate_value(part, named, from, to)));
            }
            proof {
                let want = relocated_at(value.data(), is_path, from@, to@)->Record_0;
                assert forall|i: int| 0 <= i < out@.len() implies (#[trigger] out@[i]).0@
                    == want[i].0 && out@[i].1.data() == want[i].1 by {
                    assert(all_named_data(fields@)[i] == (fields@[i].0@, fields@[i].1.data()));
                }
                lemma_all_named_data(out@, want);
            }
            AvroValue::Record(out)
        },
        other => other,
    }
}

/// Walks a value and puts `to` in place of every `from` in its path fields,
/// also where a path is optional.
pub fn rewrite_paths(value: &mut AvroValue, from: &str, to: &str)
    ensures
        final(value).data() == relocated(old(value).data(), from@, to@),
{
    let mut taken = AvroValue::Null;
    std::mem::swap(&mut taken, value);
    *value = relocate_value(taken, false, from, to);
}

/// Why an Avro file could not be rewritten.
pub enum AvroRewriteError {
    Read(ContainerError),
    /// It can be read, but the writer cannot be given its schema: there is a
    /// decimal of no bytes in it, or a field with an alias that is the name
    /// of another field of its record.
    Unwritable,
    Write(apache_avro::Error),
}

/// Rewrites the path fields in all records of an Avro file.
pub fn rewrite_avro(data: &[u8], from: &str, to: &str) -> (r: Result<Vec<u8>, AvroRewriteError>)
    ensures
        match r {
            Ok(out) => {
                &&& avro_reading(data@) matches AvroReading::Records(records)
                &&& avro_written(data@, all_relocated(records, from@, to@), out@)
                &&& avro_reading(out@) matches AvroReading::Records(back) ==> back
                    == all_relocated(records, from@, to@)
                &&& is_read_back(data@, all_relocated(records, from@, to@)) ==> avro_reading(out@)
                    == AvroReading::Records(all_relocated(records, from@, to@))
            },
            Err(AvroRewriteError::Read(ContainerError::Unfit)) => !is_readable(data@, false),
            Err(AvroRewriteError::Unwritable) => avro_reading(data@) is Records && !is_readable(
                data@,
                true,
            ),
            Err(AvroRewriteError::Read(ContainerError::Open(_))) => avro_reading(data@)
                == AvroReading::NoContainer,
            Err(AvroRewriteError::Read(ContainerError::Record(_))) => avro_reading(data@)
                == AvroReading::BadRecord,
            Err(AvroRewriteError::Write(_)) => {
                &&& avro_reading(data@) matches AvroReading::Records(records)
                &&& !can_be_written(data@, all_relocated(records, from@, to@))
                &&& !is_written_for_certain(data@, records)
            },
        },
{
    let records = match read_records(data) {
        Ok(records) => records,
        Err(e) => return Err(AvroRewriteError::Read(e)),
    };
    if !test_readable(data, true) {
        return Err(AvroRewriteError::Unwritable);
    }
    let mut out: Vec<AvroValue> = Vec::new();
    for record in it: records
        invariant
            it.seq() == records@,
            out@.len() == it.index(),
            forall|i: int|
                0 <= i < it.index() ==> #[trigger] out@[i].data() == relocated(
                    records@[i].data(),
                    from@,
                    to@,
                ),
    {
        let mut record = record;
        rewrite_paths(&mut record, from, to);
        out.push(record);
    }
    proof {
        let before = all_data(records@);
        let after = all_relocated(before, from@, to@);
        assert forall|i: int| 0 <= i < out@.len() implies #[trigger] out@[i].data()
            == after[i] by {
            assert(before[i] == records@[i].data());
        }
        lemma_all_data(out@, after);
        assert forall|i: int| 0 <= i < before.len() implies same_layout(
            #[trigger] before[i],
            all_data(out@)[i],
        ) by {
            relocation_keeps_the_layout(before[i], false, from@, to@);
        }
        assert(same_layouts(before, all_data(out@)));
        assert forall|i: int| 0 <= i < after.len() implies is_filled(#[trigger] after[i])
            == is_filled(before[i]) by {
            relocation_keeps_what_is_there(before[i], false, from@, to@);
        }
    }
    match write_records(data, out) {
        Ok(bytes) => Ok(bytes),
        Err(e) => Err(AvroRewriteError::Write(e)),
    }
}

// ---------------------------------------------------------------------------
// Downloads that resume
// ---------------------------------------------------------------------------

/// How often a file is asked for before its download is given up. Data files
/// are large, and the store retries only the request itself, not a stream
/// that breaks off.
pub const MAX_DOWNLOAD_ATTEMPTS: u32 = 16;

/// The delay before the first retry, in milliseconds.
pub const INITIAL_BACKOFF_MILLIS: u64 = 500;

/// The delay before a retry, in milliseconds: doubled from one retry to the
/// next, four times at the most.
pub open spec fn backoff_millis(retry_index: nat) -> nat {
    let doublings = if retry_index <= 1 {
        0
    } else if retry_index >= 5 {
        4
    } else {
        (retry_index - 1) as nat
    };
    INITIAL_BACKOFF_MILLIS as nat * pow2(doublings)
}

/// The delay before a retry.
pub fn backoff(retry_index: u32) -> (r: Span)
    ensures
        r@ == backoff_millis(retry_index as nat) * 1_000_000,
{
    let exp: u32 = if retry_index.saturating_sub(1) < 4 {
        retry_index.saturating_sub(1)
    } else {
        4
    };
    let mut factor: u64 = 1;
    let mut i: u32 = 0;
    proof {
        vstd::arithmetic::power2::lemma2_to64();
    }
    while i < exp
        invariant
            i <= exp <= 4,
            factor == pow2(i as nat),
            factor <= 16,
            pow2(4) == 16,
        decreases exp - i,
    {
        proof {
            vstd::arithmetic::power2::lemma_pow2_unfold((i + 1) as nat);
            if i + 1 < 4 {
                vstd::arithmetic::power2::lemma_pow2_strictly_increases((i + 1) as nat, 4);
            }
        }
        factor = factor * 2;
        i += 1;
    }
    Span::from_millis(INITIAL_BACKOFF_MILLIS * factor)
}

/// What a download waits for.
#[derive(Debug, Clone, Copy, PartialEq, Eq, Structural)]
pub enum DownloadPhase {
    /// The answer to a request for the file.
    Opening,
    /// The next piece of the open stream.
    Reading,
    /// Nothing: it has come to its end.
    Over,
}

/// What happens to a download.
pub enum DownloadEvent {
    /// The stream that was asked for is open.
    Opened,
    /// There is no such file, or no longer: asking for it or reading it found
    /// that it is gone.
    NotFound,
    /// The stream could not be opened for another reason.
    OpenFailed,
    /// A piece of the stream has come.
    Chunk(Vec<u8>),
    /// The stream has come to its end.
    Ended,
    /// The stream broke off.
    Broken,
}

/// What is to be done next about a download.
pub enum DownloadStep {
    /// Ask for the file from byte `offset` on, after a delay if there is one.
    Open { offset: u64, delay: Option<Span> },
    /// Wait for the next piece; so many bytes have come so far.
    Read { received: u64 },
    /// All bytes are there.
    Finish,
    /// Report that the file does not exist. It is not asked for again.
    ReportMissing,
    /// Report that the last attempt has failed too, after so many bytes.
    GiveUp { received: u64 },
}

/// A download: the bytes that have come so far, and the attempt it is at.
pub struct Download {
    received: Vec<u8>,
    attempt: u32,
    phase: DownloadPhase,
}

/// A download, for contracts.
#[verifier::ext_equal]
pub struct DownloadState {
    pub received: Seq<u8>,
    pub attempt: nat,
    pub phase: DownloadPhase,
}

/// What happens to a download, for contracts.
pub enum DownloadInput {
    Opened,
    NotFound,
    OpenFailed,
    Chunk(Seq<u8>),
    Ended,
    Broken,
}

/// What is to be done next about a download, for contracts.
pub enum DownloadOutput {
    Open { offset: nat, delay: Option<nat> },
    Read { received: nat },
    Finish,
    ReportMissing,
    GiveUp { received: nat },
}

/// What is reported of a download that was given up after so many bytes.
pub open spec fn give_up_text(received: nat) -> Seq<char> {
    "download failed after "@ + digits(MAX_DOWNLOAD_ATTEMPTS as nat) + " attempts at byte "@
        + digits(received)
}

/// The report of a download that was given up.
pub fn give_up_message(received: u64) -> (r: String)
    ensures
        r@ == give_up_text(received as nat),
{
    let mut out: String = "download failed after ".to_owned();
    push_decimal(&mut out, MAX_DOWNLOAD_ATTEMPTS as u64);
    out.append(" attempts at byte ");
    push_decimal(&mut out, received);
    out
}

impl View for Download {
    type V = DownloadState;

    closed spec fn view(&self) -> DownloadState {
        DownloadState {
            received: self.received@,
            attempt: self.attempt as nat,
            phase: self.phase,
        }
    }
}

impl View for DownloadEvent {
    type V = DownloadInput;

    open spec fn view(&self) -> DownloadInput {
        match *self {
            DownloadEvent::Opened => DownloadInput::Opened,
            DownloadEvent::NotFound => DownloadInput::NotFound,
            DownloadEvent::OpenFailed => DownloadInput::OpenFailed,
            DownloadEvent::Chunk(bytes) => DownloadInput::Chunk(bytes@),
            DownloadEvent::Ended => DownloadInput::Ended,
            DownloadEvent::Broken => DownloadInput::Broken,
        }
    }
}

impl View for DownloadStep {
    type V = DownloadOutput;

    open spec fn view(&self) -> DownloadOutput {
        match *self {
            DownloadStep::Open { offset, delay } => DownloadOutput::Open {
                offset: offset as nat,
                delay: match delay {
                    Some(span) => Some(span@),
                    None => None,
                },
            },
            DownloadStep::Read { received } => DownloadOutput::Read { received: received as nat },
            DownloadStep::Finish => DownloadOutput::Finish,
            DownloadStep::ReportMissing => DownloadOutput::ReportMissing,
            DownloadStep::GiveUp { received } => DownloadOutput::GiveUp {
                received: received as nat,
            },
        }
    }
}

impl DownloadState {
    pub open spec fn start() -> DownloadState {
        DownloadState { received: Seq::empty(), attempt: 1, phase: DownloadPhase::Opening }
    }

    /// Is this what the download waits for?
    pub open spec fn awaits(self, event: DownloadInput) -> bool {
        match event {
            DownloadInput::Opened | DownloadInput::OpenFailed => self.phase
                == DownloadPhase::Opening,
            DownloadInput::NotFound => self.phase != DownloadPhase::Over,
            DownloadInput::Chunk(_)
            | DownloadInput::Ended
            | DownloadInput::Broken => self.phase == DownloadPhase::Reading,
        }
    }

    /// The next attempt, if there is one left: it begins behind the bytes
    /// that have come, after the delay for its number.
    pub open spec fn retried(self) -> (DownloadState, DownloadOutput) {
        if self.attempt < MAX_DOWNLOAD_ATTEMPTS {
            (
                DownloadState {
                    received: self.received,
                    attempt: self.attempt + 1,
                    phase: DownloadPhase::Opening,
                },
                DownloadOutput::Open {
                    offset: self.received.len(),
                    delay: Some(backoff_millis(self.attempt) * 1_000_000),
                },
            )
        } else {
            (
                DownloadState {
                    received: self.received,
                    attempt: self.attempt,
                    phase: DownloadPhase::Over,
                },
                DownloadOutput::GiveUp { received: self.received.len() },
            )
        }
    }

    /// The state after the event, and what is to be done next.
    pub open spec fn next(self, event: DownloadInput) -> (DownloadState, DownloadOutput) {
        match event {
            DownloadInput::Opened => (
                DownloadState {
                    received: self.received,
                    attempt: self.attempt,
                    phase: DownloadPhase::Reading,
                },
                DownloadOutput::Read { received: self.received.len() },
            ),
            DownloadInput::NotFound => (
                DownloadState {
                    received: self.received,
                    attempt: self.attempt,
                    phase: DownloadPhase::Over,
                },
                DownloadOutput::ReportMissing,
            ),
            DownloadInput::Chunk(bytes) => (
                DownloadState {
                    received: self.received + bytes,
                    attempt: self.attempt,
                    phase: DownloadPhase::Reading,
                },
                DownloadOutput::Read { received: self.received.len() + bytes.len() },
            ),
            DownloadInput::Ended => (
                DownloadState {
                    received: self.received,
                    attempt: self.attempt,
                    phase: DownloadPhase::Over,
                },
                DownloadOutput::Finish,
            ),
            DownloadInput::OpenFailed | DownloadInput::Broken => self.retried(),
        }
    }

    /// The state after the events, one after the other, from the start.
    pub open spec fn after(events: Seq<DownloadInput>) -> DownloadState
        decreases events.len(),
    {
        if events.len() == 0 {
            DownloadState::start()
        } else {
            DownloadState::after(events.drop_last()).next(events.last()).0
        }
    }

    /// Did each of the events come when it was waited for?
    pub open spec fn proper(events: Seq<DownloadInput>) -> bool
        decreases events.len(),
    {
        events.len() == 0 || (DownloadState::proper(events.drop_last()) && DownloadState::after(
            events.drop_last(),
        ).awaits(events.last()))
    }
}

impl Download {
    #[verifier::type_invariant]
    spec fn valid(self) -> bool {
        1 <= self.attempt <= MAX_DOWNLOAD_ATTEMPTS
    }

    /// A download at its start, and the first thing to do about it.
    pub fn start() -> (r: (Download, DownloadStep))
        ensures
            r.0@ == DownloadState::start(),
            r.1@ == (DownloadOutput::Open { offset: 0, delay: None }),
    {
        let download = Download {
            received: Vec::new(),
            attempt: 1,
            phase: DownloadPhase::Opening,
        };
        (download, DownloadStep::Open { offset: 0, delay: None })
    }

    /// What the download waits for.
    pub fn phase(&self) -> (r: DownloadPhase)
        ensures
            r == self@.phase,
    {
        self.phase
    }

    /// The bytes that have come so far.
    pub fn into_bytes(self) -> (r: Vec<u8>)
        ensures
            r@ == self@.received,
    {
        self.received
    }

    fn retry(&mut self) -> (r: DownloadStep)
        ensures
            (final(self)@, r@) == old(self)@.retried(),
    {
        proof {
            use_type_invariant(&*self);
        }
        let received: u64 = self.received.len() as u64;
        if self.attempt < MAX_DOWNLOAD_ATTEMPTS {
            let delay = backoff(self.attempt);
            self.attempt = self.attempt + 1;
            self.phase = DownloadPhase::Opening;
            DownloadStep::Open { offset: received, delay: Some(delay) }
        } else {
            self.phase = DownloadPhase::Over;
            DownloadStep::GiveUp { received }
        }
    }

    /// Takes in what happened and says what to do next. A stream that could
    /// not be opened or broke off is asked for again from the first byte that
    /// is missing; a file that does not exist is not.
    pub fn advance(&mut self, event: DownloadEvent) -> (r: DownloadStep)
        requires
            old(self)@.awaits(event@),
        ensures
            (final(self)@, r@) == old(self)@.next(event@),
    {
        proof {
            use_type_invariant(&*self);
        }
        match event {
            DownloadEvent::Opened => {
                self.phase = DownloadPhase::Reading;
                DownloadStep::Read { received: self.received.len() as u64 }
            },
            DownloadEvent::NotFound => {
                self.phase = DownloadPhase::Over;
                DownloadStep::ReportMissing
            },
            DownloadEvent::Chunk(bytes) => {
                let mut received: Vec<u8> = Vec::new();
                std::mem::swap(&mut received, &mut self.received);
                let mut bytes = bytes;
                received.append(&mut bytes);
                self.received = received;
                DownloadStep::Read { received: self.received.len() as u64 }
            },
            DownloadEvent::Ended => {
                self.phase = DownloadPhase::Over;
                DownloadStep::Finish
            },
            DownloadEvent::OpenFailed => self.retry(),
            DownloadEvent::Broken => self.retry(),
        }
    }
}

/// All pieces that came, one behind the other.
pub open spec fn chunks_in(events: Seq<DownloadInput>) -> Seq<u8>
    decreases events.len(),
{
    if events.len() == 0 {
        Seq::empty()
    } else {
        match events.last() {
            DownloadInput::Chunk(bytes) => chunks_in(events.drop_last()) + bytes,
            _ => chunks_in(events.drop_last()),
        }
    }
}

/// How many answers came to a request for the file.
pub open spec fn requests_in(events: Seq<DownloadInput>) -> nat
    decreases events.len(),
{
    if events.len() == 0 {
        0
    } else if DownloadState::after(events.drop_last()).phase == DownloadPhase::Opening {
        requests_in(events.drop_last()) + 1
    } else {
        requests_in(events.drop_last())
    }
}

/// Whatever happens to a download, it holds exactly the pieces that came, in
/// their order: a retry neither loses bytes nor takes any twice.
pub proof fn download_holds_every_piece_once(events: Seq<DownloadInput>)
    ensures
        DownloadState::after(events).received == chunks_in(events),
    decreases events.len(),
{
    if events.len() > 0 {
        download_holds_every_piece_once(events.drop_last());
    }
}

/// The next request after a failure begins at the first byte that is missing.
pub proof fn retry_resumes_behind_what_came(events: Seq<DownloadInput>, failure: DownloadInput)
    requires
        failure is OpenFailed || failure is Broken,
        DownloadState::after(events).attempt < MAX_DOWNLOAD_ATTEMPTS,
    ensures
        DownloadState::after(events).next(failure).1 == (DownloadOutput::Open {
            offset: chunks_in(events).len(),
            delay: Some(backoff_millis(DownloadState::after(events).attempt) * 1_000_000),
        }),
{
    download_holds_every_piece_once(events);
}

/// A file is never asked for more often than the limit says.
pub proof fn requests_are_limited(events: Seq<DownloadInput>)
    requires
        DownloadState::proper(events),
    ensures
        DownloadState::after(events).attempt <= MAX_DOWNLOAD_ATTEMPTS,
        requests_in(events) <= MAX_DOWNLOAD_ATTEMPTS,
        requests_in(events) == if DownloadState::after(events).phase == DownloadPhase::Opening {
            (DownloadState::after(events).attempt - 1) as nat
        } else {
            DownloadState::after(events).attempt
        },
    decreases events.len(),
{
    if events.len() > 0 {
        requests_are_limited(events.drop_last());
    }
}

/// A missing file ends the download at once, whether that shows when it is
/// asked for or while it is read.
pub proof fn missing_file_is_not_retried(state: DownloadState)
    ensures
        state.awaits(DownloadInput::NotFound) <==> state.phase != DownloadPhase::Over,
        state.next(DownloadInput::NotFound).1 == DownloadOutput::ReportMissing,
        state.next(DownloadInput::NotFound).0.phase == DownloadPhase::Over,
        forall|event: DownloadInput| !state.next(DownloadInput::NotFound).0.awaits(event),
{
}

/// The kind of a file is told by the end of its name; all that ends in none
/// of the three ways is of no special kind. Metadata is rewritten on its way,
/// data is not.
pub proof fn kind_is_told_by_the_ending(stem: Seq<char>, path: Seq<char>)
    ensures
        type_of(stem + ".parquet"@) == FileType::Parquet,
        type_of(stem + ".json"@) == FileType::Json,
        type_of(stem + ".avro"@) == FileType::Avro,
        !ends_with(path, ".parquet"@) && !ends_with(path, ".json"@) && !ends_with(path, ".avro"@)
            ==> type_of(path) == FileType::Other,
        !FileType::Parquet.rewritten() && !FileType::Other.rewritten(),
        FileType::Json.rewritten() && FileType::Avro.rewritten(),
{
    reveal_strlit(".parquet");
    reveal_strlit(".json");
    reveal_strlit(".avro");
    let none = Seq::<char>::empty();
    found_text_cuts_in_three(stem, ".parquet"@, none, none);
    found_text_cuts_in_three(stem, ".json"@, none, none);
    found_text_cuts_in_three(stem, ".avro"@, none, none);
    let json = stem + ".json"@;
    let avro = stem + ".avro"@;
    assert(json.last() == 'n' && avro.last() == 'o');
    if ends_with(json, ".parquet"@) {
        assert(json.subrange(json.len() - 8, json.len() as int).last() == json.last());
    }
    if ends_with(avro, ".parquet"@) {
        assert(avro.subrange(avro.len() - 8, avro.len() as int).last() == avro.last());
    }
    if ends_with(avro, ".json"@) {
        assert(avro.subrange(avro.len() - 5, avro.len() as int).last() == avro.last());
    }
}

/// Every kind of file but the plain one is named as its ending is.
pub proof fn kinds_are_named_as_their_endings()
    ensures
        "."@ + name_of_type(FileType::Parquet) == ".parquet"@,
        "."@ + name_of_type(FileType::Json) == ".json"@,
        "."@ + name_of_type(FileType::Avro) == ".avro"@,
        name_of_type(FileType::Other) == "other"@,
{
    reveal_strlit(".");
    reveal_strlit("parquet");
    reveal_strlit("json");
    reveal_strlit("avro");
    reveal_strlit(".parquet");
    reveal_strlit(".json");
    reveal_strlit(".avro");
    assert("."@ + name_of_type(FileType::Parquet) =~= ".parquet"@);
    assert("."@ + name_of_type(FileType::Json) =~= ".json"@);
    assert("."@ + name_of_type(FileType::Avro) =~= ".avro"@);
}

/// A text stays a text when paths are replaced in it, and no other change is
/// made to it.
pub proof fn text_is_rewritten_as_text(text: Seq<char>, from: Seq<char>, to: Seq<char>)
    ensures
        relocated_text(encode_utf8(text), from, to) == encode_utf8(replaced(text, from, to)),
        from.len() > 0 && !occurs_in(text, from) ==> relocated_text(encode_utf8(text), from, to)
            == encode_utf8(text),
{
    vstd::utf8::encode_utf8_decode_utf8(text);
    if from.len() > 0 && !occurs_in(text, from) {
        text_without_a_match_is_unchanged(text, from, to);
    }
}

/// The first retry waits half a second. Each further one waits twice as long
/// as the one before, up to eight seconds, and no longer.
pub proof fn delays_double_up_to_a_limit(retry_index: nat)
    ensures
        retry_index <= 1 ==> backoff_millis(retry_index) == 500,
        1 <= retry_index < 5 ==> backoff_millis(retry_index + 1) == 2 * backoff_millis(retry_index),
        retry_index >= 5 ==> backoff_millis(retry_index) == 8000,
{
    vstd::arithmetic::power2::lemma2_to64();
}

/// What is said of a download that is given up.
pub proof fn giving_up_tells_where(received: nat)
    ensures
        give_up_text(received) == "download failed after 16 attempts at byte "@ + digits(received),
{
    reveal_strlit("download failed after ");
    reveal_strlit(" attempts at byte ");
    reveal_strlit("download failed after 16 attempts at byte ");
    reveal_with_fuel(digits, 2);
    assert(digits(16) =~= seq!['1', '6']);
    assert(give_up_text(received) =~= "download failed after 16 attempts at byte "@ + digits(
        received,
    ));
}

/// How many failures there were, of a request or of an open stream.
pub open spec fn failures_in(events: Seq<DownloadInput>) -> nat
    decreases events.len(),
{
    if events.len() == 0 {
        0
    } else if events.last() is OpenFailed || events.last() is Broken {
        failures_in(events.drop_last()) + 1
    } else {
        failures_in(events.drop_last())
    }
}

proof fn lemma_failures(events: Seq<DownloadInput>)
    requires
        DownloadState::proper(events),
    ensures
        failures_in(events) <= 16,
        failures_in(events) < 16 ==> DownloadState::after(events).attempt == failures_in(events)
            + 1,
        failures_in(events) == 16 ==> DownloadState::after(events).attempt == 16
            && DownloadState::after(events).phase == DownloadPhase::Over,
    decreases events.len(),
{
    if events.len() > 0 {
        lemma_failures(events.drop_last());
    }
}

/// After a failure a download goes on with a new request as long as there
/// were fewer than sixteen failures. At the sixteenth it is given up, and
/// nothing is waited for any more.
pub proof fn sixteenth_failure_is_the_last(events: Seq<DownloadInput>, failure: DownloadInput)
    requires
        DownloadState::proper(events),
        failure is OpenFailed || failure is Broken,
        DownloadState::after(events).awaits(failure),
    ensures
        failures_in(events) < 16,
        failures_in(events) < 15 ==> {
            &&& DownloadState::after(events).next(failure).1 is Open
            &&& DownloadState::after(events).next(failure).0.phase == DownloadPhase::Opening
        },
        failures_in(events) == 15 ==> {
            &&& DownloadState::after(events).next(failure).1 == (DownloadOutput::GiveUp {
                received: chunks_in(events).len(),
            })
            &&& DownloadState::after(events).next(failure).0.phase == DownloadPhase::Over
        },
{
    lemma_failures(events);
    download_holds_every_piece_once(events);
}

/// A stream that is open is read until it ends. The download is then over,
/// and holds all that came.
pub proof fn open_stream_is_read_to_its_end(state: DownloadState, bytes: Seq<u8>)
    ensures
        state.phase == DownloadPhase::Opening ==> state.awaits(DownloadInput::Opened),
        state.next(DownloadInput::Opened).0.phase == DownloadPhase::Reading,
        state.next(DownloadInput::Opened).0.received == state.received,
        state.next(DownloadInput::Opened).1 == (DownloadOutput::Read {
            received: state.received.len(),
        }),
        state.phase == DownloadPhase::Reading ==> state.awaits(DownloadInput::Chunk(bytes))
            && state.awaits(DownloadInput::Ended) && state.awaits(DownloadInput::Broken)
            && state.awaits(DownloadInput::NotFound),
        state.next(DownloadInput::Chunk(bytes)).0.phase == DownloadPhase::Reading,
        state.next(DownloadInput::Chunk(bytes)).1 == (DownloadOutput::Read {
            received: (state.received + bytes).len(),
        }),
        state.next(DownloadInput::Ended).0.phase == DownloadPhase::Over,
        state.next(DownloadInput::Ended).0.received == state.received,
        state.next(DownloadInput::Ended).1 == DownloadOutput::Finish,
        forall|event: DownloadInput|
            state.phase == DownloadPhase::Over ==> !#[trigger] state.awaits(event),
        DownloadState::start().phase == DownloadPhase::Opening,
        DownloadState::start().received.len() == 0,
{
}

} // verus!
