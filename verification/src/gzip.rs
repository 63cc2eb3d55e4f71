//! Gzip, as far as metadata files come compressed, and UTF-8.
use vstd::prelude::*;
use vstd::slice::slice_to_vec;
use vstd::utf8::{encode_utf8, valid_utf8};

verus! {

/// An error of `std::io`.
#[verifier::external_type_specification]
#[verifier::external_body]
pub struct ExIoError(std::io::Error);

/// The error of `String::from_utf8`.
#[verifier::external_type_specification]
#[verifier::external_body]
pub struct ExFromUtf8Error(std::string::FromUtf8Error);

/// `String::from_utf8` of the standard library: succeeds on valid UTF-8 and
/// on nothing else, and keeps the bytes.
pub assume_specification[ String::from_utf8 ](bytes: Vec<u8>) -> (r: Result<
    String,
    std::string::FromUtf8Error,
>)
    ensures
        r is Ok <==> valid_utf8(bytes@),
        r matches Ok(s) ==> encode_utf8(s@) == bytes@,
;

/// What the first gzip member in `bytes` decompresses to, if it is intact.
pub uninterp spec fn gunzipped(bytes: Seq<u8>) -> Option<Seq<u8>>;

/// What `data` compresses to at the default level.
pub uninterp spec fn gzipped(data: Seq<u8>) -> Seq<u8>;

/// Reads `flate2::read::GzDecoder` to its end. Claimed: what comes out
/// depends on the bytes alone.
#[verifier::external_body]
fn gz_decode(bytes: &[u8]) -> (r: Result<Vec<u8>, std::io::Error>)
    ensures
        match r {
            Ok(data) => gunzipped(bytes@) == Some(data@),
            Err(_) => gunzipped(bytes@) is None,
        },
{
    let mut data = Vec::new();
    std::io::Read::read_to_end(&mut flate2::read::GzDecoder::new(bytes), &mut data)?;
    Ok(data)
}

/// Writes all of `data` to `flate2::write::GzEncoder` at the default level.
/// Claimed: it does not fail, since it writes into memory; what comes out
/// depends on the data alone, begins with the magic bytes, and decompresses to
/// the data.
#[verifier::external_body]
fn gz_encode(data: &[u8]) -> (r: Result<Vec<u8>, std::io::Error>)
    ensures
        r is Ok,
        r matches Ok(bytes) ==> {
            &&& bytes@ == gzipped(data@)
            &&& is_gzip(bytes@)
            &&& gunzipped(bytes@) == Some(data@)
        },
{
    let level = flate2::Compression::default();
    let mut encoder = flate2::write::GzEncoder::new(Vec::new(), level);
    std::io::Write::write_all(&mut encoder, data)?;
    encoder.finish()
}

/// Do the bytes begin as a gzip file does?
pub open spec fn is_gzip(bytes: Seq<u8>) -> bool {
    bytes.len() >= 2 && bytes[0] == 0x1f && bytes[1] == 0x8b
}

/// Tests for the magic bytes of gzip.
pub fn sniff_gzip(bytes: &[u8]) -> (r: bool)
    ensures
        r == is_gzip(bytes@),
{
    bytes.len() >= 2 && bytes[0] == 0x1f && bytes[1] == 0x8b
}

/// What a file holds once the compression that it shows is undone.
pub open spec fn unpacked(bytes: Seq<u8>) -> Option<Seq<u8>> {
    if is_gzip(bytes) {
        gunzipped(bytes)
    } else {
        Some(bytes)
    }
}

/// Undoes the compression of a file. The bytes tell whether there is one,
/// not the name: some engines write gzip under a plain name.
pub fn unpack(bytes: &[u8]) -> (r: Result<Vec<u8>, std::io::Error>)
    ensures
        match r {
            Ok(data) => unpacked(bytes@) == Some(data@),
            Err(_) => unpacked(bytes@) is None,
        },
{
    if sniff_gzip(bytes) {
        gz_decode(bytes)
    } else {
        Ok(slice_to_vec(bytes))
    }
}

/// What a file is to hold: the data, compressed or not.
pub open spec fn packed(data: Seq<u8>, compress: bool) -> Seq<u8> {
    if compress {
        gzipped(data)
    } else {
        data
    }
}

/// Compresses the data if asked to. What was compressed is recognised and
/// undone by `unpack`; so is what was not, unless the data itself begins as
/// a gzip file does.
pub fn pack(data: Vec<u8>, compress: bool) -> (r: Result<Vec<u8>, std::io::Error>)
    ensures
        r is Ok,
        r matches Ok(bytes) ==> {
            &&& bytes@ == packed(data@, compress)
            &&& is_gzip(bytes@) == (compress || is_gzip(data@))
            &&& compress || !is_gzip(data@) ==> unpacked(bytes@) == Some(data@)
        },
{
    if compress {
        gz_encode(data.as_slice())
    } else {
        Ok(data)
    }
}

/// A gzip file is known by its first two bytes, and by nothing else.
pub proof fn two_bytes_mark_a_gzip_file(a: u8, b: u8, rest: Seq<u8>)
    ensures
        is_gzip(seq![a, b] + rest) <==> a == 0x1f && b == 0x8b,
        !is_gzip(seq![a]),
        !is_gzip(Seq::empty()),
{
    assert((seq![a, b] + rest)[0] == a);
    assert((seq![a, b] + rest)[1] == b);
}

/// A file without the mark holds its own bytes, and one with it what they
/// decompress to. What is not to be compressed stays as it is.
pub proof fn unmarked_files_are_left_alone(bytes: Seq<u8>)
    ensures
        !is_gzip(bytes) ==> unpacked(bytes) == Some(bytes),
        is_gzip(bytes) ==> unpacked(bytes) == gunzipped(bytes),
        packed(bytes, false) == bytes,
        packed(bytes, true) == gzipped(bytes),
{
}

} // verus!
