//! Metadata files: their names, and which of them is the current one.
use vstd::prelude::*;

use crate::iceberg::ident::{read_uuid, uuid_of, uuid_text, written_uuid_is_read_back};
use crate::number::{
    all_digits, digits, is_digit, lemma_digits, padded, parse_unsigned, push_padded, value_of,
};
use crate::order::{before, texts};
use crate::text::{
    after_last, chars_of, cut, cut_at, has_inside, has_prefix, lemma_first_of,
    lemma_tail_start_is, occurs_in, starts_with, tail_of,
};
use crate::iceberg::layout::joined;

verus! {

/// Length of a UUID with hyphens.
pub const UUID_LEN: usize = 36;

/// A metadata file, named `<version>-<uuid>.metadata.json` with a mark for
/// compression before or behind the ending. The UUID has nothing to do with
/// any UUID inside the file.
pub struct MetadataFile {
    pub version: u32,
    pub uuid: u128,
    /// The key of the file.
    pub path: String,
}

/// A metadata file, for contracts.
#[verifier::ext_equal]
pub struct MetadataView {
    pub version: u32,
    pub uuid: u128,
    pub path: Seq<char>,
}

impl View for MetadataFile {
    type V = MetadataView;

    open spec fn view(&self) -> MetadataView {
        MetadataView { version: self.version, uuid: self.uuid, path: self.path@ }
    }
}

/// What a file name says, if it is that of a metadata file: a version of five
/// digits, a UUID behind a hyphen, and an ending that begins with a dot
/// and has `.metadata.json` in it. The compression mark may stand anywhere.
pub open spec fn named_metadata(path: Seq<char>) -> Option<MetadataView> {
    match cut(after_last(path, '/'), '-') {
        Some((version, rest)) => {
            let ending = rest.skip(UUID_LEN as int);
            if version.len() == 5 && all_digits(version) && rest.len() >= UUID_LEN && uuid_of(
                rest.take(UUID_LEN as int),
            ) is Some && starts_with(ending, "."@) && occurs_in(ending, ".metadata.json"@) {
                Some(
                    MetadataView {
                        version: value_of(version) as u32,
                        uuid: uuid_of(rest.take(UUID_LEN as int))->0,
                        path,
                    },
                )
            } else {
                None
            }
        },
        None => None,
    }
}

/// Five digits make a number that fits.
proof fn lemma_five_digits(s: Seq<char>)
    requires
        s.len() == 5,
    ensures
        all_digits(s) ==> value_of(s) <= 99999,
{
    if all_digits(s) {
        let s4 = s.drop_last();
        let s3 = s4.drop_last();
        let s2 = s3.drop_last();
        let s1 = s2.drop_last();
        assert(value_of(s1.drop_last()) == 0);
        assert(is_digit(s[0]) && is_digit(s[1]) && is_digit(s[2]) && is_digit(s[3]));
        assert(is_digit(s[4]));
        assert(value_of(s1) <= 9);
        assert(value_of(s2) <= 99);
        assert(value_of(s3) <= 999);
        assert(value_of(s4) <= 9999);
    }
}

/// The view of a metadata file, if there is one.
pub open spec fn view_of(file: Option<MetadataFile>) -> Option<MetadataView> {
    match file {
        Some(file) => Some(file@),
        None => None,
    }
}

impl MetadataFile {
    /// Reads the name of a file. `None` for any other name: the directory
    /// also holds manifest lists, manifests, statistics and hints.
    pub fn parse(path: &str) -> (r: Option<MetadataFile>)
        ensures
            view_of(r) == named_metadata(path@),
    {
        let filename = tail_of(path, '/');
        let (version_text, rest) = match cut_at(filename, '-') {
            Some(parts) => parts,
            None => return None,
        };
        let version_chars = chars_of(version_text);
        if version_chars.len() != 5 || version_chars[0] == '+' {
            return None;
        }
        proof {
            lemma_five_digits(version_text@);
        }
        let version: u32 = match parse_unsigned(version_text) {
            Some(version) => version,
            None => return None,
        };
        let len: usize = chars_of(rest).len();
        if len < UUID_LEN {
            return None;
        }
        let uuid_part = rest.substring_char(0, UUID_LEN);
        let ending = rest.substring_char(UUID_LEN, len);
        proof {
            assert(uuid_part@ =~= rest@.take(UUID_LEN as int));
            assert(ending@ =~= rest@.skip(UUID_LEN as int));
        }
        let uuid: u128 = match read_uuid(uuid_part) {
            Some(uuid) => uuid,
            None => return None,
        };
        if !has_prefix(ending, ".") || !has_inside(ending, ".metadata.json") {
            return None;
        }
        Some(MetadataFile { version, uuid, path: path.to_owned() })
    }

    /// The name of the file without its directory.
    pub fn filename(&self) -> (r: &str)
        ensures
            r@ == after_last(self@.path, '/'),
    {
        tail_of(self.path.as_str(), '/')
    }

    /// Another copy of the descriptor.
    pub fn duplicate(&self) -> (r: MetadataFile)
        ensures
            r@ == self@,
    {
        MetadataFile { version: self.version, uuid: self.uuid, path: self.path.clone() }
    }
}

// ---------------------------------------------------------------------------
// The current metadata file
// ---------------------------------------------------------------------------

/// Does the file name begin with a digit?
pub open spec fn begins_with_digit(path: Seq<char>) -> bool {
    let name = after_last(path, '/');
    name.len() > 0 && '0' <= name[0] <= '9'
}

/// The better one of the best file so far and the one with this path: the
/// one with the higher version, the earlier one if they have the same.
pub open spec fn better(best: Option<MetadataView>, path: Seq<char>) -> Option<MetadataView> {
    match (best, named_metadata(path)) {
        (Some(b), Some(m)) => if m.version > b.version {
            Some(m)
        } else {
            Some(b)
        },
        (Some(b), None) => Some(b),
        (None, m) => m,
    }
}

/// The best of the files, looked at in order up to the first whose name does
/// not begin with a digit.
pub open spec fn best_from(best: Option<MetadataView>, paths: Seq<Seq<char>>) -> Option<
    MetadataView,
>
    decreases paths.len(),
{
    if paths.len() == 0 || !begins_with_digit(paths[0]) {
        best
    } else {
        best_from(better(best, paths[0]), paths.skip(1))
    }
}

/// The search for the current metadata file along a listing.
pub struct LatestScan {
    latest: Option<MetadataFile>,
}

impl View for LatestScan {
    type V = Option<MetadataView>;

    closed spec fn view(&self) -> Option<MetadataView> {
        view_of(self.latest)
    }
}

impl LatestScan {
    pub fn new() -> (r: LatestScan)
        ensures
            r@ is None,
    {
        LatestScan { latest: None }
    }

    /// Looks at the next object of the listing. `false` if no metadata file
    /// can follow: a listing is in order, metadata files begin with digits,
    /// and a long-lived table has a great many other files behind them. A
    /// name with a digit in front that is no metadata file is no reason to
    /// stop: manifests stand in between.
    pub fn offer(&mut self, path: &str) -> (r: bool)
        ensures
            r == begins_with_digit(path@),
            final(self)@ == if r {
                better(old(self)@, path@)
            } else {
                old(self)@
            },
    {
        let name = chars_of(tail_of(path, '/'));
        if name.len() == 0 || name[0] < '0' || name[0] > '9' {
            return false;
        }
        match MetadataFile::parse(path) {
            Some(candidate) => {
                let higher = match &self.latest {
                    Some(best) => candidate.version > best.version,
                    None => true,
                };
                if higher {
                    self.latest = Some(candidate);
                }
            },
            None => {},
        }
        true
    }

    /// The best file of those that were looked at.
    pub fn finish(self) -> (r: Option<MetadataFile>)
        ensures
            view_of(r) == self@,
    {
        self.latest
    }
}

/// The current metadata file among the objects of a listing.
pub fn find_latest(paths: &Vec<String>) -> (r: Option<MetadataFile>)
    ensures
        view_of(r) == best_from(None, texts(paths@)),
{
    let mut scan = LatestScan::new();
    let ghost all = texts(paths@);
    let mut i: usize = 0;
    proof {
        assert(all.skip(0) =~= all);
    }
    while i < paths.len()
        invariant
            i <= paths@.len(),
            all == texts(paths@),
            best_from(None, all) == best_from(scan@, all.skip(i as int)),
        decreases paths@.len() - i,
    {
        proof {
            assert(all.skip(i as int)[0] == paths@[i as int]@);
            assert(all.skip(i as int).skip(1) =~= all.skip(i + 1));
        }
        if !scan.offer(paths[i].as_str()) {
            return scan.finish();
        }
        i += 1;
    }
    scan.finish()
}

proof fn lemma_named_begins(path: Seq<char>)
    requires
        named_metadata(path) is Some,
    ensures
        after_last(path, '/').len() > 0,
        is_digit(after_last(path, '/')[0]),
{
    let name = after_last(path, '/');
    lemma_first_of(name, '-');
    let (version, rest) = cut(name, '-')->0;
    assert(version[0] == name[0]);
    assert(is_digit(version[0]));
}

/// In a directory whose names are listed in order, none of them before the
/// digits, the search finds a file with the highest version of all, although
/// it does not look at every file.
pub proof fn latest_file_has_the_highest_version(dir: Seq<char>, names: Seq<Seq<char>>)
    requires
        forall|i: int|
            0 <= i < names.len() ==> (#[trigger] names[i]).len() > 0 && names[i][0] >= '0'
                && !names[i].contains('/'),
        forall|i: int, j: int|
            0 <= i < j < names.len() ==> !before(#[trigger] names[j], #[trigger] names[i]),
    ensures
        ({
            let paths = names.map_values(|name: Seq<char>| joined(dir, name));
            match best_from(None, paths) {
                Some(best) => {
                    &&& exists|i: int| 0 <= i < paths.len() && named_metadata(paths[i]) == Some(best)
                    &&& forall|i: int|
                        0 <= i < paths.len() ==> (named_metadata(#[trigger] paths[i]) matches Some(
                            m,
                        ) ==> m.version <= best.version)
                },
                None => forall|i: int|
                    0 <= i < paths.len() ==> named_metadata(#[trigger] paths[i]) is None,
            }
        }),
{
    let paths = names.map_values(|name: Seq<char>| joined(dir, name));
    assert forall|i: int| 0 <= i < paths.len() implies after_last(#[trigger] paths[i], '/')
        == names[i] by {
        lemma_name_in(dir, names[i]);
    }
    lemma_best_from(None, names, paths);
}

proof fn lemma_name_in(dir: Seq<char>, name: Seq<char>)
    requires
        !name.contains('/'),
    ensures
        after_last(joined(dir, name), '/') == name,
{
    reveal_strlit("/");
    let p = joined(dir, name);
    let k = dir.len() + 1;
    assert forall|j: int| k <= j < p.len() implies p[j] != '/' by {
        assert(p[j] == name[j - k]);
        assert(name.contains(name[j - k]));
    }
    assert(p[k - 1] == '/');
    lemma_tail_start_is(p, '/', k as int);
    assert(p.skip(k as int) =~= name);
}

/// What comes out of the search, from any point of it.
proof fn lemma_best_from(
    best: Option<MetadataView>,
    names: Seq<Seq<char>>,
    paths: Seq<Seq<char>>,
)
    requires
        names.len() == paths.len(),
        forall|i: int| 0 <= i < paths.len() ==> after_last(#[trigger] paths[i], '/') == names[i],
        forall|i: int|
            0 <= i < names.len() ==> (#[trigger] names[i]).len() > 0 && names[i][0] >= '0',
        forall|i: int, j: int|
            0 <= i < j < names.len() ==> !before(#[trigger] names[j], #[trigger] names[i]),
    ensures
        match best_from(best, paths) {
            Some(r) => {
                &&& best == Some(r) || exists|i: int|
                    0 <= i < paths.len() && named_metadata(#[trigger] paths[i]) == Some(r)
                &&& best matches Some(b) ==> b.version <= r.version
                &&& forall|i: int|
                    0 <= i < paths.len() ==> (named_metadata(#[trigger] paths[i]) matches Some(m)
                        ==> m.version <= r.version)
            },
            None => best is None && forall|i: int|
                0 <= i < paths.len() ==> named_metadata(#[trigger] paths[i]) is None,
        },
    decreases paths.len(),
{
    if paths.len() > 0 {
        if begins_with_digit(paths[0]) {
            let next = better(best, paths[0]);
            let rest_names = names.skip(1);
            let rest = paths.skip(1);
            assert forall|i: int| 0 <= i < rest.len() implies after_last(#[trigger] rest[i], '/')
                == rest_names[i] by {
                assert(rest[i] == paths[i + 1]);
            }
            assert forall|i: int| 0 <= i < rest_names.len() implies (#[trigger] rest_names[i]).len()
                > 0 && rest_names[i][0] >= '0' by {
                assert(rest_names[i] == names[i + 1]);
            }
            assert forall|i: int, j: int| 0 <= i < j < rest_names.len() implies !before(
                #[trigger] rest_names[j],
                #[trigger] rest_names[i],
            ) by {
                assert(rest_names[i] == names[i + 1]);
                assert(rest_names[j] == names[j + 1]);
            }
            lemma_best_from(next, rest_names, rest);
            let r = best_from(best, paths);
            assert(r == best_from(next, rest));
            assert forall|i: int| 0 <= i < paths.len() implies match r {
                Some(r) => named_metadata(#[trigger] paths[i]) matches Some(m) ==> m.version
                    <= r.version,
                None => named_metadata(paths[i]) is None,
            } by {
                if i > 0 {
                    assert(rest[i - 1] == paths[i]);
                }
            }
            if r is Some && next != r {
                let i = choose|i: int|
                    0 <= i < rest.len() && named_metadata(#[trigger] rest[i]) == r;
                assert(named_metadata(paths[i + 1]) == r);
            }
            if r is Some && next == r && best != r {
                assert(named_metadata(paths[0]) == r);
            }
        } else {
            assert forall|i: int| 0 <= i < paths.len() implies named_metadata(
                #[trigger] paths[i],
            ) is None by {
                if named_metadata(paths[i]) is Some {
                    lemma_named_begins(paths[i]);
                    assert(names[i][0] <= '9');
                    assert(after_last(paths[0], '/') == names[0]);
                    assert(names[0][0] > '9');
                    if i > 0 {
                        assert(before(names[i], names[0]));
                    }
                }
            }
        }
    }
}

// ---------------------------------------------------------------------------
// Names of metadata files
// ---------------------------------------------------------------------------

/// Is this one of the endings of a metadata file: plain, or with the mark for
/// compression before or behind it?
pub open spec fn is_metadata_ending(ending: Seq<char>) -> bool {
    ||| ending == ".metadata.json"@
    ||| ending == ".gz.metadata.json"@
    ||| ending == ".metadata.json.gz"@
}

/// The number that five digits make.
pub open spec fn number_of_five(v: Seq<char>) -> int {
    10000 * (v[0] as int - '0' as int) + 1000 * (v[1] as int - '0' as int) + 100 * (v[2] as int
        - '0' as int) + 10 * (v[3] as int - '0' as int) + (v[4] as int - '0' as int)
}

/// The number of five digits is what they are read as.
proof fn lemma_number_of_five(v: Seq<char>)
    requires
        v.len() == 5,
        forall|i: int| 0 <= i < 5 ==> '0' <= #[trigger] v[i] <= '9',
    ensures
        all_digits(v),
        value_of(v) == number_of_five(v),
        0 <= number_of_five(v) <= 99999,
{
    let v4 = v.drop_last();
    let v3 = v4.drop_last();
    let v2 = v3.drop_last();
    let v1 = v2.drop_last();
    assert(value_of(v1.drop_last()) == 0);
    assert('0' <= v[0] <= '9' && '0' <= v[1] <= '9' && '0' <= v[2] <= '9');
    assert('0' <= v[3] <= '9' && '0' <= v[4] <= '9');
    assert(value_of(v1) == v[0] as nat - '0' as nat);
    assert(value_of(v2) == 10 * value_of(v1) + (v[1] as nat - '0' as nat));
    assert(value_of(v3) == 10 * value_of(v2) + (v[2] as nat - '0' as nat));
    assert(value_of(v4) == 10 * value_of(v3) + (v[3] as nat - '0' as nat));
    assert(value_of(v) == 10 * value_of(v4) + (v[4] as nat - '0' as nat));
}

proof fn lemma_ending(ending: Seq<char>)
    requires
        is_metadata_ending(ending),
    ensures
        starts_with(ending, "."@),
        occurs_in(ending, ".metadata.json"@),
        !ending.contains('/'),
{
    reveal_strlit(".");
    reveal_strlit(".metadata.json");
    reveal_strlit(".gz.metadata.json");
    reveal_strlit(".metadata.json.gz");
    assert(ending.subrange(0, 1) =~= "."@);
    if ending == ".gz.metadata.json"@ {
        assert(ending.subrange(3, 17) =~= ".metadata.json"@);
        assert(crate::text::occurs_at(ending, ".metadata.json"@, 3));
    } else {
        assert(ending.subrange(0, 14) =~= ".metadata.json"@);
        assert(crate::text::occurs_at(ending, ".metadata.json"@, 0));
    }
}

proof fn lemma_uuid_has_no_slash(uuid: u128)
    ensures
        uuid_text(uuid).len() == UUID_LEN,
        !uuid_text(uuid).contains('/'),
{
    written_uuid_is_read_back(uuid);
    let d = crate::iceberg::ident::hex_text(uuid as nat, 32);
    let s = uuid_text(uuid);
    reveal_strlit("-");
    lemma_hex_is_no_slash(uuid as nat, 32);
    assert(s.len() == 36);
    if s.contains('/') {
        let i = choose|i: int| 0 <= i < s.len() && s[i] == '/';
        let k = if i < 8 {
            i
        } else if i < 13 {
            i - 1
        } else if i < 18 {
            i - 2
        } else if i < 23 {
            i - 3
        } else {
            i - 4
        };
        assert(s[i] == '-' || s[i] == d[k]);
    }
}

proof fn lemma_hex_is_no_slash(n: nat, width: nat)
    ensures
        crate::iceberg::ident::hex_text(n, width).len() == width,
        forall|i: int|
            0 <= i < width ==> #[trigger] crate::iceberg::ident::hex_text(n, width)[i] != '/',
    decreases width,
{
    if width > 0 {
        lemma_hex_is_no_slash(n / 16, (width - 1) as nat);
    }
}

proof fn lemma_recognised_parts(
    path: Seq<char>,
    version: Seq<char>,
    written: Seq<char>,
    ending: Seq<char>,
)
    requires
        version.len() == 5,
        forall|i: int| 0 <= i < 5 ==> '0' <= #[trigger] version[i] <= '9',
        written.len() == UUID_LEN,
        uuid_of(written) is Some,
        starts_with(ending, "."@),
        occurs_in(ending, ".metadata.json"@),
        after_last(path, '/') == version + "-"@ + written + ending,
    ensures
        named_metadata(path) == Some(
            MetadataView { version: value_of(version) as u32, uuid: uuid_of(written)->0, path },
        ),
{
    reveal_strlit("-");
    let name = after_last(path, '/');
    let rest = name.skip(6);
    assert(cut(name, '-') == Some((version, rest))) by {
        assert forall|j: int| 0 <= j < 5 implies name[j] != '-' by {
            assert(name[j] == version[j]);
        }
        assert(name[5] == '-');
        crate::text::lemma_first_of_is(name, '-', 5);
        assert(name.take(5) =~= version);
    }
    assert(rest.take(UUID_LEN as int) =~= written);
    assert(rest.skip(UUID_LEN as int) =~= ending);
}

proof fn lemma_recognised(path: Seq<char>, version: Seq<char>, uuid: u128, ending: Seq<char>)
    requires
        version.len() == 5,
        forall|i: int| 0 <= i < 5 ==> '0' <= #[trigger] version[i] <= '9',
        is_metadata_ending(ending),
        after_last(path, '/') == version + "-"@ + uuid_text(uuid) + ending,
    ensures
        named_metadata(path) == Some(
            MetadataView { version: number_of_five(version) as u32, uuid, path },
        ),
{
    lemma_number_of_five(version);
    lemma_ending(ending);
    lemma_uuid_has_no_slash(uuid);
    written_uuid_is_read_back(uuid);
    lemma_recognised_parts(path, version, uuid_text(uuid), ending);
}

/// Every file whose name is made of five digits, a hyphen, a UUID and one of
/// the endings is recognised, in whatever directory, with the number that the
/// digits make and with that UUID.
pub proof fn metadata_names_are_recognised(
    dir: Seq<char>,
    version: Seq<char>,
    uuid: u128,
    ending: Seq<char>,
)
    requires
        version.len() == 5,
        forall|i: int| 0 <= i < 5 ==> '0' <= #[trigger] version[i] <= '9',
        is_metadata_ending(ending),
    ensures
        ({
            let name = version + "-"@ + uuid_text(uuid) + ending;
            let path = dir + "/"@ + name;
            &&& 0 <= number_of_five(version) <= 99999
            &&& named_metadata(path) == Some(
                MetadataView { version: number_of_five(version) as u32, uuid, path },
            )
            &&& named_metadata(name) == Some(
                MetadataView { version: number_of_five(version) as u32, uuid, path: name },
            )
        }),
{
    reveal_strlit("-");
    let name = version + "-"@ + uuid_text(uuid) + ending;
    lemma_number_of_five(version);
    lemma_ending(ending);
    lemma_uuid_has_no_slash(uuid);
    assert forall|i: int| 0 <= i < name.len() implies name[i] != '/' by {
        if i < 5 {
            assert(name[i] == version[i]);
        } else if i == 5 {
        } else if i < 42 {
            assert(name[i] == uuid_text(uuid)[i - 6]);
            assert(uuid_text(uuid).contains(uuid_text(uuid)[i - 6]));
        } else {
            assert(name[i] == ending[i - 42]);
            assert(ending.contains(ending[i - 42]));
        }
    }
    assert(!name.contains('/'));
    lemma_name_in(dir, name);
    lemma_tail_start_is(name, '/', 0);
    assert(name.skip(0) =~= name);
    lemma_recognised(dir + "/"@ + name, version, uuid, ending);
    lemma_recognised(name, version, uuid, ending);
}

/// The version as it is written in the name of a metadata file, and read back
/// from it.
pub proof fn written_version_is_recognised(dir: Seq<char>, n: nat, uuid: u128, ending: Seq<char>)
    requires
        n <= 99999,
        is_metadata_ending(ending),
    ensures
        ({
            let path = dir + "/"@ + (padded(n, 5) + "-"@ + uuid_text(uuid) + ending);
            named_metadata(path) == Some(MetadataView { version: n as u32, uuid, path })
        }),
{
    let v = padded(n, 5);
    crate::number::written_number_is_read_back(n as u32, 5);
    lemma_digits(n);
    lemma_few_digits(n);
    assert(v.len() == 5);
    assert forall|i: int| 0 <= i < 5 implies '0' <= #[trigger] v[i] <= '9' by {
        if i >= 5 - digits(n).len() {
            assert(is_digit(digits(n)[i - (5 - digits(n).len())]));
        }
    }
    lemma_number_of_five(v);
    metadata_names_are_recognised(dir, v, uuid, ending);
}

proof fn lemma_few_digits(n: nat)
    requires
        n <= 99999,
    ensures
        digits(n).len() <= 5,
{
    reveal_with_fuel(digits, 5);
}

/// What is recognised has such a name: five digits in front, which make the
/// version, a hyphen, a UUID, and an ending with `.metadata.json` in it. The
/// path is kept as it is.
pub proof fn recognised_files_have_metadata_names(path: Seq<char>)
    requires
        named_metadata(path) is Some,
    ensures
        ({
            let name = after_last(path, '/');
            let file = named_metadata(path)->0;
            &&& file.path == path
            &&& name.len() >= 42 + 14
            &&& forall|i: int| 0 <= i < 5 ==> '0' <= #[trigger] name[i] <= '9'
            &&& file.version == number_of_five(name.take(5))
            &&& name[5] == '-'
            &&& uuid_of(name.subrange(6, 42)) == Some(file.uuid)
            &&& name[42] == '.'
            &&& exists|k: int|
                42 <= k && k + 14 <= name.len() && #[trigger] name.subrange(k, k + 14)
                    == ".metadata.json"@
        }),
{
    reveal_strlit(".");
    reveal_strlit(".metadata.json");
    let name = after_last(path, '/');
    lemma_first_of(name, '-');
    let (version, rest) = cut(name, '-')->0;
    let ending = rest.skip(UUID_LEN as int);
    assert(name.take(5) =~= version);
    assert forall|i: int| 0 <= i < 5 implies '0' <= #[trigger] version[i] <= '9' by {
        assert(is_digit(version[i]));
    }
    assert forall|i: int| 0 <= i < 5 implies '0' <= #[trigger] name[i] <= '9' by {
        assert(version[i] == name[i]);
    }
    lemma_number_of_five(version);
    assert(name.subrange(6, 42) =~= rest.take(UUID_LEN as int));
    let k = choose|k: int| crate::text::occurs_at(ending, ".metadata.json"@, k);
    assert(name.subrange(42 + k, 42 + k + 14) =~= ending.subrange(k, k + 14));
    assert(ending.subrange(0, 1)[0] == '.');
}

/// In a directory whose names are listed in order, none of them before the
/// digits, a file with a metadata name is never passed over for one of a lower
/// version, and what is found is one of the listed files.
pub proof fn latest_file_is_not_passed_over(
    dir: Seq<char>,
    names: Seq<Seq<char>>,
    i: int,
    version: Seq<char>,
    uuid: u128,
    ending: Seq<char>,
)
    requires
        forall|k: int|
            0 <= k < names.len() ==> (#[trigger] names[k]).len() > 0 && names[k][0] >= '0'
                && !names[k].contains('/'),
        forall|k: int, j: int|
            0 <= k < j < names.len() ==> !before(#[trigger] names[j], #[trigger] names[k]),
        0 <= i < names.len(),
        version.len() == 5,
        forall|k: int| 0 <= k < 5 ==> '0' <= #[trigger] version[k] <= '9',
        is_metadata_ending(ending),
        names[i] == version + "-"@ + uuid_text(uuid) + ending,
    ensures
        ({
            let paths = names.map_values(|name: Seq<char>| dir + "/"@ + name);
            &&& best_from(None, paths) matches Some(best)
            &&& best.version >= number_of_five(version)
            &&& paths.contains(best.path)
            &&& best.version == number_of_five(after_last(best.path, '/').take(5))
        }),
{
    let paths = names.map_values(|name: Seq<char>| dir + "/"@ + name);
    assert(paths =~= names.map_values(|name: Seq<char>| joined(dir, name)));
    latest_file_has_the_highest_version(dir, names);
    metadata_names_are_recognised(dir, version, uuid, ending);
    assert(paths[i] == dir + "/"@ + names[i]);
    assert(named_metadata(paths[i]) is Some);
    let best = best_from(None, paths)->0;
    let k = choose|k: int| 0 <= k < paths.len() && named_metadata(paths[k]) == Some(best);
    recognised_files_have_metadata_names(paths[k]);
    assert(paths[k] == best.path);
}

/// Of several files with the highest version the first is found.
pub proof fn earlier_file_of_a_version_is_found(paths: Seq<Seq<char>>)
    ensures
        best_from(None, paths) matches Some(best) ==> exists|i: int|
            0 <= i < paths.len() && named_metadata(#[trigger] paths[i]) == Some(best) && forall|
                j: int,
            |
                0 <= j < i ==> (named_metadata(#[trigger] paths[j]) matches Some(m) ==> m.version
                    < best.version),
{
    lemma_first_of_best(None, paths);
}

proof fn lemma_first_of_best(best: Option<MetadataView>, paths: Seq<Seq<char>>)
    ensures
        best_from(best, paths) matches Some(r) ==> {
            ||| best == Some(r)
            ||| (best matches Some(b) ==> b.version < r.version) && exists|i: int|
                0 <= i < paths.len() && named_metadata(#[trigger] paths[i]) == Some(r) && forall|
                    j: int,
                |
                    0 <= j < i ==> (named_metadata(#[trigger] paths[j]) matches Some(m)
                        ==> m.version < r.version)
        },
    decreases paths.len(),
{
    if paths.len() > 0 && begins_with_digit(paths[0]) {
        let next = better(best, paths[0]);
        let rest = paths.skip(1);
        lemma_first_of_best(next, rest);
        if best_from(best, paths) is Some {
            let r = best_from(best, paths)->0;
            if next == Some(r) {
                if best != Some(r) {
                    assert(named_metadata(paths[0]) == Some(r));
                }
            } else {
                let i = choose|i: int|
                    0 <= i < rest.len() && named_metadata(#[trigger] rest[i]) == Some(r) && forall|
                        j: int,
                    |
                        0 <= j < i ==> (named_metadata(#[trigger] rest[j]) matches Some(m)
                            ==> m.version < r.version);
                assert(paths[i + 1] == rest[i]);
                assert forall|j: int| 0 <= j < i + 1 implies (named_metadata(
                    #[trigger] paths[j],
                ) matches Some(m) ==> m.version < r.version) by {
                    if j > 0 {
                        assert(rest[j - 1] == paths[j]);
                    }
                }
            }
        }
    }
}

// ---------------------------------------------------------------------------
// A given version
// ---------------------------------------------------------------------------

/// How to come by the metadata file to copy.
pub enum MetadataChoice {
    /// It is the current one.
    Latest,
    /// Look for this version.
    Search(u32),
}

/// Decides which metadata file to copy. The current one is known already, so
/// only another version has to be looked for.
pub fn pick_metadata(version: Option<u32>, latest: &MetadataFile) -> (r: MetadataChoice)
    ensures
        r == match version {
            Some(v) => if v == latest@.version {
                MetadataChoice::Latest
            } else {
                MetadataChoice::Search(v)
            },
            None => MetadataChoice::Latest,
        },
{
    match version {
        None => MetadataChoice::Latest,
        Some(v) => if v == latest.version {
            MetadataChoice::Latest
        } else {
            MetadataChoice::Search(v)
        },
    }
}

/// The first of the files that has the version.
pub open spec fn first_with_version(paths: Seq<Seq<char>>, version: u32) -> Option<MetadataView>
    decreases paths.len(),
{
    if paths.len() == 0 {
        None
    } else {
        match named_metadata(paths[0]) {
            Some(m) => if m.version == version {
                Some(m)
            } else {
                first_with_version(paths.skip(1), version)
            },
            None => first_with_version(paths.skip(1), version),
        }
    }
}

/// The search for a version finds the first file that has it, and nothing
/// only if none has.
pub proof fn version_is_found_if_it_is_there(paths: Seq<Seq<char>>, version: u32)
    ensures
        match first_with_version(paths, version) {
            Some(m) => m.version == version && exists|i: int|
                0 <= i < paths.len() && named_metadata(#[trigger] paths[i]) == Some(m) && forall|
                    j: int,
                |
                    0 <= j < i ==> (named_metadata(#[trigger] paths[j]) matches Some(other)
                        ==> other.version != version),
            None => forall|i: int|
                0 <= i < paths.len() ==> (named_metadata(#[trigger] paths[i]) matches Some(other)
                    ==> other.version != version),
        },
    decreases paths.len(),
{
    if paths.len() > 0 {
        let rest = paths.skip(1);
        let here = named_metadata(paths[0]);
        if !(here matches Some(m) && m.version == version) {
            version_is_found_if_it_is_there(rest, version);
            match first_with_version(rest, version) {
                Some(m) => {
                    let i = choose|i: int|
                        0 <= i < rest.len() && named_metadata(#[trigger] rest[i]) == Some(m)
                            && forall|j: int|
                            0 <= j < i ==> (named_metadata(#[trigger] rest[j]) matches Some(other)
                                ==> other.version != version);
                    assert(paths[i + 1] == rest[i]);
                    assert forall|j: int| 0 <= j < i + 1 implies (named_metadata(
                        #[trigger] paths[j],
                    ) matches Some(other) ==> other.version != version) by {
                        if j > 0 {
                            assert(rest[j - 1] == paths[j]);
                        }
                    }
                },
                None => {
                    assert forall|i: int| 0 <= i < paths.len() implies (named_metadata(
                        #[trigger] paths[i],
                    ) matches Some(other) ==> other.version != version) by {
                        if i > 0 {
                            assert(rest[i - 1] == paths[i]);
                        }
                    }
                },
            }
        }
    }
}

/// Is the object the metadata file with the version?
pub fn match_version(path: &str, version: u32) -> (r: Option<MetadataFile>)
    ensures
        view_of(r) == match named_metadata(path@) {
            Some(m) => if m.version == version {
                Some(m)
            } else {
                None
            },
            None => None,
        },
{
    match MetadataFile::parse(path) {
        Some(m) => if m.version == version {
            Some(m)
        } else {
            None
        },
        None => None,
    }
}

/// The metadata file with the version among the objects of a listing.
pub fn find_specific_version(paths: &Vec<String>, version: u32) -> (r: Option<MetadataFile>)
    ensures
        view_of(r) == first_with_version(texts(paths@), version),
{
    let ghost all = texts(paths@);
    let mut i: usize = 0;
    proof {
        assert(all.skip(0) =~= all);
    }
    while i < paths.len()
        invariant
            i <= paths@.len(),
            all == texts(paths@),
            first_with_version(all, version) == first_with_version(all.skip(i as int), version),
        decreases paths@.len() - i,
    {
        proof {
            assert(all.skip(i as int)[0] == paths@[i as int]@);
            assert(all.skip(i as int).skip(1) =~= all.skip(i + 1));
        }
        match match_version(paths[i].as_str(), version) {
            Some(m) => {
                return Some(m);
            },
            None => {},
        }
        i += 1;
    }
    None
}

/// The message when a version cannot be found.
pub fn version_not_found(version: u32, metadata_prefix: &str) -> (r: String)
    ensures
        r@ == "metadata version "@ + crate::number::padded(version as nat, 5)
            + " not found under "@ + metadata_prefix@,
{
    let mut out: String = "metadata version ".to_owned();
    push_padded(&mut out, version as u64, 5);
    out.append(" not found under ");
    out.append(metadata_prefix);
    out
}

/// A file that was found is seen with its version, its UUID and its path.
pub proof fn found_file_is_seen_as_it_is(file: MetadataFile)
    ensures
        view_of(None) is None,
        view_of(Some(file)) == Some(
            MetadataView { version: file.version, uuid: file.uuid, path: file.path@ },
        ),
{
}

} // verus!
