//! From manifest lists to manifests to data files.
//!
//! Absolute paths stand at every level: a manifest list names manifests in
//! its `manifest_path` fields, a manifest names data and delete files in its
//! `file_path` fields.
use vstd::prelude::*;

use crate::iceberg::avro::{
    all_data, all_well_keyed, avro_reading, read_records, AvroReading, AvroValue, ContainerError,
};
use crate::iceberg::container::is_readable;
use crate::iceberg::layout::{object_key, object_path};
use crate::names::{deduped, deduped_names_are_the_same_names, groups_add_up, with_names, NameSet};
use crate::order::texts;
use crate::s3_url::{after_scheme, no_other_scheme_is_taken, schemes_are_alike, strip_scheme};
use crate::text::{
    cut, cut_at, cut_is_at_the_first, found_text_cuts_in_three, joined_parts_are_cut_apart, same_text,
    starts_with,
};

verus! {

/// All files that manifest lists refer to.
pub struct ManifestTree {
    /// Absolute paths of the manifests.
    pub manifest_files: Vec<String>,
    /// Absolute paths of the data and delete files in the manifests.
    pub content_files: Vec<String>,
}

/// Progress of a walk: so many of so many files have been read.
#[derive(Debug, Clone, Copy, PartialEq, Eq, Structural)]
pub enum WalkEvent {
    ManifestList { done: usize, total: usize },
    Manifest { done: usize, total: usize },
}

/// The key in an absolute path: what follows the bucket.
pub open spec fn key_of_url(url: Seq<char>) -> Option<Seq<char>> {
    match after_scheme(url) {
        Some(rest) => match cut(rest, '/') {
            Some((bucket, key)) => Some(key),
            None => None,
        },
        None => None,
    }
}

/// The key in an absolute path. `None` if it is no URL with a bucket and a
/// key: callers may then take it for a key itself.
pub fn strip_s3_prefix<'a>(url: &'a str) -> (r: Option<&'a str>)
    ensures
        match r {
            Some(key) => key_of_url(url@) == Some(key@),
            None => key_of_url(url@) is None,
        },
{
    match strip_scheme(url) {
        Some(rest) => match cut_at(rest, '/') {
            Some((_, key)) => Some(key),
            None => None,
        },
        None => None,
    }
}

// ---------------------------------------------------------------------------
// Texts in named fields
// ---------------------------------------------------------------------------

/// The text in a field, which may be wrapped as optional.
pub open spec fn field_text(value: AvroValue) -> Seq<Seq<char>> {
    match value {
        AvroValue::Text(s) => seq![s@],
        AvroValue::Union(_, inner) => match *inner {
            AvroValue::Text(s) => seq![s@],
            _ => Seq::empty(),
        },
        _ => Seq::empty(),
    }
}

/// The texts in all fields with the name, at any depth, in order. A field
/// with the name is not looked into for more.
pub open spec fn named_texts(value: AvroValue, name: Seq<char>) -> Seq<Seq<char>>
    decreases value,
{
    match value {
        AvroValue::Record(fields) => texts_in_fields(fields@, name),
        AvroValue::Union(_, inner) => named_texts(*inner, name),
        AvroValue::Array(items) => texts_in_items(items@, name),
        AvroValue::Dictionary(pairs) => texts_in_pairs(pairs@, name),
        _ => Seq::empty(),
    }
}

pub open spec fn texts_in_fields(fields: Seq<(String, AvroValue)>, name: Seq<char>) -> Seq<
    Seq<char>,
>
    decreases fields,
{
    if fields.len() == 0 {
        Seq::empty()
    } else {
        let i = fields.len() - 1;
        texts_in_fields(fields.subrange(0, i), name) + if fields[i].0@ == name {
            field_text(fields[i].1)
        } else {
            named_texts(fields[i].1, name)
        }
    }
}

pub open spec fn texts_in_items(items: Seq<AvroValue>, name: Seq<char>) -> Seq<Seq<char>>
    decreases items,
{
    if items.len() == 0 {
        Seq::empty()
    } else {
        let i = items.len() - 1;
        texts_in_items(items.subrange(0, i), name) + named_texts(items[i], name)
    }
}

pub open spec fn texts_in_pairs(pairs: Seq<(String, AvroValue)>, name: Seq<char>) -> Seq<Seq<char>>
    decreases pairs,
{
    if pairs.len() == 0 {
        Seq::empty()
    } else {
        let i = pairs.len() - 1;
        texts_in_pairs(pairs.subrange(0, i), name) + named_texts(pairs[i].1, name)
    }
}

/// Peels one layer of an optional value.
fn unwrap_union(value: &AvroValue) -> (r: &AvroValue)
    ensures
        *r == match *value {
            AvroValue::Union(_, inner) => *inner,
            other => other,
        },
{
    match value {
        AvroValue::Union(_, inner) => inner,
        other => other,
    }
}

/// Appends the texts in all fields with the name to `out`.
pub fn collect_named(value: &AvroValue, target_name: &str, out: &mut Vec<String>)
    ensures
        texts(final(out)@) == texts(old(out)@) + named_texts(*value, target_name@),
    decreases *value,
{
    let ghost start = texts(out@);
    match value {
        AvroValue::Record(fields) => {
            let mut i: usize = 0;
            proof {
                assert(fields@.subrange(0, 0) =~= Seq::<(String, AvroValue)>::empty());
                assert(start + texts_in_fields(fields@.subrange(0, 0), target_name@) =~= start);
            }
            while i < fields.len()
                invariant
                    i <= fields@.len(),
                    *value == AvroValue::Record(*fields),
                    texts(out@) == start + texts_in_fields(
                        fields@.subrange(0, i as int),
                        target_name@,
                    ),
                decreases fields@.len() - i,
            {
                let ghost at = texts(out@);
                proof {
                    assert(fields@.subrange(0, i + 1).subrange(0, i as int) =~= fields@.subrange(
                        0,
                        i as int,
                    ));
                    assert(decreases_to!(*value => value->Record_0));
                    assert(decreases_to!(value->Record_0 => value->Record_0@));
                    assert(decreases_to!(fields@ => fields@[i as int]));
                    assert(decreases_to!(fields@[i as int] => fields@[i as int].1));
                }
                if same_text(fields[i].0.as_str(), target_name) {
                    match unwrap_union(&fields[i].1) {
                        AvroValue::Text(s) => {
                            out.push(s.clone());
                            proof {
                                assert(texts(out@) =~= at + seq![s@]);
                            }
                        },
                        _ => {},
                    }
                    proof {
                        assert(texts(out@) =~= at + field_text(fields@[i as int].1));
                    }
                } else {
                    collect_named(&fields[i].1, target_name, out);
                }
                proof {
                    assert(texts(out@) =~= start + texts_in_fields(
                        fields@.subrange(0, i + 1),
                        target_name@,
                    ));
                }
                i += 1;
            }
            proof {
                assert(fields@.subrange(0, i as int) =~= fields@);
            }
        },
        AvroValue::Union(_, inner) => {
            collect_named(inner, target_name, out);
        },
        AvroValue::Array(items) => {
            let mut i: usize = 0;
            proof {
                assert(items@.subrange(0, 0) =~= Seq::<AvroValue>::empty());
                assert(start + texts_in_items(items@.subrange(0, 0), target_name@) =~= start);
            }
            while i < items.len()
                invariant
                    i <= items@.len(),
                    *value == AvroValue::Array(*items),
                    texts(out@) == start + texts_in_items(
                        items@.subrange(0, i as int),
                        target_name@,
                    ),
                decreases items@.len() - i,
            {
                proof {
                    assert(items@.subrange(0, i + 1).subrange(0, i as int) =~= items@.subrange(
                        0,
                        i as int,
                    ));
                    assert(decreases_to!(*value => value->Array_0));
                    assert(decreases_to!(value->Array_0 => value->Array_0@));
                    assert(decreases_to!(items@ => items@[i as int]));
                }
                collect_named(&items[i], target_name, out);
                proof {
                    assert(texts(out@) =~= start + texts_in_items(
                        items@.subrange(0, i + 1),
                        target_name@,
                    ));
                }
                i += 1;
            }
            proof {
                assert(items@.subrange(0, i as int) =~= items@);
            }
        },
        AvroValue::Dictionary(pairs) => {
            let mut i: usize = 0;
            proof {
                assert(pairs@.subrange(0, 0) =~= Seq::<(String, AvroValue)>::empty());
                assert(start + texts_in_pairs(pairs@.subrange(0, 0), target_name@) =~= start);
            }
            while i < pairs.len()
                invariant
                    i <= pairs@.len(),
                    *value == AvroValue::Dictionary(*pairs),
                    texts(out@) == start + texts_in_pairs(
                        pairs@.subrange(0, i as int),
                        target_name@,
                    ),
                decreases pairs@.len() - i,
            {
                proof {
                    assert(pairs@.subrange(0, i + 1).subrange(0, i as int) =~= pairs@.subrange(
                        0,
                        i as int,
                    ));
                    assert(decreases_to!(*value => value->Dictionary_0));
                    assert(decreases_to!(value->Dictionary_0 => value->Dictionary_0@));
                    assert(decreases_to!(pairs@ => pairs@[i as int]));
                    assert(decreases_to!(pairs@[i as int] => pairs@[i as int].1));
                }
                collect_named(&pairs[i].1, target_name, out);
                proof {
                    assert(texts(out@) =~= start + texts_in_pairs(
                        pairs@.subrange(0, i + 1),
                        target_name@,
                    ));
                }
                i += 1;
            }
            proof {
                assert(pairs@.subrange(0, i as int) =~= pairs@);
            }
        },
        _ => {
            proof {
                assert(start + named_texts(*value, target_name@) =~= start);
            }
        },
    }
}

// ---------------------------------------------------------------------------
// The paths in a file
// ---------------------------------------------------------------------------

/// Are these the texts in the fields with the name, over all records that
/// the file holds? Records come in order, and so do the texts in them, but
/// for those below a dictionary, which has no order.
pub open spec fn texts_of_file(bytes: Seq<u8>, name: Seq<char>, found: Seq<Seq<char>>) -> bool {
    exists|records: Seq<AvroValue>|
        avro_reading(bytes) == AvroReading::Records(#[trigger] all_data(records))
            && all_well_keyed(records) && found == texts_in_items(records, name)
}

fn extract_named(bytes: &[u8], name: &str) -> (r: Result<Vec<String>, ContainerError>)
    ensures
        match r {
            Ok(found) => texts_of_file(bytes@, name@, texts(found@)),
            Err(ContainerError::Unfit) => !is_readable(bytes@, false),
            Err(ContainerError::Open(_)) => avro_reading(bytes@) == AvroReading::NoContainer,
            Err(ContainerError::Record(_)) => avro_reading(bytes@) == AvroReading::BadRecord,
        },
{
    let records = match read_records(bytes) {
        Ok(records) => records,
        Err(e) => return Err(e),
    };
    let mut out: Vec<String> = Vec::new();
    let mut i: usize = 0;
    proof {
        assert(records@.subrange(0, 0) =~= Seq::<AvroValue>::empty());
        assert(texts(out@) =~= Seq::<Seq<char>>::empty());
    }
    while i < records.len()
        invariant
            i <= records@.len(),
            texts(out@) == texts_in_items(records@.subrange(0, i as int), name@),
        decreases records@.len() - i,
    {
        proof {
            assert(records@.subrange(0, i + 1).subrange(0, i as int) =~= records@.subrange(
                0,
                i as int,
            ));
        }
        collect_named(&records[i], name, &mut out);
        i += 1;
    }
    proof {
        assert(records@.subrange(0, i as int) =~= records@);
        assert(avro_reading(bytes@) == AvroReading::Records(all_data(records@)));
    }
    Ok(out)
}

/// The paths of the manifests that a manifest list names.
pub fn extract_manifest_paths(bytes: &[u8]) -> (r: Result<Vec<String>, ContainerError>)
    ensures
        match r {
            Ok(found) => texts_of_file(bytes@, "manifest_path"@, texts(found@)),
            Err(ContainerError::Unfit) => !is_readable(bytes@, false),
            Err(ContainerError::Open(_)) => avro_reading(bytes@) == AvroReading::NoContainer,
            Err(ContainerError::Record(_)) => avro_reading(bytes@) == AvroReading::BadRecord,
        },
{
    extract_named(bytes, "manifest_path")
}

/// The paths of the data and delete files that a manifest names.
pub fn extract_file_paths(bytes: &[u8]) -> (r: Result<Vec<String>, ContainerError>)
    ensures
        match r {
            Ok(found) => texts_of_file(bytes@, "file_path"@, texts(found@)),
            Err(ContainerError::Unfit) => !is_readable(bytes@, false),
            Err(ContainerError::Open(_)) => avro_reading(bytes@) == AvroReading::NoContainer,
            Err(ContainerError::Record(_)) => avro_reading(bytes@) == AvroReading::BadRecord,
        },
{
    extract_named(bytes, "file_path")
}

// ---------------------------------------------------------------------------
// The walk
// ---------------------------------------------------------------------------

/// The key under which a manifest is read.
pub fn manifest_key(abs: &str) -> (r: String)
    ensures
        r@ == object_key(
            match key_of_url(abs@) {
                Some(key) => key,
                None => abs@,
            },
        ),
{
    match strip_s3_prefix(abs) {
        Some(key) => object_path(key),
        None => object_path(abs),
    }
}

/// The first half of a walk: reading manifest lists. In a table with a long
/// history most snapshots refer to the same manifests, so what the lists say
/// is put together before any manifest is read.
pub struct ListWalk {
    total: usize,
    done: usize,
    manifests: NameSet,
}

/// The second half of a walk: reading each manifest once.
pub struct ManifestWalk {
    manifests: NameSet,
    done: usize,
    content: NameSet,
}

/// How far the first half has come.
#[verifier::ext_equal]
pub struct ListWalkView {
    /// How many lists there are.
    pub total: nat,
    /// How many of them have been read or given up.
    pub done: nat,
    /// The manifests that they named, each once.
    pub manifests: Seq<Seq<char>>,
}

/// How far the second half has come.
#[verifier::ext_equal]
pub struct ManifestWalkView {
    /// The manifests to read.
    pub manifests: Seq<Seq<char>>,
    /// How many of them have been read or given up.
    pub done: nat,
    /// The files that they named, each once.
    pub content: Seq<Seq<char>>,
}

/// The paths that a file named; none if it could not be read.
pub open spec fn named_by(paths: Option<Vec<String>>) -> Seq<Seq<char>> {
    match paths {
        Some(paths) => texts(paths@),
        None => Seq::empty(),
    }
}

impl View for ListWalk {
    type V = ListWalkView;

    closed spec fn view(&self) -> ListWalkView {
        ListWalkView {
            total: self.total as nat,
            done: self.done as nat,
            manifests: self.manifests@,
        }
    }
}

impl View for ManifestWalk {
    type V = ManifestWalkView;

    closed spec fn view(&self) -> ManifestWalkView {
        ManifestWalkView {
            manifests: self.manifests@,
            done: self.done as nat,
            content: self.content@,
        }
    }
}

impl ListWalk {
    /// The start of a walk over so many manifest lists.
    pub fn new(total: usize) -> (r: ListWalk)
        ensures
            r@ == (ListWalkView { total: total as nat, done: 0, manifests: Seq::empty() }),
    {
        ListWalk { total, done: 0, manifests: NameSet::new() }
    }

    /// Takes in what a list said, or that it could not be read: then its
    /// files are left for the next run. Lists may come in any order.
    pub fn take(&mut self, paths: Option<Vec<String>>) -> (r: WalkEvent)
        requires
            old(self)@.done < old(self)@.total,
        ensures
            final(self)@ == (ListWalkView {
                total: old(self)@.total,
                done: old(self)@.done + 1,
                manifests: with_names(old(self)@.manifests, named_by(paths)),
            }),
            r matches WalkEvent::ManifestList { done, total } && done as nat == final(self)@.done
                && total as nat == final(self)@.total,
    {
        match &paths {
            Some(paths) => {
                self.manifests.insert_all(paths);
            },
            None => {},
        }
        self.done = self.done + 1;
        WalkEvent::ManifestList { done: self.done, total: self.total }
    }

    /// Goes on to the manifests.
    pub fn finish(self) -> (r: ManifestWalk)
        ensures
            r@ == (ManifestWalkView {
                manifests: self@.manifests,
                done: 0,
                content: Seq::empty(),
            }),
    {
        ManifestWalk { manifests: self.manifests, done: 0, content: NameSet::new() }
    }
}

impl ManifestWalk {
    /// The manifests to read.
    pub fn manifests(&self) -> (r: &Vec<String>)
        ensures
            texts(r@) == self@.manifests,
            texts(r@).no_duplicates(),
    {
        self.manifests.names()
    }

    /// Takes in what a manifest said, or that it could not be read.
    pub fn take(&mut self, paths: Option<Vec<String>>) -> (r: WalkEvent)
        requires
            old(self)@.done < old(self)@.manifests.len(),
        ensures
            final(self)@ == (ManifestWalkView {
                manifests: old(self)@.manifests,
                done: old(self)@.done + 1,
                content: with_names(old(self)@.content, named_by(paths)),
            }),
            r matches WalkEvent::Manifest { done, total } && done as nat == final(self)@.done
                && total as nat == final(self)@.manifests.len(),
    {
        let total: usize = self.manifests.len();
        match &paths {
            Some(paths) => {
                self.content.insert_all(paths);
            },
            None => {},
        }
        self.done = self.done + 1;
        WalkEvent::Manifest { done: self.done, total }
    }

    /// All that was found.
    pub fn finish(self) -> (r: ManifestTree)
        ensures
            texts(r.manifest_files@) == self@.manifests,
            texts(r.content_files@) == self@.content,
            texts(r.manifest_files@).no_duplicates(),
            texts(r.content_files@).no_duplicates(),
    {
        ManifestTree {
            manifest_files: self.manifests.into_names(),
            content_files: self.content.into_names(),
        }
    }
}

/// All paths that the files named, one file after the other.
pub open spec fn named_by_all(files: Seq<Option<Vec<String>>>) -> Seq<Seq<char>>
    decreases files.len(),
{
    if files.len() == 0 {
        Seq::empty()
    } else {
        named_by_all(files.drop_last()) + named_by(files.last())
    }
}

/// The names that half a walk knows after it has taken in the files.
pub open spec fn names_after(files: Seq<Option<Vec<String>>>) -> Seq<Seq<char>>
    decreases files.len(),
{
    if files.len() == 0 {
        Seq::empty()
    } else {
        with_names(names_after(files.drop_last()), named_by(files.last()))
    }
}

/// In whatever order the files come, a walk keeps each path that any readable
/// one of them names, and none of them twice: each manifest of the lists, and
/// then each data or delete file of the manifests.
pub proof fn every_named_file_is_kept_once(files: Seq<Option<Vec<String>>>)
    ensures
        names_after(files) == deduped(named_by_all(files)),
        names_after(files).no_duplicates(),
        forall|path: Seq<char>| #[trigger]
            names_after(files).contains(path) <==> exists|i: int|
                0 <= i < files.len() && named_by(#[trigger] files[i]).contains(path),
{
    lemma_names_after(files);
    deduped_names_are_the_same_names(named_by_all(files));
    assert forall|path: Seq<char>| #[trigger]
        names_after(files).contains(path) <==> exists|i: int|
            0 <= i < files.len() && named_by(#[trigger] files[i]).contains(path) by {
        lemma_named_by_all(files, path);
    }
}

proof fn lemma_names_after(files: Seq<Option<Vec<String>>>)
    ensures
        names_after(files) == deduped(named_by_all(files)),
    decreases files.len(),
{
    if files.len() > 0 {
        lemma_names_after(files.drop_last());
        groups_add_up(named_by_all(files.drop_last()), named_by(files.last()));
    }
}

proof fn lemma_named_by_all(files: Seq<Option<Vec<String>>>, path: Seq<char>)
    ensures
        named_by_all(files).contains(path) <==> exists|i: int|
            0 <= i < files.len() && named_by(#[trigger] files[i]).contains(path),
    decreases files.len(),
{
    if files.len() > 0 {
        let init = files.drop_last();
        let a = named_by_all(init);
        let b = named_by(files.last());
        lemma_named_by_all(init, path);
        if a.contains(path) {
            let i = choose|i: int| 0 <= i < init.len() && named_by(#[trigger] init[i]).contains(path);
            assert(named_by(files[i]).contains(path));
            let j = choose|j: int| 0 <= j < a.len() && a[j] == path;
            assert((a + b)[j] == path);
        }
        if b.contains(path) {
            assert(named_by(files[files.len() - 1]).contains(path));
            let j = choose|j: int| 0 <= j < b.len() && b[j] == path;
            assert((a + b)[a.len() + j] == path);
        }
        if (a + b).contains(path) {
            let j = choose|j: int| 0 <= j < (a + b).len() && (a + b)[j] == path;
            if j < a.len() {
                assert(a[j] == path);
            } else {
                assert(b[j - a.len()] == path);
            }
        }
        if exists|i: int| 0 <= i < files.len() && named_by(#[trigger] files[i]).contains(path) {
            let i = choose|i: int|
                0 <= i < files.len() && named_by(#[trigger] files[i]).contains(path);
            if i < init.len() {
                assert(named_by(init[i]).contains(path));
            }
        }
    }
}

/// The key in a URL is all that follows the bucket, under either scheme. What
/// is no such URL, or names a bucket alone, has no key.
pub proof fn key_follows_the_bucket(bucket: Seq<char>, key: Seq<char>, url: Seq<char>)
    requires
        !bucket.contains('/'),
    ensures
        key_of_url("s3://"@ + (bucket.push('/') + key)) == Some(key),
        key_of_url("s3a://"@ + (bucket.push('/') + key)) == Some(key),
        key_of_url("s3://"@ + bucket) is None,
        key_of_url("s3a://"@ + bucket) is None,
        !starts_with(url, "s3://"@) && !starts_with(url, "s3a://"@) ==> key_of_url(url) is None,
{
    schemes_are_alike(bucket.push('/') + key);
    schemes_are_alike(bucket);
    joined_parts_are_cut_apart(bucket, '/', key);
    cut_is_at_the_first(bucket, '/');
    if cut(bucket, '/') is Some {
        let (a, b) = cut(bucket, '/')->0;
        assert(bucket[a.len() as int] == '/');
    }
    no_other_scheme_is_taken(url);
    if after_scheme(url) is Some {
        let rest = after_scheme(url)->0;
        found_text_cuts_in_three(Seq::empty(), "s3://"@, rest, url);
        found_text_cuts_in_three(Seq::empty(), "s3a://"@, rest, url);
    }
}

/// Only a text says anything, by itself or as the value of an option.
pub proof fn texts_alone_are_named(value: AvroValue, text: Seq<char>)
    ensures
        field_text(value).contains(text) <==> (value matches AvroValue::Text(s) && s@ == text) || (
        value matches AvroValue::Union(_, inner) && (*inner matches AvroValue::Text(s) && s@
            == text)),
        field_text(value).len() <= 1,
{
    match value {
        AvroValue::Text(s) => {
            assert(field_text(value)[0] == s@);
        },
        AvroValue::Union(_, inner) => match *inner {
            AvroValue::Text(s) => {
                assert(field_text(value)[0] == s@);
            },
            _ => {},
        },
        _ => {},
    }
}

/// A file that could be read names the paths that were found in it, as they
/// stand and in their order; one that could not names none.
pub proof fn read_file_names_its_paths(paths: Vec<String>)
    ensures
        named_by(None) == Seq::<Seq<char>>::empty(),
        named_by(Some(paths)).len() == paths@.len(),
        forall|i: int| 0 <= i < paths@.len() ==> #[trigger] named_by(Some(paths))[i] == paths@[i]@,
{
}

} // verus!
