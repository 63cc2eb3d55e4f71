//! The directories of an Iceberg warehouse: keys of objects, names of
//! subdirectories.
use vstd::prelude::*;

use crate::iceberg::ident::{is_uuid, uuid_of};
use crate::order::texts;
use crate::text::{after_last, chars_of, find_tail, tail_start, trim_end, trimmed_len};

verus! {

// ---------------------------------------------------------------------------
// Keys
// ---------------------------------------------------------------------------

/// The key that `object_store` makes of a text.
pub uninterp spec fn object_key(text: Seq<char>) -> Seq<char>;

/// The characters that a key takes as they are.
pub open spec fn is_plain(c: char) -> bool {
    ||| '0' <= c <= '9'
    ||| 'a' <= c <= 'z'
    ||| 'A' <= c <= 'Z'
    ||| c == '-'
    ||| c == '_'
    ||| c == '.'
    ||| c == '='
    ||| c == ':'
    ||| c == '+'
    ||| c == ','
    ||| c == '@'
    ||| c == ' '
}

/// Is the text made of segments of plain characters with single slashes in
/// between, none of them beginning with a dot?
pub open spec fn is_plain_key(text: Seq<char>) -> bool {
    &&& text.len() > 0
    &&& text.last() != '/'
    &&& forall|i: int|
        0 <= i < text.len() ==> {
            &&& is_plain(#[trigger] text[i]) || text[i] == '/'
            &&& i == 0 || text[i - 1] == '/' ==> text[i] != '/' && text[i] != '.'
        }
}

/// Makes an `object_store::path::Path` of the text with `Path::from` and
/// takes its characters. Claimed: the key depends on the text alone, and a
/// plain text is its own key. What becomes of other texts, whose segments are
/// percent-encoded or dropped if empty, is not claimed.
#[verifier::external_body]
fn path_from(text: &str) -> (r: String)
    ensures
        r@ == object_key(text@),
        is_plain_key(text@) ==> r@ == text@,
{
    String::from(object_store::path::Path::from(text))
}

/// The key of an object, from the text of its path.
pub fn object_path(text: &str) -> (r: String)
    ensures
        r@ == object_key(text@),
        is_plain_key(text@) ==> r@ == text@,
{
    path_from(text)
}

/// `a` and `b` with a slash in between.
pub open spec fn joined(a: Seq<char>, b: Seq<char>) -> Seq<char> {
    a + "/"@ + b
}

/// Puts a slash between `a` and `b`.
pub fn join(a: &str, b: &str) -> (r: String)
    ensures
        r@ == joined(a@, b@),
{
    let mut out: String = a.to_owned();
    out.append("/");
    out.append(b);
    out
}

/// The key of the object at `relative` under `prefix`.
pub fn key_under(prefix: &str, relative: &str) -> (r: String)
    ensures
        r@ == object_key(joined(prefix@, relative@)),
        is_plain_key(joined(prefix@, relative@)) ==> r@ == joined(prefix@, relative@),
{
    object_path(join(prefix, relative).as_str())
}

// ---------------------------------------------------------------------------
// Segments
// ---------------------------------------------------------------------------

/// The last segment of a path that is not empty.
pub open spec fn last_part(path: Seq<char>) -> Option<Seq<char>> {
    let p = trim_end(path, '/');
    if p.len() == 0 {
        None
    } else {
        Some(after_last(p, '/'))
    }
}

/// What stands before the last segment that is not empty.
pub open spec fn before_last_part(path: Seq<char>) -> Seq<char> {
    let p = trim_end(path, '/');
    p.take(tail_start(p, '/') as int)
}

/// Where the last segment that is not empty begins and ends.
fn find_last_part(path: &Vec<char>) -> (r: (usize, usize))
    ensures
        r.0 <= r.1 <= path@.len(),
        path@.take(r.1 as int) == trim_end(path@, '/'),
        r.0 == tail_start(trim_end(path@, '/'), '/'),
{
    let end = trimmed_len(path, '/', path.len());
    let start = find_tail(path, '/', end);
    proof {
        assert(path@.take(path@.len() as int) =~= path@);
    }
    (start, end)
}

/// The last segment of a path that is not empty. `None` if there is none:
/// callers decide what to put in its place.
pub fn last_segment<'a>(path: &'a str) -> (r: Option<&'a str>)
    ensures
        match r {
            Some(s) => last_part(path@) == Some(s@),
            None => last_part(path@) is None,
        },
{
    let cs = chars_of(path);
    let (start, end) = find_last_part(&cs);
    if end == 0 {
        return None;
    }
    let r = path.substring_char(start, end);
    proof {
        assert(r@ =~= trim_end(path@, '/').skip(start as int));
    }
    Some(r)
}

/// What stands before the last segment that is not empty.
pub fn without_last_segment<'a>(path: &'a str) -> (r: &'a str)
    ensures
        r@ == before_last_part(path@),
{
    let cs = chars_of(path);
    let (start, end) = find_last_part(&cs);
    let r = path.substring_char(0, start);
    proof {
        assert(r@ =~= trim_end(path@, '/').take(start as int));
    }
    r
}

/// The last segment that is not empty has no slash in it, and slashes behind
/// a path do not change it.
pub proof fn last_part_is_a_name(path: Seq<char>)
    ensures
        last_part(path) matches Some(s) ==> s.len() > 0 && !s.contains('/'),
        last_part(path.push('/')) == last_part(path),
{
    let p = trim_end(path, '/');
    assert(path.push('/').drop_last() =~= path);
    crate::text::lemma_trim_end(path, '/');
    crate::text::lemma_tail_start(p, '/');
    if p.len() > 0 {
        let s = after_last(p, '/');
        assert(p.last() != '/');
        if tail_start(p, '/') == p.len() {
            assert(p[p.len() - 1] == '/');
        }
        if s.contains('/') {
            let i = choose|i: int| 0 <= i < s.len() && s[i] == '/';
            assert(p[tail_start(p, '/') + i] == '/');
        }
    }
}

// ---------------------------------------------------------------------------
// Subdirectories
// ---------------------------------------------------------------------------

/// The names of the subdirectories with these prefixes.
pub open spec fn subdirs_of(prefixes: Seq<Seq<char>>) -> Seq<Seq<char>>
    decreases prefixes.len(),
{
    if prefixes.len() == 0 {
        Seq::empty()
    } else {
        let rest = subdirs_of(prefixes.drop_last());
        match last_part(prefixes.last()) {
            Some(name) => rest.push(name),
            None => rest,
        }
    }
}

/// The names of the subdirectories that a listing found, each by the last
/// segment of its prefix. A prefix that has none is dropped.
pub fn list_subdirs(common_prefixes: &Vec<String>) -> (r: Vec<String>)
    ensures
        texts(r@) == subdirs_of(texts(common_prefixes@)),
{
    let mut out: Vec<String> = Vec::new();
    let ghost all = texts(common_prefixes@);
    let mut i: usize = 0;
    proof {
        assert(all.take(0) =~= Seq::<Seq<char>>::empty());
        assert(texts(out@) =~= Seq::<Seq<char>>::empty());
    }
    while i < common_prefixes.len()
        invariant
            i <= common_prefixes@.len(),
            all == texts(common_prefixes@),
            texts(out@) == subdirs_of(all.take(i as int)),
        decreases common_prefixes@.len() - i,
    {
        proof {
            assert(all.take(i + 1).drop_last() =~= all.take(i as int));
            assert(all.take(i + 1).last() == common_prefixes@[i as int]@);
        }
        match last_segment(common_prefixes[i].as_str()) {
            Some(name) => {
                let ghost before = texts(out@);
                out.push(name.to_owned());
                proof {
                    assert(texts(out@) =~= before.push(name@));
                }
            },
            None => {},
        }
        i += 1;
    }
    proof {
        assert(all.take(i as int) =~= all);
    }
    out
}

/// Those of the names that are UUIDs.
pub open spec fn uuids_among(names: Seq<Seq<char>>) -> Seq<Seq<char>>
    decreases names.len(),
{
    if names.len() == 0 {
        Seq::empty()
    } else {
        let rest = uuids_among(names.drop_last());
        if uuid_of(names.last()) is Some {
            rest.push(names.last())
        } else {
            rest
        }
    }
}

/// Keeps the names that are UUIDs: namespaces and tables. Real buckets also
/// hold logs, notes and half imports.
pub fn keep_uuids(names: Vec<String>) -> (r: Vec<String>)
    ensures
        texts(r@) == uuids_among(texts(names@)),
{
    let mut out: Vec<String> = Vec::new();
    let ghost all = texts(names@);
    let mut i: usize = 0;
    proof {
        assert(all.take(0) =~= Seq::<Seq<char>>::empty());
        assert(texts(out@) =~= Seq::<Seq<char>>::empty());
    }
    while i < names.len()
        invariant
            i <= names@.len(),
            all == texts(names@),
            texts(out@) == uuids_among(all.take(i as int)),
        decreases names@.len() - i,
    {
        proof {
            assert(all.take(i + 1).drop_last() =~= all.take(i as int));
            assert(all.take(i + 1).last() == names@[i as int]@);
        }
        if is_uuid(names[i].as_str()) {
            let ghost before = texts(out@);
            out.push(names[i].clone());
            proof {
                assert(texts(out@) =~= before.push(names@[i as int]@));
            }
        }
        i += 1;
    }
    proof {
        assert(all.take(i as int) =~= all);
    }
    out
}

/// The names of the subdirectories that are UUIDs.
pub fn list_uuids(common_prefixes: &Vec<String>) -> (r: Vec<String>)
    ensures
        texts(r@) == uuids_among(subdirs_of(texts(common_prefixes@))),
{
    keep_uuids(list_subdirs(common_prefixes))
}

/// A name is kept exactly if it is a UUID.
pub proof fn uuids_and_nothing_else_are_kept(names: Seq<Seq<char>>, name: Seq<char>)
    ensures
        uuids_among(names).contains(name) <==> names.contains(name) && uuid_of(name) is Some,
    decreases names.len(),
{
    if names.len() > 0 {
        let init = names.drop_last();
        uuids_and_nothing_else_are_kept(init, name);
        let kept = uuids_among(names);
        let rest = uuids_among(init);
        assert(names =~= init.push(names.last()));
        if names.contains(name) && !init.contains(name) {
            let i = choose|i: int| 0 <= i < names.len() && names[i] == name;
            if i < init.len() {
                assert(init[i] == name);
            }
        }
        if init.contains(name) {
            let i = choose|i: int| 0 <= i < init.len() && init[i] == name;
            assert(names[i] == name);
        }
        if rest.contains(name) {
            let i = choose|i: int| 0 <= i < rest.len() && rest[i] == name;
            assert(kept[i] == name);
        }
        if kept.contains(name) {
            let i = choose|i: int| 0 <= i < kept.len() && kept[i] == name;
            if i < rest.len() {
                assert(rest[i] == name);
            } else {
                assert(names[names.len() - 1] == name);
            }
        }
        if names.last() == name && uuid_of(name) is Some {
            assert(kept[kept.len() - 1] == name);
        }
    }
}

/// A path that is put together from a directory and a name ends with the name,
/// and what stands before it is the directory, also with slashes behind it.
pub proof fn joined_path_ends_with_its_name(dir: Seq<char>, name: Seq<char>, slashes: nat)
    requires
        name.len() > 0,
        !name.contains('/'),
    ensures
        joined(dir, name) == dir + "/"@ + name,
        last_part(joined(dir, name) + crate::text::repeated('/', slashes)) == Some(name),
        before_last_part(joined(dir, name) + crate::text::repeated('/', slashes)) == dir + "/"@,
        last_part(name + crate::text::repeated('/', slashes)) == Some(name),
        before_last_part(name + crate::text::repeated('/', slashes)).len() == 0,
        last_part(crate::text::repeated('/', slashes)) is None,
{
    reveal_strlit("/");
    let p = joined(dir, name);
    let k = (dir.len() + 1) as int;
    assert(name.last() != '/') by {
        assert(name.contains(name[name.len() - 1]));
    }
    assert(p.last() == name.last());
    crate::text::trimming_takes_that_character_alone(p, '/', slashes);
    assert forall|j: int| k <= j < p.len() implies p[j] != '/' by {
        assert(p[j] == name[j - k]);
        assert(name.contains(name[j - k]));
    }
    assert(p[k - 1] == '/');
    crate::text::lemma_tail_start_is(p, '/', k);
    assert(p.skip(k) =~= name);
    assert(p.take(k) =~= dir + "/"@);
    crate::text::trimming_takes_that_character_alone(name, '/', slashes);
    assert forall|j: int| 0 <= j < name.len() implies name[j] != '/' by {
        assert(name.contains(name[j]));
    }
    crate::text::lemma_tail_start_is(name, '/', 0);
    assert(name.skip(0) =~= name);
    crate::text::trimming_takes_that_character_alone(Seq::empty(), '/', slashes);
    assert(Seq::<char>::empty() + crate::text::repeated('/', slashes)
        =~= crate::text::repeated('/', slashes));
}

/// The names of subdirectories come out in the order of the listing, each by
/// the last segment of its prefix.
pub proof fn subdirectories_come_in_order(a: Seq<Seq<char>>, b: Seq<Seq<char>>, prefix: Seq<char>)
    ensures
        subdirs_of(a + b) == subdirs_of(a) + subdirs_of(b),
        subdirs_of(seq![prefix]) == match last_part(prefix) {
            Some(name) => seq![name],
            None => Seq::empty(),
        },
    decreases b.len(),
{
    assert(seq![prefix].drop_last() =~= Seq::<Seq<char>>::empty());
    assert(subdirs_of(seq![prefix].drop_last()) =~= Seq::<Seq<char>>::empty());
    assert(subdirs_of(seq![prefix]) =~= match last_part(prefix) {
        Some(name) => seq![name],
        None => Seq::empty(),
    });
    if b.len() == 0 {
        assert(a + b =~= a);
        assert(subdirs_of(a) + subdirs_of(b) =~= subdirs_of(a));
    } else {
        subdirectories_come_in_order(a, b.drop_last(), prefix);
        assert((a + b).drop_last() =~= a + b.drop_last());
        assert(subdirs_of(a + b) =~= subdirs_of(a) + subdirs_of(b));
    }
}

/// The names that are UUIDs come out in their order, as often as they are
/// there.
pub proof fn uuids_come_in_order(a: Seq<Seq<char>>, b: Seq<Seq<char>>, name: Seq<char>)
    ensures
        uuids_among(a + b) == uuids_among(a) + uuids_among(b),
        uuid_of(name) is Some ==> uuids_among(seq![name]) == seq![name],
        uuid_of(name) is None ==> uuids_among(seq![name]).len() == 0,
    decreases b.len(),
{
    assert(seq![name].drop_last() =~= Seq::<Seq<char>>::empty());
    assert(uuids_among(seq![name].drop_last()) =~= Seq::<Seq<char>>::empty());
    if uuid_of(name) is Some {
        assert(uuids_among(seq![name]) =~= seq![name]);
    }
    if b.len() == 0 {
        assert(a + b =~= a);
        assert(uuids_among(a) + uuids_among(b) =~= uuids_among(a));
    } else {
        uuids_come_in_order(a, b.drop_last(), name);
        assert((a + b).drop_last() =~= a + b.drop_last());
        assert(uuids_among(a + b) =~= uuids_among(a) + uuids_among(b));
    }
}

} // verus!
