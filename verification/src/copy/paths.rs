//! Relative paths below a table, and the absolute paths in its metadata.
use vstd::prelude::*;

use crate::iceberg::layout::joined;
use crate::text::{
    after_last, chars_of, ends_with, has_suffix, occurs_in, repeated, replaced, starts_with,
    strip_front, stripped, tail_of, trim_start, without_leading,
};

verus! {

/// The path below a prefix: without the prefix, if it is there, and without
/// slashes in front.
pub open spec fn relative(path: Seq<char>, prefix: Seq<char>) -> Seq<char> {
    trim_start(
        match stripped(path, prefix) {
            Some(rest) => rest,
            None => path,
        },
        '/',
    )
}

/// The path of an object below a prefix. It never begins with a slash, since
/// it is put behind one.
pub fn relative_under<'a>(path: &'a str, prefix: &str) -> (r: &'a str)
    ensures
        r@ == relative(path@, prefix@),
{
    match strip_front(path, prefix) {
        Some(rest) => without_leading(rest, '/'),
        None => without_leading(path, '/'),
    }
}

/// The path below a table's URL: nothing for the URL itself, and the path as
/// it is if it is not below the URL. The URL may end in a slash.
pub open spec fn url_relative(src_url: Seq<char>, abs: Seq<char>) -> Seq<char> {
    match stripped(abs, src_url + "/"@) {
        Some(rest) => rest,
        None => match stripped(abs, src_url) {
            Some(rest) => if rest.len() == 0 || ends_with(src_url, "/"@) {
                rest
            } else {
                abs
            },
            None => abs,
        },
    }
}

/// The path of a file in the metadata of a table, below the table's URL. A
/// path that is not below it comes back as it is, and is to be copied so.
pub fn strip_url_prefix<'a>(src_url: &str, abs: &'a str) -> (r: &'a str)
    ensures
        r@ == url_relative(src_url@, abs@),
{
    let mut prefix: String = src_url.to_owned();
    prefix.append("/");
    match strip_front(abs, prefix.as_str()) {
        Some(rest) => rest,
        None => match strip_front(abs, src_url) {
            Some(rest) => if chars_of(rest).len() == 0 || has_suffix(src_url, "/") {
                rest
            } else {
                abs
            },
            None => abs,
        },
    }
}

/// A path of which the URL is but the beginning of a longer name is not below
/// the URL, and comes back as it is.
pub proof fn path_beside_a_url_is_unchanged(src_url: Seq<char>, rest: Seq<char>)
    requires
        rest.len() > 0,
        rest[0] != '/',
        !ends_with(src_url, "/"@),
    ensures
        url_relative(src_url, src_url + rest) == src_url + rest,
{
    reveal_strlit("/");
    let abs = src_url + rest;
    let p = src_url + "/"@;
    assert(abs.skip(src_url.len() as int) =~= rest);
    if abs.len() >= p.len() {
        assert(abs[src_url.len() as int] == rest[0]);
        assert(abs.subrange(0, p.len() as int)[src_url.len() as int] != p[src_url.len() as int]);
    }
}

/// What follows the last slash of a path.
pub fn filename_of<'a>(path: &'a str) -> (r: &'a str)
    ensures
        r@ == after_last(path@, '/'),
{
    tail_of(path, '/')
}

/// A path put together from a table's URL and a relative path is taken apart
/// into them again.
pub proof fn joined_url_is_taken_apart(src_url: Seq<char>, rel: Seq<char>)
    ensures
        url_relative(src_url, joined(src_url, rel)) == rel,
{
    let p = src_url + "/"@;
    assert(joined(src_url, rel).subrange(0, p.len() as int) =~= p);
    assert(joined(src_url, rel).skip(p.len() as int) =~= rel);
}

/// A key put together from a prefix and a relative path is taken apart into
/// them again, if the relative path does not begin with a slash.
pub proof fn joined_key_is_taken_apart(prefix: Seq<char>, rel: Seq<char>)
    requires
        rel.len() == 0 || rel[0] != '/',
    ensures
        relative(joined(prefix, rel), prefix) == rel,
{
    reveal_strlit("/");
    let k = joined(prefix, rel);
    assert(k.subrange(0, prefix.len() as int) =~= prefix);
    let rest = k.skip(prefix.len() as int);
    assert(rest[0] == '/');
    assert(rest.skip(1) =~= rel);
    reveal_with_fuel(trim_start, 3);
}

/// A relative path never begins with a slash.
pub proof fn relative_path_has_no_slash_in_front(path: Seq<char>, prefix: Seq<char>)
    ensures
        relative(path, prefix).len() > 0 ==> relative(path, prefix)[0] != '/',
{
    lemma_trim_start(
        match stripped(path, prefix) {
            Some(rest) => rest,
            None => path,
        },
    );
}

proof fn lemma_trim_start(s: Seq<char>)
    ensures
        trim_start(s, '/').len() > 0 ==> trim_start(s, '/')[0] != '/',
    decreases s.len(),
{
    if s.len() > 0 && s[0] == '/' {
        lemma_trim_start(s.skip(1));
    }
}

/// A path below the source URL is moved below the destination URL, and stays
/// the same relative path. Left out are relative paths in which the source
/// URL stands once more: there it is replaced too.
pub proof fn moved_path_keeps_its_relative_path(
    src_url: Seq<char>,
    dst_url: Seq<char>,
    rel: Seq<char>,
)
    requires
        src_url.len() > 0,
        !occurs_in("/"@ + rel, src_url),
    ensures
        replaced(joined(src_url, rel), src_url, dst_url) == joined(dst_url, rel),
        url_relative(dst_url, replaced(joined(src_url, rel), src_url, dst_url)) == rel,
{
    let tail = "/"@ + rel;
    assert(joined(src_url, rel) =~= src_url + tail);
    crate::text::match_in_front_is_replaced(src_url, tail, dst_url);
    crate::text::text_without_a_match_is_unchanged(tail, src_url, dst_url);
    assert(dst_url + tail =~= joined(dst_url, rel));
    joined_url_is_taken_apart(dst_url, rel);
}

/// A path that does not begin with the URL of the table is left alone. The
/// URL itself leads to nothing below it, and behind a URL that ends in a
/// slash the rest is the path.
pub proof fn path_elsewhere_is_unchanged(src_url: Seq<char>, abs: Seq<char>, rest: Seq<char>)
    ensures
        !starts_with(abs, src_url) ==> url_relative(src_url, abs) == abs,
        url_relative(src_url, src_url) == Seq::<char>::empty(),
        rest.len() > 0 && rest[0] != '/' && ends_with(src_url, "/"@) ==> url_relative(
            src_url,
            src_url + rest,
        ) == rest,
{
    reveal_strlit("/");
    let p = src_url + "/"@;
    if starts_with(abs, p) {
        assert(abs.subrange(0, src_url.len() as int) =~= abs.subrange(
            0,
            p.len() as int,
        ).subrange(0, src_url.len() as int));
        assert(p.subrange(0, src_url.len() as int) =~= src_url);
    }
    assert(src_url.subrange(0, src_url.len() as int) =~= src_url);
    assert(src_url.skip(src_url.len() as int) =~= Seq::<char>::empty());
    if rest.len() > 0 && rest[0] != '/' {
        let whole = src_url + rest;
        assert(whole.subrange(0, src_url.len() as int) =~= src_url);
        assert(whole.skip(src_url.len() as int) =~= rest);
        if starts_with(whole, p) {
            assert(whole.subrange(0, p.len() as int)[src_url.len() as int]
                == whole[src_url.len() as int]);
        }
    }
}

/// A key that does not begin with the prefix of the table is taken as it is,
/// but for slashes in front.
pub proof fn key_elsewhere_loses_its_slashes(slashes: nat, key: Seq<char>, prefix: Seq<char>)
    requires
        key.len() == 0 || key[0] != '/',
        !starts_with(repeated('/', slashes) + key, prefix),
    ensures
        relative(repeated('/', slashes) + key, prefix) == key,
{
    lemma_slashes_trimmed(slashes, key);
}

proof fn lemma_slashes_trimmed(slashes: nat, key: Seq<char>)
    requires
        key.len() == 0 || key[0] != '/',
    ensures
        trim_start(repeated('/', slashes) + key, '/') == key,
    decreases slashes,
{
    let s = repeated('/', slashes) + key;
    if slashes > 0 {
        lemma_slashes_trimmed((slashes - 1) as nat, key);
        assert(s.skip(1) =~= repeated('/', (slashes - 1) as nat) + key);
        assert(s[0] == '/');
    } else {
        assert(s =~= key);
    }
}

} // verus!
