//! URLs of the form `s3://bucket/prefix`.
use vstd::prelude::*;

use crate::text::{
    cut, cut_at, first_of, lemma_first_of, lemma_first_of_is, starts_with, strip_front, stripped,
    trim_end, without_trailing,
};

verus! {

/// A prefix inside a bucket.
pub struct S3Location {
    pub bucket: String,
    /// The key prefix within the bucket, without slashes at its end.
    pub prefix: String,
}

/// Why a URL was rejected.
#[derive(Debug)]
pub enum S3UrlError {
    MissingScheme(String),
    MissingPath(String),
}

/// What follows `s3://` or `s3a://` in a URL.
pub open spec fn after_scheme(url: Seq<char>) -> Option<Seq<char>> {
    match stripped(url, "s3://"@) {
        Some(rest) => Some(rest),
        None => stripped(url, "s3a://"@),
    }
}

/// The two schemes are the same to us.
pub proof fn schemes_are_alike(rest: Seq<char>)
    ensures
        after_scheme("s3://"@ + rest) == Some(rest),
        after_scheme("s3a://"@ + rest) == Some(rest),
{
    reveal_strlit("s3://");
    reveal_strlit("s3a://");
    let plain = "s3://"@ + rest;
    assert(plain.subrange(0, 5) =~= "s3://"@);
    assert(plain.skip(5) =~= rest);
    let hadoop = "s3a://"@ + rest;
    assert(hadoop.subrange(0, 6) =~= "s3a://"@);
    assert(hadoop.skip(6) =~= rest);
    if starts_with(hadoop, "s3://"@) {
        assert(hadoop.subrange(0, 5)[2] == "s3://"@[2]);
        assert(hadoop[2] == 'a');
    }
}

/// A slash at the end of a URL changes neither the bucket nor the prefix.
pub proof fn trailing_slash_does_not_matter(rest: Seq<char>)
    requires
        cut(rest, '/') is Some,
    ensures
        ({
            let (bucket, path) = cut(rest, '/')->0;
            cut(rest.push('/'), '/') matches Some((b, p)) && b == bucket && trim_end(p, '/')
                == trim_end(path, '/')
        }),
{
    let i = first_of(rest, '/') as int;
    let longer = rest.push('/');
    lemma_first_of(rest, '/');
    assert forall|j: int| 0 <= j < i implies longer[j] != '/' by {
        assert(longer[j] == rest[j]);
    }
    lemma_first_of_is(longer, '/', i);
    let (bucket, path) = cut(rest, '/')->0;
    assert(longer.take(i) =~= bucket);
    assert(longer.skip(i + 1) =~= path.push('/'));
    assert(path.push('/').drop_last() =~= path);
}

/// What follows `s3://` or `s3a://` in a URL.
pub fn strip_scheme<'a>(url: &'a str) -> (r: Option<&'a str>)
    ensures
        match r {
            Some(rest) => after_scheme(url@) == Some(rest@),
            None => after_scheme(url@) is None,
        },
{
    match strip_front(url, "s3://") {
        Some(rest) => Some(rest),
        None => strip_front(url, "s3a://"),
    }
}

impl S3UrlError {
    pub fn message(&self) -> (r: String)
        ensures
            r@ == match *self {
                S3UrlError::MissingScheme(url) => "URL must start with s3:// or s3a://: "@ + url@,
                S3UrlError::MissingPath(url) => "URL must contain a path after bucket: "@ + url@,
            },
    {
        match self {
            S3UrlError::MissingScheme(url) => {
                let mut out: String = "URL must start with s3:// or s3a://: ".to_owned();
                out.append(url.as_str());
                out
            },
            S3UrlError::MissingPath(url) => {
                let mut out: String = "URL must contain a path after bucket: ".to_owned();
                out.append(url.as_str());
                out
            },
        }
    }
}

impl S3Location {
    /// Takes a URL apart: the bucket reaches to the first slash behind the
    /// scheme, the prefix from there on.
    pub fn parse(url: &str) -> (r: Result<S3Location, S3UrlError>)
        ensures
            match r {
                Ok(location) => {
                    &&& after_scheme(url@) matches Some(rest)
                    &&& cut(rest, '/') matches Some((bucket, path))
                    &&& location.bucket@ == bucket
                    &&& location.prefix@ == trim_end(path, '/')
                },
                Err(S3UrlError::MissingScheme(u)) => after_scheme(url@) is None && u@ == url@,
                Err(S3UrlError::MissingPath(u)) => {
                    &&& after_scheme(url@) matches Some(rest)
                    &&& cut(rest, '/') is None
                    &&& u@ == url@
                },
            },
    {
        let rest = match strip_scheme(url) {
            Some(rest) => rest,
            None => return Err(S3UrlError::MissingScheme(url.to_owned())),
        };
        match cut_at(rest, '/') {
            Some((bucket, path)) => Ok(
                S3Location {
                    bucket: bucket.to_owned(),
                    prefix: without_trailing(path, '/').to_owned(),
                },
            ),
            None => Err(S3UrlError::MissingPath(url.to_owned())),
        }
    }
}

/// A URL has one of the two schemes exactly if it begins with it.
pub proof fn no_other_scheme_is_taken(url: Seq<char>)
    ensures
        after_scheme(url) matches Some(rest) ==> url == "s3://"@ + rest || url == "s3a://"@ + rest,
        after_scheme(url) is None ==> !starts_with(url, "s3://"@) && !starts_with(url, "s3a://"@),
{
    let n = "s3://"@.len() as int;
    let m = "s3a://"@.len() as int;
    if starts_with(url, "s3://"@) {
        assert(url =~= url.subrange(0, n) + url.skip(n));
    } else if starts_with(url, "s3a://"@) {
        assert(url =~= url.subrange(0, m) + url.skip(m));
    }
}

/// A URL that is put together from a bucket and a prefix is taken apart into
/// them again, however many slashes stand behind the prefix.
pub proof fn url_is_taken_apart(bucket: Seq<char>, prefix: Seq<char>, slashes: nat)
    requires
        !bucket.contains('/'),
        prefix.len() == 0 || prefix.last() != '/',
    ensures
        ({
            let rest = bucket.push('/') + (prefix + crate::text::repeated('/', slashes));
            &&& after_scheme("s3://"@ + rest) == Some(rest)
            &&& after_scheme("s3a://"@ + rest) == Some(rest)
            &&& cut(rest, '/') matches Some((b, path))
            &&& b == bucket
            &&& trim_end(path, '/') == prefix
        }),
{
    let path = prefix + crate::text::repeated('/', slashes);
    schemes_are_alike(bucket.push('/') + path);
    crate::text::joined_parts_are_cut_apart(bucket, '/', path);
    crate::text::trimming_takes_that_character_alone(prefix, '/', slashes);
}

} // verus!
