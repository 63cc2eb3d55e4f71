//! What the command line asks for.
use std::path::PathBuf;
use vstd::prelude::*;

use crate::number::{parse_unsigned, unsigned};
use crate::text::same_text;

verus! {

/// A path in the local file system.
#[verifier::external_type_specification]
#[verifier::external_body]
pub struct ExPathBuf(std::path::PathBuf);

pub struct Cli {
    /// Log to the terminal instead of drawing the progress.
    pub plain: bool,
    pub command: Command,
}

pub enum Command {
    /// Copy the tables of a namespace to another place.
    Copy(CopyArgs),
    /// Inspect a table.
    Show { command: ShowCommand },
}

pub struct CopyArgs {
    /// Config file for the source.
    pub from_config: PathBuf,
    /// Source URL of a namespace, with tables as subdirectories.
    pub from: String,
    /// Config file for the destination.
    pub to_config: PathBuf,
    /// Destination URL, of the same shape as the source URL.
    pub to: String,
    /// Which files to copy.
    pub scope: Scope,
    /// File copies in flight per table.
    pub copy_parallel: usize,
    /// Tables that copy files at the same time.
    pub tables_parallel: usize,
}

/// Which slice of a table to copy.
#[derive(Debug, Clone, Copy, PartialEq, Eq, Structural)]
pub enum Scope {
    /// The files that the current snapshot needs, and those of snapshots
    /// whose manifest list is at the destination already.
    Latest,
    /// Every file.
    All,
    /// As for the latest, but from the metadata of one version.
    Version(u32),
}

/// The scope that a text names.
pub open spec fn scope_of(s: Seq<char>) -> Option<Scope> {
    if s == "latest"@ {
        Some(Scope::Latest)
    } else if s == "all"@ {
        Some(Scope::All)
    } else {
        match unsigned(s) {
            Some(version) => Some(Scope::Version(version)),
            None => None,
        }
    }
}

impl Scope {
    /// Reads a scope: a keyword, or a metadata version with or without the
    /// zeros in front that metadata files have.
    pub fn parse(s: &str) -> (r: Result<Scope, String>)
        ensures
            match r {
                Ok(scope) => scope_of(s@) == Some(scope),
                Err(message) => scope_of(s@) is None && message@
                    == "expected 'latest', 'all', or a metadata version number; got '"@ + s@ + "'"@,
            },
    {
        if same_text(s, "latest") {
            return Ok(Scope::Latest);
        }
        if same_text(s, "all") {
            return Ok(Scope::All);
        }
        match parse_unsigned(s) {
            Some(version) => Ok(Scope::Version(version)),
            None => {
                let mut message: String =
                    "expected 'latest', 'all', or a metadata version number; got '".to_owned();
                message.append(s);
                message.append("'");
                Err(message)
            },
        }
    }
}

pub enum ShowCommand {
    /// The current metadata version and the UUID in its file name.
    Version(TableArgs),
    /// The current snapshot and a few before it.
    Snapshot(TableArgs),
    /// The columns of the current schema.
    Schema(TableArgs),
    /// The tables under a location.
    Tables(LocationArgs),
}

/// What identifies a table.
pub struct TableArgs {
    /// Config file.
    pub config: PathBuf,
    /// URL of the table.
    pub location: String,
}

/// What identifies a location at any level: a table, a namespace, or a root
/// that holds namespaces.
pub struct LocationArgs {
    /// Config file.
    pub config: PathBuf,
    /// URL of the location.
    pub location: String,
}

/// A scope is one of the two words, or a number of a version with any zeros in
/// front, and nothing else.
pub proof fn scopes_are_words_or_versions(n: u32, width: nat, s: Seq<char>)
    ensures
        scope_of("latest"@) == Some(Scope::Latest),
        scope_of("all"@) == Some(Scope::All),
        scope_of(crate::number::padded(n as nat, width)) == Some(Scope::Version(n)),
        s != "latest"@ && s != "all"@ ==> (scope_of(s) matches Some(scope) ==> (scope
            matches Scope::Version(v) && unsigned(s) == Some(v))),
        s != "latest"@ && s != "all"@ && unsigned(s) is None ==> scope_of(s) is None,
{
    reveal_strlit("latest");
    reveal_strlit("all");
    let p = crate::number::padded(n as nat, width);
    crate::number::written_number_is_read_back(n, width);
    crate::number::numbers_are_read_from_digits_alone("latest"@);
    crate::number::numbers_are_read_from_digits_alone("all"@);
    assert("latest"@[0] == 'l');
    assert("all"@[0] == 'a');
    assert(unsigned("latest"@) is None);
    assert(unsigned("all"@) is None);
    assert("latest"@.len() == 6);
    assert("all"@.len() == 3);
}

} // verus!
