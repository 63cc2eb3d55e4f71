//! The current version of a table's metadata.
use vstd::prelude::*;

use crate::iceberg::ident::{uuid_text, write_uuid};
use crate::iceberg::metadata::MetadataFile;
use crate::number::{digits, push_decimal};
use crate::order::texts;

verus! {

/// What is said of a table without a metadata file.
pub fn no_metadata_message() -> (r: String)
    ensures
        r@ == "no <NNNNN>-<uuid>.metadata.json files found under metadata/"@,
{
    "no <NNNNN>-<uuid>.metadata.json files found under metadata/".to_owned()
}

/// The version and the UUID in the name of a metadata file, as lines.
pub fn version_lines(latest: &MetadataFile) -> (r: Vec<String>)
    ensures
        texts(r@) == seq![
            "Current version: "@ + digits(latest.version as nat),
            "UUID: "@ + uuid_text(latest.uuid),
        ],
{
    let mut version: String = "Current version: ".to_owned();
    push_decimal(&mut version, latest.version as u64);
    let mut uuid: String = "UUID: ".to_owned();
    uuid.append(write_uuid(latest.uuid).as_str());
    let mut out: Vec<String> = Vec::new();
    out.push(version);
    out.push(uuid);
    proof {
        assert(texts(out@) =~= seq![
            "Current version: "@ + digits(latest.version as nat),
            "UUID: "@ + uuid_text(latest.uuid),
        ]);
    }
    out
}

} // verus!
