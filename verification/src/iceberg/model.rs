//! The parts of a metadata file that are looked at, and the rest as it is.
use std::collections::HashMap;
use vstd::prelude::*;

use crate::text::same_text;

verus! {

pub struct Metadata {
    pub format_version: u32,
    pub table_uuid: Option<String>,
    pub location: Option<String>,
    pub current_snapshot_id: Option<i64>,
    pub current_schema_id: Option<i32>,
    pub schemas: Vec<Schema>,
    pub snapshots: Vec<Snapshot>,
    pub snapshot_log: Vec<SnapshotLogEntry>,
    pub metadata_log: Vec<MetadataLogEntry>,
    pub statistics: Vec<StatisticsFile>,
    pub partition_statistics: Vec<StatisticsFile>,
    /// Everything else, to be passed on as it is.
    pub other: HashMap<String, serde_json::Value>,
}

/// One of the schemas that a table has had.
pub struct Schema {
    pub schema_id: i32,
    pub fields: Vec<SchemaField>,
    pub other: HashMap<String, serde_json::Value>,
}

/// One column of a schema. Its type is a name, or an object for a struct, a
/// list or a map.
pub struct SchemaField {
    pub id: i32,
    pub name: String,
    pub required: bool,
    pub field_type: serde_json::Value,
    pub other: HashMap<String, serde_json::Value>,
}

pub struct Snapshot {
    pub snapshot_id: i64,
    pub parent_snapshot_id: Option<i64>,
    pub timestamp_ms: i64,
    pub manifest_list: Option<String>,
    pub summary: Summary,
    pub other: HashMap<String, serde_json::Value>,
}

pub struct SnapshotLogEntry {
    pub snapshot_id: i64,
    pub timestamp_ms: i64,
}

pub struct MetadataLogEntry {
    pub metadata_file: String,
    pub timestamp_ms: i64,
}

pub struct StatisticsFile {
    pub snapshot_id: i64,
    pub statistics_path: String,
    pub other: HashMap<String, serde_json::Value>,
}

/// What a snapshot says of the change that made it, by key.
pub struct Summary {
    entries: Vec<(String, String)>,
}

/// Does each key stand once?
pub open spec fn keys_differ(entries: Seq<(String, String)>) -> bool {
    forall|i: int, j: int|
        0 <= i < j < entries.len() ==> (#[trigger] entries[i]).0@ != (#[trigger] entries[j]).0@
}

/// What the entries say of each key; the last one counts.
pub open spec fn table_of(entries: Seq<(String, String)>) -> Map<Seq<char>, Seq<char>>
    decreases entries.len(),
{
    if entries.len() == 0 {
        Map::empty()
    } else {
        table_of(entries.drop_last()).insert(entries.last().0@, entries.last().1@)
    }
}

proof fn lemma_table(entries: Seq<(String, String)>)
    ensures
        forall|key: Seq<char>| #[trigger]
            table_of(entries).contains_key(key) ==> exists|i: int|
                0 <= i < entries.len() && (#[trigger] entries[i]).0@ == key,
        keys_differ(entries) ==> forall|i: int|
            0 <= i < entries.len() ==> table_of(entries).contains_key((#[trigger] entries[i]).0@)
                && table_of(entries)[entries[i].0@] == entries[i].1@,
    decreases entries.len(),
{
    if entries.len() > 0 {
        let init = entries.drop_last();
        lemma_table(init);
        assert forall|key: Seq<char>| #[trigger] table_of(entries).contains_key(key) implies exists|
            i: int,
        |
            0 <= i < entries.len() && (#[trigger] entries[i]).0@ == key by {
            if table_of(init).contains_key(key) {
                let i = choose|i: int| 0 <= i < init.len() && (#[trigger] init[i]).0@ == key;
                assert(entries[i].0@ == key);
            } else {
                assert(entries[entries.len() - 1].0@ == key);
            }
        }
        if keys_differ(entries) {
            assert forall|i: int| 0 <= i < entries.len() implies table_of(entries).contains_key(
                (#[trigger] entries[i]).0@,
            ) && table_of(entries)[entries[i].0@] == entries[i].1@ by {
                if i < init.len() {
                    assert(init[i] == entries[i]);
                    assert(entries[i].0@ != entries[entries.len() - 1].0@);
                }
            }
        }
    }
}

impl View for Summary {
    type V = Map<Seq<char>, Seq<char>>;

    closed spec fn view(&self) -> Map<Seq<char>, Seq<char>> {
        table_of(self.entries@)
    }
}

impl Summary {
    #[verifier::type_invariant]
    spec fn valid(self) -> bool {
        keys_differ(self.entries@)
    }

    /// The value under the key.
    pub open spec fn value_for(self, key: Seq<char>) -> Option<Seq<char>> {
        if self@.contains_key(key) {
            Some(self@[key])
        } else {
            None
        }
    }

    /// A summary with the entries; of several with one key the last counts.
    pub fn from_entries(entries: Vec<(String, String)>) -> (r: Summary)
        ensures
            r@ == table_of(entries@),
    {
        let mut kept: Vec<(String, String)> = Vec::new();
        let mut i: usize = entries.len();
        let ghost all = entries@;
        let mut entries = entries;
        proof {
            assert(all.skip(i as int) =~= Seq::<(String, String)>::empty());
            assert(all.take(i as int) =~= all);
        }
        while i > 0
            invariant
                i == entries@.len(),
                i <= all.len(),
                entries@ == all.take(i as int),
                keys_differ(kept@),
                table_of(kept@) == table_of(all.skip(i as int)),
            decreases i,
        {
            i = i - 1;
            let entry = entries.pop().unwrap();
            proof {
                assert(entry == all[i as int]);
                assert(entries@ =~= all.take(i as int));
                lemma_table_of_concat(seq![entry], all.skip(i + 1));
                assert(seq![entry] + all.skip(i + 1) =~= all.skip(i as int));
                lemma_table(kept@);
            }
            if !names_key(&kept, entry.0.as_str()) {
                let ghost before = kept@;
                kept.push(entry);
                proof {
                    assert(kept@.drop_last() =~= before);
                }
            }
            proof {
                assert(seq![entry].drop_last() =~= Seq::<(String, String)>::empty());
                assert(table_of(seq![entry].drop_last()) == Map::<Seq<char>, Seq<char>>::empty());
                assert(table_of(kept@) =~= table_of(all.skip(i as int)));
            }
        }
        proof {
            assert(all.skip(0) =~= all);
        }
        Summary { entries: kept }
    }

    /// The entries. No key stands twice.
    pub fn into_entries(self) -> (r: Vec<(String, String)>)
        ensures
            keys_differ(r@),
            table_of(r@) == self@,
    {
        proof {
            use_type_invariant(&self);
        }
        self.entries
    }

    /// The value under the key.
    pub fn get(&self, key: &str) -> (r: Option<&str>)
        ensures
            match r {
                Some(v) => self.value_for(key@) == Some(v@),
                None => self.value_for(key@) is None,
            },
    {
        proof {
            use_type_invariant(self);
            lemma_table(self.entries@);
        }
        let mut i: usize = 0;
        while i < self.entries.len()
            invariant
                i <= self.entries@.len(),
                forall|j: int| 0 <= j < i ==> (#[trigger] self.entries@[j]).0@ != key@,
                forall|j: int|
                    0 <= j < self.entries@.len() ==> self@.contains_key(
                        (#[trigger] self.entries@[j]).0@,
                    ) && self@[self.entries@[j].0@] == self.entries@[j].1@,
                self@.contains_key(key@) ==> exists|j: int|
                    0 <= j < self.entries@.len() && (#[trigger] self.entries@[j]).0@ == key@,
            decreases self.entries@.len() - i,
        {
            if same_text(self.entries[i].0.as_str(), key) {
                return Some(self.entries[i].1.as_str());
            }
            i += 1;
        }
        None
    }
}

proof fn lemma_table_of_concat(a: Seq<(String, String)>, b: Seq<(String, String)>)
    ensures
        table_of(a + b) == table_of(a).union_prefer_right(table_of(b)),
    decreases b.len(),
{
    if b.len() == 0 {
        assert(a + b =~= a);
        assert(table_of(a).union_prefer_right(table_of(b)) =~= table_of(a));
    } else {
        assert((a + b).drop_last() =~= a + b.drop_last());
        lemma_table_of_concat(a, b.drop_last());
        assert(table_of(a).union_prefer_right(table_of(b)) =~= table_of(a).union_prefer_right(
            table_of(b.drop_last()),
        ).insert(b.last().0@, b.last().1@));
    }
}

/// Does one of the entries have the key?
fn names_key(entries: &Vec<(String, String)>, key: &str) -> (r: bool)
    ensures
        r == table_of(entries@).contains_key(key@),
        !r ==> forall|i: int| 0 <= i < entries@.len() ==> (#[trigger] entries@[i]).0@ != key@,
{
    let mut i: usize = 0;
    while i < entries.len()
        invariant
            i <= entries@.len(),
            forall|j: int| 0 <= j < i ==> (#[trigger] entries@[j]).0@ != key@,
        decreases entries@.len() - i,
    {
        if same_text(entries[i].0.as_str(), key) {
            proof {
                lemma_key_is_known(entries@, i as int);
            }
            return true;
        }
        i += 1;
    }
    proof {
        lemma_table(entries@);
    }
    false
}

proof fn lemma_key_is_known(entries: Seq<(String, String)>, i: int)
    requires
        0 <= i < entries.len(),
    ensures
        table_of(entries).contains_key(entries[i].0@),
    decreases entries.len(),
{
    if i < entries.len() - 1 {
        lemma_key_is_known(entries.drop_last(), i);
    }
}

/// The position of the first snapshot with the id; the number of snapshots
/// if there is none.
pub open spec fn snapshot_at(snapshots: Seq<Snapshot>, id: i64) -> int
    decreases snapshots.len(),
{
    if snapshots.len() == 0 || snapshots[0].snapshot_id == id {
        0
    } else {
        1 + snapshot_at(snapshots.skip(1), id)
    }
}

/// The position of the first schema with the id; the number of schemas if
/// there is none.
pub open spec fn schema_at(schemas: Seq<Schema>, id: i32) -> int
    decreases schemas.len(),
{
    if schemas.len() == 0 || schemas[0].schema_id == id {
        0
    } else {
        1 + schema_at(schemas.skip(1), id)
    }
}

/// Finds a snapshot by its id.
pub fn find_snapshot(snapshots: &Vec<Snapshot>, id: i64) -> (r: Option<&Snapshot>)
    ensures
        match r {
            Some(s) => snapshot_at(snapshots@, id) < snapshots@.len() && *s
                == snapshots@[snapshot_at(snapshots@, id)] && s.snapshot_id == id,
            None => snapshot_at(snapshots@, id) == snapshots@.len(),
        },
{
    let mut i: usize = 0;
    proof {
        assert(snapshots@.skip(0) =~= snapshots@);
    }
    while i < snapshots.len()
        invariant
            i <= snapshots@.len(),
            snapshot_at(snapshots@, id) == i + snapshot_at(snapshots@.skip(i as int), id),
        decreases snapshots@.len() - i,
    {
        proof {
            assert(snapshots@.skip(i as int).skip(1) =~= snapshots@.skip(i + 1));
        }
        if snapshots[i].snapshot_id == id {
            return Some(&snapshots[i]);
        }
        i += 1;
    }
    None
}

impl Metadata {
    /// The position of the current snapshot, if there is one. A table that
    /// was just created has none: the id is missing or -1.
    pub open spec fn current_snapshot_at(self) -> Option<int> {
        match self.current_snapshot_id {
            None => None,
            Some(id) => {
                let i = snapshot_at(self.snapshots@, id);
                if id == -1 || i >= self.snapshots@.len() {
                    None
                } else {
                    Some(i)
                }
            },
        }
    }

    /// The current snapshot.
    pub fn current_snapshot(&self) -> (r: Option<&Snapshot>)
        ensures
            match r {
                Some(s) => {
                    &&& self.current_snapshot_at() matches Some(i)
                    &&& 0 <= i < self.snapshots@.len()
                    &&& *s == self.snapshots@[i]
                    &&& self.current_snapshot_id == Some(s.snapshot_id)
                },
                None => self.current_snapshot_at() is None,
            },
    {
        let id: i64 = match self.current_snapshot_id {
            None => return None,
            Some(id) => id,
        };
        if id == -1 {
            return None;
        }
        proof {
            lemma_snapshot_at(self.snapshots@, id);
        }
        find_snapshot(&self.snapshots, id)
    }

    /// The position of the current schema, if there is one. Without an id
    /// it is the only schema: old tables have no id and one schema.
    pub open spec fn current_schema_at(self) -> Option<int> {
        match self.current_schema_id {
            Some(id) => {
                let i = schema_at(self.schemas@, id);
                if i < self.schemas@.len() {
                    Some(i)
                } else {
                    None
                }
            },
            None => if self.schemas@.len() == 1 {
                Some(0)
            } else {
                None
            },
        }
    }

    /// The current schema.
    pub fn current_schema(&self) -> (r: Option<&Schema>)
        ensures
            match r {
                Some(s) => {
                    &&& self.current_schema_at() matches Some(i)
                    &&& 0 <= i < self.schemas@.len()
                    &&& *s == self.schemas@[i]
                    &&& self.current_schema_id matches Some(id) ==> s.schema_id == id
                },
                None => self.current_schema_at() is None,
            },
    {
        match self.current_schema_id {
            Some(id) => {
                let mut i: usize = 0;
                proof {
                    assert(self.schemas@.skip(0) =~= self.schemas@);
                }
                while i < self.schemas.len()
                    invariant
                        i <= self.schemas@.len(),
                        self.current_schema_id == Some(id),
                        schema_at(self.schemas@, id) == i + schema_at(
                            self.schemas@.skip(i as int),
                            id,
                        ),
                    decreases self.schemas@.len() - i,
                {
                    proof {
                        assert(self.schemas@.skip(i as int).skip(1) =~= self.schemas@.skip(i + 1));
                    }
                    if self.schemas[i].schema_id == id {
                        return Some(&self.schemas[i]);
                    }
                    i += 1;
                }
                None
            },
            None => if self.schemas.len() == 1 {
                Some(&self.schemas[0])
            } else {
                None
            },
        }
    }
}

pub proof fn lemma_snapshot_at(snapshots: Seq<Snapshot>, id: i64)
    ensures
        0 <= snapshot_at(snapshots, id) <= snapshots.len(),
        snapshot_at(snapshots, id) < snapshots.len() ==> snapshots[snapshot_at(
            snapshots,
            id,
        )].snapshot_id == id,
        forall|j: int|
            0 <= j < snapshot_at(snapshots, id) ==> (#[trigger] snapshots[j]).snapshot_id != id,
    decreases snapshots.len(),
{
    if snapshots.len() > 0 && snapshots[0].snapshot_id != id {
        let rest = snapshots.skip(1);
        lemma_snapshot_at(rest, id);
        assert forall|j: int| 0 <= j < snapshot_at(snapshots, id) implies (
        #[trigger] snapshots[j]).snapshot_id != id by {
            if j > 0 {
                assert(rest[j - 1] == snapshots[j]);
            }
        }
    }
}

/// The current snapshot is the first one with the current id, unless the id is
/// missing or -1; and there is one if any snapshot has the id.
pub proof fn current_snapshot_has_the_current_id(meta: Metadata, i: int)
    ensures
        meta.current_snapshot_at() == Some(i) <==> {
            &&& 0 <= i < meta.snapshots@.len()
            &&& meta.current_snapshot_id == Some(meta.snapshots@[i].snapshot_id)
            &&& meta.snapshots@[i].snapshot_id != -1
            &&& forall|j: int|
                0 <= j < i ==> (#[trigger] meta.snapshots@[j]).snapshot_id
                    != meta.snapshots@[i].snapshot_id
        },
{
    if meta.current_snapshot_id is Some {
        let id = meta.current_snapshot_id->0;
        lemma_snapshot_at(meta.snapshots@, id);
        let k = snapshot_at(meta.snapshots@, id);
        if 0 <= i < meta.snapshots@.len() && meta.snapshots@[i].snapshot_id == id {
            if k < i {
                assert(meta.snapshots@[k].snapshot_id == id);
            }
            if i < k {
                assert(meta.snapshots@[i].snapshot_id != id);
            }
        }
    }
}

proof fn lemma_schema_at(schemas: Seq<Schema>, id: i32)
    ensures
        0 <= schema_at(schemas, id) <= schemas.len(),
        schema_at(schemas, id) < schemas.len() ==> schemas[schema_at(schemas, id)].schema_id == id,
        forall|j: int| 0 <= j < schema_at(schemas, id) ==> (#[trigger] schemas[j]).schema_id != id,
    decreases schemas.len(),
{
    if schemas.len() > 0 && schemas[0].schema_id != id {
        let rest = schemas.skip(1);
        lemma_schema_at(rest, id);
        assert forall|j: int| 0 <= j < schema_at(schemas, id) implies (
        #[trigger] schemas[j]).schema_id != id by {
            if j > 0 {
                assert(rest[j - 1] == schemas[j]);
            }
        }
    }
}

/// The current schema is the first one with the current id; without an id it
/// is the only schema, and there is none if there are several.
pub proof fn current_schema_has_the_current_id(meta: Metadata, i: int)
    ensures
        meta.current_schema_id matches Some(id) ==> (meta.current_schema_at() == Some(i) <==> {
            &&& 0 <= i < meta.schemas@.len()
            &&& meta.schemas@[i].schema_id == id
            &&& forall|j: int| 0 <= j < i ==> (#[trigger] meta.schemas@[j]).schema_id != id
        }),
        meta.current_schema_id is None ==> (meta.current_schema_at() == Some(i) <==> i == 0
            && meta.schemas@.len() == 1),
{
    if meta.current_schema_id is Some {
        let id = meta.current_schema_id->0;
        lemma_schema_at(meta.schemas@, id);
        let k = schema_at(meta.schemas@, id);
        if 0 <= i < meta.schemas@.len() && meta.schemas@[i].schema_id == id {
            if k < i {
                assert(meta.schemas@[k].schema_id == id);
            }
            if i < k {
                assert(meta.schemas@[i].schema_id != id);
            }
        }
    }
}

/// Of several entries with one key the last counts, and no key is known but
/// those of the entries.
pub proof fn last_entry_of_a_key_counts(entries: Seq<(String, String)>, i: int)
    ensures
        0 <= i < entries.len() && (forall|j: int|
            i < j < entries.len() ==> (#[trigger] entries[j]).0@ != entries[i].0@) ==> table_of(
            entries,
        ).contains_key(entries[i].0@) && table_of(entries)[entries[i].0@] == entries[i].1@,
        forall|key: Seq<char>| #[trigger]
            table_of(entries).contains_key(key) ==> exists|j: int|
                0 <= j < entries.len() && (#[trigger] entries[j]).0@ == key,
    decreases entries.len(),
{
    lemma_table(entries);
    if 0 <= i < entries.len() - 1 {
        let init = entries.drop_last();
        last_entry_of_a_key_counts(init, i);
        if forall|j: int| i < j < entries.len() ==> (#[trigger] entries[j]).0@ != entries[i].0@ {
            assert(entries[entries.len() - 1].0@ != entries[i].0@);
            assert forall|j: int| i < j < init.len() implies (#[trigger] init[j]).0@
                != init[i].0@ by {
                assert(init[j] == entries[j]);
            }
        }
    }
}

} // verus!
