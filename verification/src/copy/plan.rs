//! What to copy, and what is at the destination already.
use vstd::prelude::*;

use crate::copy::paths::{filename_of, relative, relative_under, strip_url_prefix, url_relative};
use crate::iceberg::model::{Metadata, Snapshot};
use crate::names::{with_name, NameMap, NameSet};
use crate::sync_log::{entries_in, etag_text, Entry, EntryView};
use crate::text::after_last;

verus! {

/// Up to how many files are asked for one by one at the destination rather
/// than found in a listing of everything there: about as many as stand on
/// one page of a listing.
pub const HEAD_PROBE_THRESHOLD: usize = 1000;

// ---------------------------------------------------------------------------
// Which snapshots stay
// ---------------------------------------------------------------------------

/// What is kept of a table's snapshots.
pub struct CopyPlan {
    /// The manifest lists, by their paths below the table, that are to be at
    /// the destination after this run.
    pub kept_manifest_lists: NameSet,
}

/// The path of a snapshot's manifest list below the table, if it has one.
pub open spec fn list_of(src_url: Seq<char>, snapshot: Snapshot) -> Option<Seq<char>> {
    match snapshot.manifest_list {
        Some(ml) => Some(url_relative(src_url, ml@)),
        None => None,
    }
}

/// Is the manifest list of the snapshot at the destination?
pub open spec fn is_there(src_url: Seq<char>, snapshot: Snapshot, there: Seq<Seq<char>>) -> bool {
    list_of(src_url, snapshot) matches Some(rel) && there.contains(after_last(rel, '/'))
}

/// The manifest lists with those of the snapshots that are at the
/// destination.
pub open spec fn kept_with(
    kept: Seq<Seq<char>>,
    src_url: Seq<char>,
    snapshots: Seq<Snapshot>,
    there: Seq<Seq<char>>,
) -> Seq<Seq<char>>
    decreases snapshots.len(),
{
    if snapshots.len() == 0 {
        kept
    } else {
        let rest = kept_with(kept, src_url, snapshots.drop_last(), there);
        if is_there(src_url, snapshots.last(), there) {
            with_name(rest, list_of(src_url, snapshots.last())->0)
        } else {
            rest
        }
    }
}

/// The manifest lists to keep: that of the current snapshot, and those that
/// are at the destination already.
pub open spec fn kept_lists(
    src_url: Seq<char>,
    meta: Metadata,
    there: Seq<Seq<char>>,
) -> Seq<Seq<char>> {
    let current = match meta.current_snapshot_at() {
        Some(i) => list_of(src_url, meta.snapshots@[i]),
        None => None,
    };
    kept_with(
        match current {
            Some(rel) => seq![rel],
            None => Seq::empty(),
        },
        src_url,
        meta.snapshots@,
        there,
    )
}

/// Decides which snapshots to keep. History adds up over runs at no extra
/// cost: what an earlier run brought over stays.
pub fn build_plan(src_url: &str, meta: &Metadata, dst_existing_meta: &NameSet) -> (r: CopyPlan)
    ensures
        r.kept_manifest_lists@ == kept_lists(src_url@, *meta, dst_existing_meta@),
{
    let mut kept = NameSet::new();
    match meta.current_snapshot() {
        Some(snap) => match &snap.manifest_list {
            Some(ml) => {
                kept.insert(strip_url_prefix(src_url, ml.as_str()).to_owned());
            },
            None => {},
        },
        None => {},
    }
    let ghost start = kept@;
    let ghost all = meta.snapshots@;
    proof {
        assert(start =~= match (match meta.current_snapshot_at() {
            Some(i) => list_of(src_url@, meta.snapshots@[i]),
            None => None,
        }) {
            Some(rel) => seq![rel],
            None => Seq::empty(),
        });
        assert(all.take(0) =~= Seq::<Snapshot>::empty());
    }
    let mut i: usize = 0;
    while i < meta.snapshots.len()
        invariant
            i <= meta.snapshots@.len(),
            all == meta.snapshots@,
            kept@ == kept_with(start, src_url@, all.take(i as int), dst_existing_meta@),
        decreases meta.snapshots@.len() - i,
    {
        proof {
            assert(all.take(i + 1).drop_last() =~= all.take(i as int));
            assert(all.take(i + 1).last() == all[i as int]);
        }
        match &meta.snapshots[i].manifest_list {
            Some(ml) => {
                let rel = strip_url_prefix(src_url, ml.as_str());
                if dst_existing_meta.contains(filename_of(rel)) {
                    kept.insert(rel.to_owned());
                }
            },
            None => {},
        }
        i += 1;
    }
    proof {
        assert(all.take(i as int) =~= all);
    }
    CopyPlan { kept_manifest_lists: kept }
}

proof fn lemma_kept_with(
    kept: Seq<Seq<char>>,
    src_url: Seq<char>,
    snapshots: Seq<Snapshot>,
    there: Seq<Seq<char>>,
    rel: Seq<char>,
)
    ensures
        kept_with(kept, src_url, snapshots, there).contains(rel) <==> kept.contains(rel) || exists|
            i: int,
        |
            0 <= i < snapshots.len() && is_there(src_url, #[trigger] snapshots[i], there)
                && list_of(src_url, snapshots[i]) == Some(rel),
    decreases snapshots.len(),
{
    if snapshots.len() > 0 {
        let init = snapshots.drop_last();
        lemma_kept_with(kept, src_url, init, there, rel);
        let before = kept_with(kept, src_url, init, there);
        let all = kept_with(kept, src_url, snapshots, there);
        let last = snapshots.last();
        assert(snapshots[snapshots.len() - 1] == last);
        if before.contains(rel) {
            let k = choose|k: int| 0 <= k < before.len() && before[k] == rel;
            assert(all[k] == rel);
            if !kept.contains(rel) {
                let i = choose|i: int|
                    0 <= i < init.len() && is_there(src_url, #[trigger] init[i], there) && list_of(
                        src_url,
                        init[i],
                    ) == Some(rel);
                assert(is_there(src_url, snapshots[i], there));
            }
        }
        if is_there(src_url, last, there) && list_of(src_url, last) == Some(rel)
            && !before.contains(rel) {
            assert(all[all.len() - 1] == rel);
        }
        if all.contains(rel) && !before.contains(rel) {
            let k = choose|k: int| 0 <= k < all.len() && all[k] == rel;
            if k < before.len() {
                assert(before[k] == rel);
            }
            assert(is_there(src_url, snapshots[snapshots.len() - 1], there));
        }
        if exists|i: int|
            0 <= i < snapshots.len() && is_there(src_url, #[trigger] snapshots[i], there)
                && list_of(src_url, snapshots[i]) == Some(rel) {
            let i = choose|i: int|
                0 <= i < snapshots.len() && is_there(src_url, #[trigger] snapshots[i], there)
                    && list_of(src_url, snapshots[i]) == Some(rel);
            if i < init.len() {
                assert(is_there(src_url, init[i], there));
            }
        }
    }
}

/// A manifest list is kept exactly if it is the current one or is at the
/// destination already.
pub proof fn kept_lists_are_current_or_there(
    src_url: Seq<char>,
    meta: Metadata,
    there: Seq<Seq<char>>,
    rel: Seq<char>,
)
    ensures
        kept_lists(src_url, meta, there).contains(rel) <==> {
            ||| meta.current_snapshot_at() matches Some(i) && list_of(src_url, meta.snapshots@[i])
                == Some(rel)
            ||| exists|i: int|
                0 <= i < meta.snapshots@.len() && is_there(
                    src_url,
                    #[trigger] meta.snapshots@[i],
                    there,
                ) && list_of(src_url, meta.snapshots@[i]) == Some(rel)
        },
{
    let current = match meta.current_snapshot_at() {
        Some(i) => list_of(src_url, meta.snapshots@[i]),
        None => None,
    };
    let start: Seq<Seq<char>> = match current {
        Some(r) => seq![r],
        None => Seq::empty(),
    };
    lemma_kept_with(start, src_url, meta.snapshots@, there, rel);
    if current == Some(rel) {
        assert(start[0] == rel);
    }
}

/// What is cut off behind a slash has the same name behind its last slash.
proof fn lemma_same_name(path: Seq<char>, k: int)
    requires
        0 <= k <= path.len(),
        k > 0 ==> path[k - 1] == '/',
    ensures
        after_last(path.skip(k), '/') == after_last(path, '/'),
{
    let rest = path.skip(k);
    crate::text::lemma_tail_start(path, '/');
    let t = crate::text::tail_start(path, '/') as int;
    if t < k {
        assert(path[k - 1] != '/');
    }
    if t > k {
        assert(rest[t - k - 1] == path[t - 1]);
    }
    crate::text::lemma_tail_start_is(rest, '/', t - k);
    assert(rest.skip(t - k) =~= path.skip(t));
}

/// Below a URL or not, the name of a file stays what it is, unless the path
/// is the URL itself.
pub proof fn relative_path_has_the_same_name(src_url: Seq<char>, path: Seq<char>)
    requires
        path != src_url,
    ensures
        after_last(url_relative(src_url, path), '/') == after_last(path, '/'),
{
    reveal_strlit("/");
    let p = src_url + "/"@;
    let n = src_url.len() as int;
    if crate::text::starts_with(path, p) {
        assert(path.subrange(0, p.len() as int)[n] == p[n]);
        lemma_same_name(path, n + 1);
    } else if crate::text::starts_with(path, src_url) {
        if crate::text::ends_with(src_url, "/"@) {
            assert(src_url.subrange(n - 1, n)[0] == '/');
            assert(path.subrange(0, n)[n - 1] == src_url[n - 1]);
            lemma_same_name(path, n);
        } else if path.len() == n {
            assert(path.subrange(0, n) =~= path);
        }
    }
}

/// Every snapshot whose manifest list has a name that is among those at the
/// destination has its manifest list kept, and so has the current one. No
/// other manifest list is kept, and none twice.
pub proof fn lists_at_the_destination_are_kept(
    src_url: Seq<char>,
    meta: Metadata,
    there: Seq<Seq<char>>,
)
    ensures
        kept_lists(src_url, meta, there).no_duplicates(),
        forall|i: int|
            0 <= i < meta.snapshots@.len() ==> ((#[trigger] meta.snapshots@[i]).manifest_list
                matches Some(ml) ==> ml@ != src_url && there.contains(after_last(ml@, '/'))
                ==> kept_lists(src_url, meta, there).contains(url_relative(src_url, ml@))),
        forall|i: int|
            0 <= i < meta.snapshots@.len() && meta.current_snapshot_id == Some(
                (#[trigger] meta.snapshots@[i]).snapshot_id,
            ) && meta.snapshots@[i].snapshot_id != -1 && (forall|j: int|
                0 <= j < i ==> (#[trigger] meta.snapshots@[j]).snapshot_id
                    != meta.snapshots@[i].snapshot_id) ==> (meta.snapshots@[i].manifest_list
                matches Some(ml) ==> kept_lists(src_url, meta, there).contains(
                url_relative(src_url, ml@),
            )),
        forall|rel: Seq<char>| #[trigger]
            kept_lists(src_url, meta, there).contains(rel) ==> exists|i: int|
                0 <= i < meta.snapshots@.len() && ((#[trigger] meta.snapshots@[i]).manifest_list
                    matches Some(ml) && rel == url_relative(src_url, ml@) && (
                meta.current_snapshot_id == Some(meta.snapshots@[i].snapshot_id)
                    || there.contains(after_last(rel, '/')))),
{
    let kept = kept_lists(src_url, meta, there);
    assert forall|i: int| 0 <= i < meta.snapshots@.len() implies ((
    #[trigger] meta.snapshots@[i]).manifest_list matches Some(ml) ==> ml@ != src_url
        && there.contains(after_last(ml@, '/')) ==> kept.contains(url_relative(src_url, ml@))) by {
        let s = meta.snapshots@[i];
        if s.manifest_list is Some {
            let ml = s.manifest_list->0@;
            if ml != src_url && there.contains(after_last(ml, '/')) {
                relative_path_has_the_same_name(src_url, ml);
                assert(is_there(src_url, s, there));
                kept_lists_are_current_or_there(src_url, meta, there, url_relative(src_url, ml));
            }
        }
    }
    assert forall|i: int|
        0 <= i < meta.snapshots@.len() && meta.current_snapshot_id == Some(
            (#[trigger] meta.snapshots@[i]).snapshot_id,
        ) && meta.snapshots@[i].snapshot_id != -1 && (forall|j: int|
            0 <= j < i ==> (#[trigger] meta.snapshots@[j]).snapshot_id
                != meta.snapshots@[i].snapshot_id) implies (meta.snapshots@[i].manifest_list
        matches Some(ml) ==> kept.contains(url_relative(src_url, ml@))) by {
        let id = meta.snapshots@[i].snapshot_id;
        crate::iceberg::model::lemma_snapshot_at(meta.snapshots@, id);
        let k = crate::iceberg::model::snapshot_at(meta.snapshots@, id);
        if k < i {
            assert(meta.snapshots@[k].snapshot_id != id);
        }
        if i < k {
            assert(meta.snapshots@[i].snapshot_id != id);
        }
        if meta.snapshots@[i].manifest_list is Some {
            let ml = meta.snapshots@[i].manifest_list->0@;
            kept_lists_are_current_or_there(src_url, meta, there, url_relative(src_url, ml));
        }
    }
    assert forall|rel: Seq<char>| #[trigger] kept.contains(rel) implies exists|i: int|
        0 <= i < meta.snapshots@.len() && ((#[trigger] meta.snapshots@[i]).manifest_list matches Some(
            ml,
        ) && rel == url_relative(src_url, ml@) && (meta.current_snapshot_id == Some(
            meta.snapshots@[i].snapshot_id,
        ) || there.contains(after_last(rel, '/')))) by {
        kept_lists_are_current_or_there(src_url, meta, there, rel);
        if meta.current_snapshot_id is Some {
            crate::iceberg::model::lemma_snapshot_at(meta.snapshots@, meta.current_snapshot_id->0);
        }
        let i = if meta.current_snapshot_at() matches Some(i) && list_of(
            src_url,
            meta.snapshots@[i],
        ) == Some(rel) {
            meta.current_snapshot_at()->0
        } else {
            choose|i: int|
                0 <= i < meta.snapshots@.len() && is_there(
                    src_url,
                    #[trigger] meta.snapshots@[i],
                    there,
                ) && list_of(src_url, meta.snapshots@[i]) == Some(rel)
        };
        assert(meta.snapshots@[i].manifest_list is Some);
    }
    let current = match meta.current_snapshot_at() {
        Some(i) => list_of(src_url, meta.snapshots@[i]),
        None => None,
    };
    lemma_kept_once(
        match current {
            Some(rel) => seq![rel],
            None => Seq::empty(),
        },
        src_url,
        meta.snapshots@,
        there,
    );
}

proof fn lemma_kept_once(
    kept: Seq<Seq<char>>,
    src_url: Seq<char>,
    snapshots: Seq<Snapshot>,
    there: Seq<Seq<char>>,
)
    requires
        kept.no_duplicates(),
    ensures
        kept_with(kept, src_url, snapshots, there).no_duplicates(),
    decreases snapshots.len(),
{
    if snapshots.len() > 0 {
        lemma_kept_once(kept, src_url, snapshots.drop_last(), there);
    }
}

// ---------------------------------------------------------------------------
// What is at the destination
// ---------------------------------------------------------------------------

/// The names of the files with these keys, without repetitions.
pub fn metadata_filenames(keys: &Vec<String>) -> (r: NameSet)
    ensures
        r@ == crate::names::deduped(
            crate::order::texts(keys@).map_values(|k: Seq<char>| after_last(k, '/')),
        ),
{
    let mut names = NameSet::new();
    let ghost all = crate::order::texts(keys@).map_values(|k: Seq<char>| after_last(k, '/'));
    let mut i: usize = 0;
    proof {
        assert(all.take(0) =~= Seq::<Seq<char>>::empty());
    }
    while i < keys.len()
        invariant
            i <= keys@.len(),
            all == crate::order::texts(keys@).map_values(|k: Seq<char>| after_last(k, '/')),
            names@ == crate::names::deduped(all.take(i as int)),
        decreases keys@.len() - i,
    {
        proof {
            assert(all.take(i + 1).drop_last() =~= all.take(i as int));
            assert(all.take(i + 1).last() == all[i as int]);
        }
        names.insert(filename_of(keys[i].as_str()).to_owned());
        i += 1;
    }
    proof {
        assert(all.take(i as int) =~= all);
    }
    names
}

/// The scan of a destination: the sizes of its objects, by their paths below
/// the table, and how many were found.
pub struct ExistingScan {
    sizes: NameMap<u64>,
    count: u64,
}

impl ExistingScan {
    pub closed spec fn sizes(self) -> Map<Seq<char>, u64> {
        self.sizes@
    }

    pub closed spec fn count(self) -> nat {
        self.count as nat
    }

    pub fn new() -> (r: ExistingScan)
        ensures
            r.sizes() == Map::<Seq<char>, u64>::empty(),
            r.count() == 0,
    {
        ExistingScan { sizes: NameMap::new(), count: 0 }
    }

    /// Takes in an object of the listing. Returns how many there are by now.
    pub fn note(&mut self, key: &str, dst_prefix: &str, size: u64) -> (r: u64)
        requires
            old(self).count() < u64::MAX,
        ensures
            final(self).sizes() == old(self).sizes().insert(relative(key@, dst_prefix@), size),
            final(self).count() == old(self).count() + 1,
            r == final(self).count(),
    {
        self.sizes.insert(relative_under(key, dst_prefix).to_owned(), size);
        self.count = self.count + 1;
        self.count
    }

    /// The sizes that were found.
    pub fn finish(self) -> (r: NameMap<u64>)
        ensures
            r@ == self.sizes(),
    {
        self.sizes
    }
}

/// The sizes that answers to single questions told: a path that had no
/// answer is not there.
pub open spec fn sizes_told(answers: Seq<Option<(String, u64)>>) -> Map<Seq<char>, u64>
    decreases answers.len(),
{
    if answers.len() == 0 {
        Map::empty()
    } else {
        let rest = sizes_told(answers.drop_last());
        match answers.last() {
            Some((rel, size)) => rest.insert(rel@, size),
            None => rest,
        }
    }
}

/// Puts the answers to single questions together.
pub fn head_existing(answers: Vec<Option<(String, u64)>>) -> (r: NameMap<u64>)
    ensures
        r@ == sizes_told(answers@),
{
    let mut sizes: NameMap<u64> = NameMap::new();
    proof {
        assert(answers@.take(0) =~= Seq::<Option<(String, u64)>>::empty());
    }
    let mut i: usize = 0;
    while i < answers.len()
        invariant
            i <= answers@.len(),
            sizes@ == sizes_told(answers@.take(i as int)),
        decreases answers@.len() - i,
    {
        proof {
            assert(answers@.take(i + 1).drop_last() =~= answers@.take(i as int));
            assert(answers@.take(i + 1).last() == answers@[i as int]);
        }
        match &answers[i] {
            Some((rel, size)) => {
                sizes.insert(rel.clone(), *size);
            },
            None => {},
        }
        i += 1;
    }
    proof {
        assert(answers@.take(i as int) =~= answers@);
    }
    sizes
}

// ---------------------------------------------------------------------------
// What can be skipped
// ---------------------------------------------------------------------------

/// Is a source file of this size with this tag at the destination already?
/// It is if a file of the same size is there, or if any file is there and an
/// earlier run brought over just this source file.
pub open spec fn is_skipped(
    existing: Map<Seq<char>, u64>,
    prev_sync: Map<Seq<char>, EntryView>,
    relative: Seq<char>,
    src_size: u64,
    src_etag: Option<Seq<char>>,
) -> bool {
    existing.contains_key(relative) && {
        ||| existing[relative] == src_size
        ||| prev_sync.contains_key(relative) && prev_sync[relative].describes(src_size, src_etag)
    }
}

/// A file that is not at the destination is copied. One that is there with
/// another size is copied too, unless the log has it with the size and the tag
/// that it has at the source. Any other file is skipped.
pub proof fn only_unchanged_files_are_skipped(
    existing: Map<Seq<char>, u64>,
    prev_sync: Map<Seq<char>, EntryView>,
    relative: Seq<char>,
    src_size: u64,
    src_etag: Option<Seq<char>>,
)
    ensures
        !existing.contains_key(relative) ==> !is_skipped(
            existing,
            prev_sync,
            relative,
            src_size,
            src_etag,
        ),
        existing.contains_key(relative) && existing[relative] == src_size ==> is_skipped(
            existing,
            prev_sync,
            relative,
            src_size,
            src_etag,
        ),
        existing.contains_key(relative) && existing[relative] != src_size ==> (is_skipped(
            existing,
            prev_sync,
            relative,
            src_size,
            src_etag,
        ) <==> prev_sync.contains_key(relative) && prev_sync[relative].source_size
            == src_size as i64 && prev_sync[relative].source_etag == src_etag),
{
}

/// Decides whether a source file is at the destination already. A file whose
/// paths were rewritten differs in size from its source; the log tells then.
pub fn should_skip(
    existing: &NameMap<u64>,
    prev_sync: &NameMap<Entry>,
    relative: &str,
    src_size: u64,
    src_etag: Option<&str>,
) -> (r: bool)
    ensures
        r == is_skipped(
            existing@,
            entries_in(prev_sync@),
            relative@,
            src_size,
            etag_text(src_etag),
        ),
{
    let dst_size: u64 = match existing.get(relative) {
        Some(size) => *size,
        None => return false,
    };
    if dst_size == src_size {
        return true;
    }
    match prev_sync.get(relative) {
        Some(entry) => entry.matches_source(src_size, src_etag),
        None => false,
    }
}

/// The last answer on a path tells its size. A path on which there was no
/// answer is not known.
pub proof fn last_answer_tells_the_size(answers: Seq<Option<(String, u64)>>, i: int, rel: Seq<char>)
    requires
        -1 <= i < answers.len(),
        forall|j: int|
            i < j < answers.len() ==> ((#[trigger] answers[j]) matches Some((r, _)) ==> r@ != rel),
        i >= 0 ==> (answers[i] matches Some((r, _)) && r@ == rel),
    ensures
        sizes_told(answers).contains_key(rel) <==> i >= 0,
        i >= 0 ==> sizes_told(answers)[rel] == (answers[i]->0).1,
    decreases answers.len(),
{
    if answers.len() > 0 {
        let init = answers.drop_last();
        let last = answers.len() - 1;
        if i < last {
            assert(answers[last] matches Some((r, _)) ==> r@ != rel);
            assert forall|j: int| i < j < init.len() implies ((#[trigger] init[j]) matches Some(
                (r, _),
            ) ==> r@ != rel) by {
                assert(init[j] == answers[j]);
            }
            last_answer_tells_the_size(init, i, rel);
        }
    }
}

} // verus!
