//! The tables below a location, found by the names of directories.
//!
//! A location may be a table, which has a `metadata` directory; a namespace,
//! whose directories are tables; or a root, whose directories are namespaces.
//! There is no catalog: tables and namespaces are known by their UUIDs alone.
use vstd::prelude::*;

use crate::iceberg::layout::{
    before_last_part, join, joined, keep_uuids, last_part, last_segment, uuids_among,
    without_last_segment,
};
use crate::order::texts;
use crate::show::grid::{grid_lines, grid_text, row_texts};
use crate::text::same_text;

verus! {

/// What stands for a UUID that the path does not give.
pub const UNKNOWN: &'static str = "(unknown)";

/// A table and the namespace that it is in.
#[derive(Debug, PartialEq, Eq)]
pub struct TableEntry {
    pub namespace: String,
    pub table: String,
}

impl View for TableEntry {
    type V = (Seq<char>, Seq<char>);

    open spec fn view(&self) -> (Seq<char>, Seq<char>) {
        (self.namespace@, self.table@)
    }
}

/// The entries, for contracts.
pub open spec fn entries_of(entries: Seq<TableEntry>) -> Seq<(Seq<char>, Seq<char>)> {
    entries.map_values(|e: TableEntry| e@)
}

/// The last segment of a path, or what stands for an unknown one.
pub open spec fn last_or_unknown(path: Seq<char>) -> Seq<char> {
    match last_part(path) {
        Some(name) => name,
        None => UNKNOWN@,
    }
}

fn name_of(path: &str) -> (r: String)
    ensures
        r@ == last_or_unknown(path@),
{
    match last_segment(path) {
        Some(name) => name.to_owned(),
        None => UNKNOWN.to_owned(),
    }
}

/// The namespace and the table that a path ends with.
pub fn split_ns_and_table(p: &str) -> (r: (String, String))
    ensures
        r.0@ == last_or_unknown(before_last_part(p@)),
        r.1@ == last_or_unknown(p@),
{
    (name_of(without_last_segment(p)), name_of(p))
}

// ---------------------------------------------------------------------------
// Finding the tables
// ---------------------------------------------------------------------------

/// The tables of a namespace with these subdirectories.
pub open spec fn tables_in(namespace: Seq<char>, subdirs: Seq<Seq<char>>) -> Seq<
    (Seq<char>, Seq<char>),
> {
    uuids_among(subdirs).map_values(|table: Seq<char>| (namespace, table))
}

/// The tables of the first `n` namespaces.
pub open spec fn tables_in_first(
    dirs: spec_fn(Seq<char>) -> Seq<Seq<char>>,
    prefix: Seq<char>,
    namespaces: Seq<Seq<char>>,
    n: nat,
) -> Seq<(Seq<char>, Seq<char>)>
    decreases n,
{
    if n == 0 {
        Seq::empty()
    } else {
        tables_in_first(dirs, prefix, namespaces, (n - 1) as nat) + tables_in(
            namespaces[n - 1],
            dirs(joined(prefix, namespaces[n - 1])),
        )
    }
}

/// All tables below a location, where `dirs` gives the subdirectories of
/// every directory. Whether it is a namespace or a root is seen by the first
/// subdirectory that is a UUID.
pub open spec fn tables_under(
    dirs: spec_fn(Seq<char>) -> Seq<Seq<char>>,
    prefix: Seq<char>,
) -> Seq<(Seq<char>, Seq<char>)> {
    let uuids = uuids_among(dirs(prefix));
    if dirs(prefix).contains("metadata"@) {
        seq![(last_or_unknown(before_last_part(prefix)), last_or_unknown(prefix))]
    } else if uuids.len() == 0 {
        Seq::empty()
    } else if dirs(joined(prefix, uuids[0])).contains("metadata"@) {
        uuids.map_values(|table: Seq<char>| (last_or_unknown(prefix), table))
    } else {
        tables_in_first(dirs, prefix, uuids, uuids.len())
    }
}

/// How far the search has come.
pub ghost enum SearchView {
    /// The location itself is to be listed.
    Top,
    /// The first of these subdirectories is to be listed.
    Probe(Seq<Seq<char>>),
    /// These are namespaces; the one at the position is to be listed.
    Inside { namespaces: Seq<Seq<char>>, at: nat, found: Seq<(Seq<char>, Seq<char>)> },
}

/// What to do next in a search.
pub ghost enum SearchStep {
    List { path: Seq<char>, next: SearchView },
    Found(Seq<(Seq<char>, Seq<char>)>),
}

/// The next step once the tables of some namespaces are known.
pub open spec fn step_inside(
    prefix: Seq<char>,
    namespaces: Seq<Seq<char>>,
    at: nat,
    found: Seq<(Seq<char>, Seq<char>)>,
) -> SearchStep {
    if at < namespaces.len() {
        SearchStep::List {
            path: joined(prefix, namespaces[at as int]),
            next: SearchView::Inside { namespaces, at, found },
        }
    } else {
        SearchStep::Found(found)
    }
}

/// The next step after a listing.
pub open spec fn step_after(prefix: Seq<char>, search: SearchView, subdirs: Seq<Seq<char>>) -> SearchStep {
    match search {
        SearchView::Top => {
            let uuids = uuids_among(subdirs);
            if subdirs.contains("metadata"@) {
                SearchStep::Found(
                    seq![(last_or_unknown(before_last_part(prefix)), last_or_unknown(prefix))],
                )
            } else if uuids.len() == 0 {
                SearchStep::Found(Seq::empty())
            } else {
                SearchStep::List {
                    path: joined(prefix, uuids[0]),
                    next: SearchView::Probe(uuids),
                }
            }
        },
        SearchView::Probe(uuids) => if subdirs.contains("metadata"@) {
            SearchStep::Found(
                uuids.map_values(|table: Seq<char>| (last_or_unknown(prefix), table)),
            )
        } else {
            step_inside(prefix, uuids, 1, tables_in(uuids[0], subdirs))
        },
        SearchView::Inside { namespaces, at, found } => step_inside(
            prefix,
            namespaces,
            at + 1,
            found + tables_in(namespaces[at as int], subdirs),
        ),
    }
}

enum SearchStage {
    Top,
    Probe(Vec<String>),
    Inside { namespaces: Vec<String>, at: usize, found: Vec<TableEntry> },
}

/// A search for tables. It asks for listings one by one.
pub struct Discovery {
    prefix: String,
    stage: SearchStage,
}

/// What to do next in a search.
pub enum DiscoveryStep {
    /// List the subdirectories of the path, and go on with them.
    List { path: String, next: Discovery },
    /// These are the tables.
    Found(Vec<TableEntry>),
}

impl DiscoveryStep {
    /// The step, for contracts.
    pub open spec fn step(self) -> SearchStep {
        match self {
            DiscoveryStep::List { path, next } => SearchStep::List {
                path: path@,
                next: next.search(),
            },
            DiscoveryStep::Found(entries) => SearchStep::Found(entries_of(entries@)),
        }
    }
}

fn has_metadata(subdirs: &Vec<String>) -> (r: bool)
    ensures
        r == texts(subdirs@).contains("metadata"@),
{
    let mut i: usize = 0;
    while i < subdirs.len()
        invariant
            i <= subdirs@.len(),
            forall|j: int| 0 <= j < i ==> (#[trigger] texts(subdirs@)[j]) != "metadata"@,
        decreases subdirs@.len() - i,
    {
        if same_text(subdirs[i].as_str(), "metadata") {
            proof {
                assert(texts(subdirs@)[i as int] == "metadata"@);
            }
            return true;
        }
        i += 1;
    }
    false
}

/// Appends an entry for each of the tables.
fn push_tables(found: &mut Vec<TableEntry>, namespace: &str, tables: &Vec<String>)
    ensures
        entries_of(final(found)@) == entries_of(old(found)@) + texts(tables@).map_values(
            |table: Seq<char>| (namespace@, table),
        ),
{
    let ghost before = entries_of(found@);
    let ghost added = texts(tables@).map_values(|table: Seq<char>| (namespace@, table));
    let mut i: usize = 0;
    proof {
        assert(entries_of(found@) =~= before + added.take(0));
    }
    while i < tables.len()
        invariant
            i <= tables@.len(),
            added == texts(tables@).map_values(|table: Seq<char>| (namespace@, table)),
            entries_of(found@) == before + added.take(i as int),
        decreases tables@.len() - i,
    {
        let ghost earlier = entries_of(found@);
        found.push(TableEntry { namespace: namespace.to_owned(), table: tables[i].clone() });
        proof {
            assert(entries_of(found@) =~= earlier.push(added[i as int]));
            assert(earlier.push(added[i as int]) =~= before + added.take(i + 1));
        }
        i += 1;
    }
    proof {
        assert(added.take(added.len() as int) =~= added);
    }
}

impl Discovery {
    #[verifier::type_invariant]
    spec fn wf(self) -> bool {
        match self.stage {
            SearchStage::Top => true,
            SearchStage::Probe(uuids) => uuids@.len() > 0,
            SearchStage::Inside { namespaces, at, .. } => at < namespaces@.len(),
        }
    }

    /// The location that is searched.
    pub closed spec fn location(self) -> Seq<char> {
        self.prefix@
    }

    /// How far the search has come.
    pub closed spec fn search(self) -> SearchView {
        match self.stage {
            SearchStage::Top => SearchView::Top,
            SearchStage::Probe(uuids) => SearchView::Probe(texts(uuids@)),
            SearchStage::Inside { namespaces, at, found } => SearchView::Inside {
                namespaces: texts(namespaces@),
                at: at as nat,
                found: entries_of(found@),
            },
        }
    }

    /// Starts a search. The location itself is to be listed first.
    pub fn new(location_prefix: &str) -> (r: Discovery)
        ensures
            r.location() == location_prefix@,
            r.search() is Top,
    {
        Discovery { prefix: location_prefix.to_owned(), stage: SearchStage::Top }
    }

    fn inside(
        prefix: String,
        namespaces: Vec<String>,
        at: usize,
        found: Vec<TableEntry>,
    ) -> (r: DiscoveryStep)
        requires
            at <= namespaces@.len(),
        ensures
            r.step() == step_inside(
                prefix@,
                texts(namespaces@),
                at as nat,
                entries_of(found@),
            ),
            r matches DiscoveryStep::List { next, .. } ==> next.location() == prefix@,
    {
        if at < namespaces.len() {
            let path = join(prefix.as_str(), namespaces[at].as_str());
            DiscoveryStep::List {
                path,
                next: Discovery { prefix, stage: SearchStage::Inside { namespaces, at, found } },
            }
        } else {
            DiscoveryStep::Found(found)
        }
    }

    /// Goes on with the subdirectories that the listing gave.
    pub fn take(self, subdirs: Vec<String>) -> (r: DiscoveryStep)
        ensures
            r.step() == step_after(self.location(), self.search(), texts(subdirs@)),
            r matches DiscoveryStep::List { next, .. } ==> next.location() == self.location(),
    {
        proof {
            use_type_invariant(&self);
        }
        let Discovery { prefix, stage } = self;
        match stage {
            SearchStage::Top => {
                let mut found: Vec<TableEntry> = Vec::new();
                if has_metadata(&subdirs) {
                    let (namespace, table) = split_ns_and_table(prefix.as_str());
                    found.push(TableEntry { namespace, table });
                    proof {
                        assert(entries_of(found@) =~= seq![
                            (last_or_unknown(before_last_part(prefix@)), last_or_unknown(prefix@)),
                        ]);
                    }
                    return DiscoveryStep::Found(found);
                }
                let uuids = keep_uuids(subdirs);
                if uuids.len() == 0 {
                    proof {
                        assert(entries_of(found@) =~= Seq::empty());
                    }
                    return DiscoveryStep::Found(found);
                }
                let path = join(prefix.as_str(), uuids[0].as_str());
                DiscoveryStep::List {
                    path,
                    next: Discovery { prefix, stage: SearchStage::Probe(uuids) },
                }
            },
            SearchStage::Probe(uuids) => {
                let mut found: Vec<TableEntry> = Vec::new();
                proof {
                    assert(entries_of(found@) =~= Seq::empty());
                }
                if has_metadata(&subdirs) {
                    let namespace = name_of(prefix.as_str());
                    push_tables(&mut found, namespace.as_str(), &uuids);
                    proof {
                        assert(entries_of(found@) =~= texts(uuids@).map_values(
                            |table: Seq<char>| (last_or_unknown(prefix@), table),
                        ));
                    }
                    return DiscoveryStep::Found(found);
                }
                let tables = keep_uuids(subdirs);
                push_tables(&mut found, uuids[0].as_str(), &tables);
                proof {
                    assert(entries_of(found@) =~= tables_in(texts(uuids@)[0], texts(subdirs@)));
                }
                Discovery::inside(prefix, uuids, 1, found)
            },
            SearchStage::Inside { namespaces, at, found } => {
                let mut found = found;
                let total: usize = namespaces.len();
                proof {
                    assert(at < total);
                }
                let tables = keep_uuids(subdirs);
                push_tables(&mut found, namespaces[at].as_str(), &tables);
                Discovery::inside(prefix, namespaces, at + 1, found)
            },
        }
    }
}

// ---------------------------------------------------------------------------
// What a whole search finds
// ---------------------------------------------------------------------------

/// What a search finds that is at the path: its listings, and the tables.
pub open spec fn outcome(
    dirs: spec_fn(Seq<char>) -> Seq<Seq<char>>,
    prefix: Seq<char>,
    search: SearchView,
    path: Seq<char>,
) -> (nat, Seq<(Seq<char>, Seq<char>)>)
    decreases
            (match search {
                SearchView::Top => 2nat,
                SearchView::Probe(_) => 1nat,
                SearchView::Inside { .. } => 0nat,
            }),
            (match search {
                SearchView::Inside { namespaces, at, .. } => if at < namespaces.len() {
                    (namespaces.len() - at) as nat
                } else {
                    0nat
                },
                _ => 0nat,
            }),
    when search matches SearchView::Inside { namespaces, at, .. } ==> at < namespaces.len()
{
    match step_after(prefix, search, dirs(path)) {
        SearchStep::List { path: next_path, next } => {
            let (listings, tables) = outcome(dirs, prefix, next, next_path);
            (listings + 1, tables)
        },
        SearchStep::Found(tables) => (1, tables),
    }
}

proof fn lemma_inside(
    dirs: spec_fn(Seq<char>) -> Seq<Seq<char>>,
    prefix: Seq<char>,
    namespaces: Seq<Seq<char>>,
    at: nat,
)
    requires
        at < namespaces.len(),
    ensures
        outcome(
            dirs,
            prefix,
            SearchView::Inside {
                namespaces,
                at,
                found: tables_in_first(dirs, prefix, namespaces, at),
            },
            joined(prefix, namespaces[at as int]),
        ) == (
            (namespaces.len() - at) as nat,
            tables_in_first(dirs, prefix, namespaces, namespaces.len()),
        ),
    decreases namespaces.len() - at,
{
    assert(((at + 1) - 1) as nat == at);
    if at + 1 < namespaces.len() {
        lemma_inside(dirs, prefix, namespaces, at + 1);
    }
}

/// A search finds all tables below its location, and nothing else, as long as
/// the directories stay as they are. It lists one directory for a table, two
/// for a namespace, and for a root one more than there are namespaces.
pub proof fn search_finds_all_tables(
    dirs: spec_fn(Seq<char>) -> Seq<Seq<char>>,
    prefix: Seq<char>,
)
    ensures
        ({
            let uuids = uuids_among(dirs(prefix));
            let (listings, tables) = outcome(dirs, prefix, SearchView::Top, prefix);
            &&& tables == tables_under(dirs, prefix)
            &&& listings == if dirs(prefix).contains("metadata"@) || uuids.len() == 0 {
                1nat
            } else if dirs(joined(prefix, uuids[0])).contains("metadata"@) {
                2nat
            } else {
                1 + uuids.len()
            }
        }),
{
    let uuids = uuids_among(dirs(prefix));
    if !dirs(prefix).contains("metadata"@) && uuids.len() > 0 {
        let first = joined(prefix, uuids[0]);
        if !dirs(first).contains("metadata"@) {
            let found = tables_in(uuids[0], dirs(first));
            reveal_with_fuel(tables_in_first, 2);
            assert(tables_in_first(dirs, prefix, uuids, 1) =~= found);
            if uuids.len() > 1 {
                lemma_inside(dirs, prefix, uuids, 1);
            }
        }
    }
    reveal_with_fuel(outcome, 3);
}

// ---------------------------------------------------------------------------
// Printing them
// ---------------------------------------------------------------------------

/// The tables as lines.
pub open spec fn pairs_text(pairs: Seq<(Seq<char>, Seq<char>)>) -> Seq<Seq<char>> {
    if pairs.len() == 0 {
        seq!["No tables found."@]
    } else {
        grid_text(
            seq!["namespace"@, "table"@],
            pairs.map_values(|p: (Seq<char>, Seq<char>)| seq![p.0, p.1]),
        )
    }
}

/// The tables as lines.
pub fn pair_lines(pairs: &Vec<TableEntry>) -> (r: Vec<String>)
    ensures
        texts(r@) == pairs_text(entries_of(pairs@)),
{
    if pairs.len() == 0 {
        let mut out: Vec<String> = Vec::new();
        out.push("No tables found.".to_owned());
        proof {
            assert(texts(out@) =~= seq!["No tables found."@]);
        }
        return out;
    }
    let mut headers: Vec<String> = Vec::new();
    headers.push("namespace".to_owned());
    headers.push("table".to_owned());
    proof {
        assert(texts(headers@) =~= seq!["namespace"@, "table"@]);
    }
    let mut rows: Vec<Vec<String>> = Vec::new();
    let mut i: usize = 0;
    while i < pairs.len()
        invariant
            i <= pairs@.len(),
            rows@.len() == i,
            forall|j: int|
                0 <= j < i ==> texts((#[trigger] rows@[j])@) == seq![
                    pairs@[j].namespace@,
                    pairs@[j].table@,
                ],
        decreases pairs@.len() - i,
    {
        let mut row: Vec<String> = Vec::new();
        row.push(pairs[i].namespace.clone());
        row.push(pairs[i].table.clone());
        proof {
            assert(texts(row@) =~= seq![
                pairs@[i as int].namespace@,
                pairs@[i as int].table@,
            ]);
        }
        rows.push(row);
        i += 1;
    }
    proof {
        assert forall|j: int| 0 <= j < rows@.len() implies (#[trigger] rows@[j])@.len()
            == headers@.len() by {
            assert(texts(rows@[j]@).len() == 2);
        }
        assert(row_texts(rows@) =~= entries_of(pairs@).map_values(
            |p: (Seq<char>, Seq<char>)| seq![p.0, p.1],
        ));
    }
    grid_lines(&headers, &rows)
}

// ---------------------------------------------------------------------------
// Which tables these are
// ---------------------------------------------------------------------------

proof fn lemma_tables_in_first(
    dirs: spec_fn(Seq<char>) -> Seq<Seq<char>>,
    prefix: Seq<char>,
    namespaces: Seq<Seq<char>>,
    n: nat,
    namespace: Seq<char>,
    table: Seq<char>,
)
    requires
        n <= namespaces.len(),
    ensures
        tables_in_first(dirs, prefix, namespaces, n).contains((namespace, table)) <==> exists|i: int|
            0 <= i < n && #[trigger] namespaces[i] == namespace && dirs(
                prefix + "/"@ + namespace,
            ).contains(table) && crate::iceberg::ident::uuid_of(table) is Some,
    decreases n,
{
    if n > 0 {
        let m = (n - 1) as nat;
        lemma_tables_in_first(dirs, prefix, namespaces, m, namespace, table);
        let before = tables_in_first(dirs, prefix, namespaces, m);
        let ns = namespaces[m as int];
        let uuids = uuids_among(dirs(joined(prefix, ns)));
        let here = tables_in(ns, dirs(joined(prefix, ns)));
        let all = before + here;
        let pair = (namespace, table);
        crate::iceberg::layout::uuids_and_nothing_else_are_kept(dirs(joined(prefix, ns)), table);
        if before.contains(pair) {
            let k = choose|k: int| 0 <= k < before.len() && before[k] == pair;
            assert(all[k] == pair);
        }
        if ns == namespace && uuids.contains(table) {
            let k = choose|k: int| 0 <= k < uuids.len() && uuids[k] == table;
            assert(here[k] == pair);
            assert(all[before.len() + k] == pair);
            assert(namespaces[m as int] == namespace);
        }
        if all.contains(pair) {
            let k = choose|k: int| 0 <= k < all.len() && all[k] == pair;
            if k < before.len() {
                assert(before[k] == pair);
            } else {
                assert(here[k - before.len()] == pair);
                assert(uuids[k - before.len()] == table);
                assert(namespaces[m as int] == namespace);
            }
        }
    }
}

/// Below a root a table is found exactly if it is a subdirectory, named by a
/// UUID, of a subdirectory of the root that is named by a UUID; its namespace
/// is that directory.
pub proof fn tables_of_a_root_are_two_levels_down(
    dirs: spec_fn(Seq<char>) -> Seq<Seq<char>>,
    prefix: Seq<char>,
    namespace: Seq<char>,
    table: Seq<char>,
)
    requires
        !dirs(prefix).contains("metadata"@),
        forall|name: Seq<char>|
            dirs(prefix).contains(name) ==> !(#[trigger] dirs(prefix + "/"@ + name)).contains(
                "metadata"@,
            ),
    ensures
        tables_under(dirs, prefix).contains((namespace, table)) <==> {
            &&& dirs(prefix).contains(namespace)
            &&& crate::iceberg::ident::uuid_of(namespace) is Some
            &&& dirs(prefix + "/"@ + namespace).contains(table)
            &&& crate::iceberg::ident::uuid_of(table) is Some
        },
{
    let uuids = uuids_among(dirs(prefix));
    crate::iceberg::layout::uuids_and_nothing_else_are_kept(dirs(prefix), namespace);
    if uuids.len() > 0 {
        crate::iceberg::layout::uuids_and_nothing_else_are_kept(dirs(prefix), uuids[0]);
        assert(uuids.contains(uuids[0]));
        assert(joined(prefix, uuids[0]) == prefix + "/"@ + uuids[0]);
        lemma_tables_in_first(dirs, prefix, uuids, uuids.len(), namespace, table);
        if uuids.contains(namespace) {
            let i = choose|i: int| 0 <= i < uuids.len() && uuids[i] == namespace;
            assert(uuids[i] == namespace);
        }
    }
}

/// Below a namespace a table is found exactly if it is a subdirectory named by
/// a UUID; the namespace is the last segment of the location.
pub proof fn tables_of_a_namespace_are_its_directories(
    dirs: spec_fn(Seq<char>) -> Seq<Seq<char>>,
    dir: Seq<char>,
    name: Seq<char>,
    namespace: Seq<char>,
    table: Seq<char>,
)
    requires
        name.len() > 0,
        !name.contains('/'),
        !dirs(dir + "/"@ + name).contains("metadata"@),
        forall|sub: Seq<char>|
            dirs(dir + "/"@ + name).contains(sub) && crate::iceberg::ident::uuid_of(sub) is Some
                ==> (#[trigger] dirs(dir + "/"@ + name + "/"@ + sub)).contains("metadata"@),
    ensures
        tables_under(dirs, dir + "/"@ + name).contains((namespace, table)) <==> {
            &&& namespace == name
            &&& dirs(dir + "/"@ + name).contains(table)
            &&& crate::iceberg::ident::uuid_of(table) is Some
        },
{
    let prefix = dir + "/"@ + name;
    let uuids = uuids_among(dirs(prefix));
    crate::iceberg::layout::joined_path_ends_with_its_name(dir, name, 0);
    assert(joined(dir, name) + crate::text::repeated('/', 0) =~= prefix);
    crate::iceberg::layout::uuids_and_nothing_else_are_kept(dirs(prefix), table);
    if uuids.len() > 0 {
        crate::iceberg::layout::uuids_and_nothing_else_are_kept(dirs(prefix), uuids[0]);
        assert(uuids.contains(uuids[0]));
        assert(joined(prefix, uuids[0]) == prefix + "/"@ + uuids[0]);
        let found = uuids.map_values(|t: Seq<char>| (last_or_unknown(prefix), t));
        if found.contains((namespace, table)) {
            let i = choose|i: int| 0 <= i < found.len() && found[i] == (namespace, table);
            assert(uuids[i] == table);
        }
        if namespace == name && uuids.contains(table) {
            let i = choose|i: int| 0 <= i < uuids.len() && uuids[i] == table;
            assert(found[i] == (namespace, table));
        }
    }
}

/// A location with a metadata directory is one table: its name is the last
/// segment of the location, its namespace the one before. What a path does not
/// give is shown as unknown.
pub proof fn table_is_known_by_its_metadata(
    dirs: spec_fn(Seq<char>) -> Seq<Seq<char>>,
    dir: Seq<char>,
    namespace: Seq<char>,
    table: Seq<char>,
)
    requires
        table.len() > 0,
        !table.contains('/'),
        namespace.len() > 0,
        !namespace.contains('/'),
    ensures
        dirs(dir + "/"@ + namespace + "/"@ + table).contains("metadata"@) ==> tables_under(
            dirs,
            dir + "/"@ + namespace + "/"@ + table,
        ) == seq![(namespace, table)],
        dirs(namespace + "/"@ + table).contains("metadata"@) ==> tables_under(
            dirs,
            namespace + "/"@ + table,
        ) == seq![(namespace, table)],
        dirs(table).contains("metadata"@) ==> tables_under(dirs, table) == seq![
            ("(unknown)"@, table),
        ],
{
    reveal_strlit("/");
    let parent = dir + "/"@ + namespace;
    crate::iceberg::layout::joined_path_ends_with_its_name(parent, table, 0);
    crate::iceberg::layout::joined_path_ends_with_its_name(dir, namespace, 1);
    assert(joined(parent, table) + crate::text::repeated('/', 0) =~= parent + "/"@ + table);
    assert(joined(dir, namespace) + crate::text::repeated('/', 1) =~= parent + "/"@);
    crate::iceberg::layout::joined_path_ends_with_its_name(namespace, table, 0);
    assert(joined(namespace, table) + crate::text::repeated('/', 0) =~= namespace + "/"@ + table);
    assert(namespace + crate::text::repeated('/', 1) =~= namespace + "/"@);
    crate::iceberg::layout::joined_path_ends_with_its_name(dir, namespace, 1);
    crate::iceberg::layout::joined_path_ends_with_its_name(dir, table, 0);
    assert(table + crate::text::repeated('/', 0) =~= table);
    let none = before_last_part(table);
    assert(none =~= Seq::<char>::empty());
    crate::iceberg::layout::joined_path_ends_with_its_name(dir, table, 0);
    assert(crate::text::repeated('/', 0) =~= none);
}

/// The tables are shown one to a line, in order, the namespace before the
/// table; that there are none is said.
pub proof fn every_table_has_its_line(pairs: Seq<(Seq<char>, Seq<char>)>, i: int)
    requires
        0 <= i < pairs.len(),
    ensures
        ({
            let rows = pairs.map_values(|p: (Seq<char>, Seq<char>)| seq![p.0, p.1]);
            let headers = seq!["namespace"@, "table"@];
            let widths = Seq::new(
                2,
                |c: int| crate::show::grid::column_width(headers, rows, c),
            );
            let lines = pairs_text(pairs);
            &&& lines.len() == pairs.len() + 2
            &&& lines[0] == crate::show::grid::row_line(headers, widths)
            &&& lines[i + 2] == crate::show::grid::row_line(seq![pairs[i].0, pairs[i].1], widths)
        }),
        pairs_text(Seq::empty()) == seq!["No tables found."@],
{
    let rows = pairs.map_values(|p: (Seq<char>, Seq<char>)| seq![p.0, p.1]);
    let headers = seq!["namespace"@, "table"@];
    crate::show::grid::table_has_a_line_for_each_row(headers, rows);
    let widths = Seq::new(2, |c: int| crate::show::grid::column_width(headers, rows, c));
    assert(widths =~= Seq::new(
        headers.len(),
        |c: int| crate::show::grid::column_width(headers, rows, c),
    ));
    assert(rows[i] == seq![pairs[i].0, pairs[i].1]);
}

} // verus!
