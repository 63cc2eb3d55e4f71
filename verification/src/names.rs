//! Sets of names, and maps from names to values.
use vstd::hash_map::StringHashMap;
use vstd::hash_set::StringHashSet;
use vstd::prelude::*;

use crate::order::texts;

verus! {

/// The names with one more, unless it is among them.
pub open spec fn with_name(names: Seq<Seq<char>>, name: Seq<char>) -> Seq<Seq<char>> {
    if names.contains(name) {
        names
    } else {
        names.push(name)
    }
}

/// The names without repetitions, each where it first stands.
pub open spec fn deduped(names: Seq<Seq<char>>) -> Seq<Seq<char>>
    decreases names.len(),
{
    if names.len() == 0 {
        Seq::empty()
    } else {
        with_name(deduped(names.drop_last()), names.last())
    }
}

/// Without repetitions the same names remain, each once.
pub proof fn deduped_names_are_the_same_names(names: Seq<Seq<char>>)
    ensures
        deduped(names).no_duplicates(),
        forall|name: Seq<char>| #[trigger] deduped(names).contains(name) <==> names.contains(name),
        deduped(names).len() <= names.len(),
    decreases names.len(),
{
    if names.len() > 0 {
        let init = names.drop_last();
        deduped_names_are_the_same_names(init);
        assert(names =~= init.push(names.last()));
        let d = deduped(init);
        let all = deduped(names);
        assert forall|name: Seq<char>| #[trigger] all.contains(name) <==> names.contains(name) by {
            assert(d.contains(name) <==> init.contains(name));
            if all.contains(name) && !d.contains(name) {
                assert(names[names.len() - 1] == name);
            }
            if d.contains(name) {
                let i = choose|i: int| 0 <= i < d.len() && d[i] == name;
                assert(all[i] == name);
                let j = choose|j: int| 0 <= j < init.len() && init[j] == name;
                assert(names[j] == name);
            }
            if names.contains(name) && !init.contains(name) {
                let i = choose|i: int| 0 <= i < names.len() && names[i] == name;
                if i < init.len() {
                    assert(init[i] == name);
                }
                assert(all[all.len() - 1] == name);
            }
        }
    }
}

/// The names with all of `more`, each unless it is among them.
pub open spec fn with_names(names: Seq<Seq<char>>, more: Seq<Seq<char>>) -> Seq<Seq<char>>
    decreases more.len(),
{
    if more.len() == 0 {
        names
    } else {
        with_name(with_names(names, more.drop_last()), more.last())
    }
}

/// Names that are added group by group are the names of all groups together.
pub proof fn groups_add_up(names: Seq<Seq<char>>, more: Seq<Seq<char>>)
    ensures
        with_names(deduped(names), more) == deduped(names + more),
    decreases more.len(),
{
    if more.len() == 0 {
        assert(names + more =~= names);
    } else {
        groups_add_up(names, more.drop_last());
        assert((names + more).drop_last() =~= names + more.drop_last());
    }
}

/// A set of names that remembers the order in which they came.
pub struct NameSet {
    items: Vec<String>,
    seen: StringHashSet,
}

impl View for NameSet {
    type V = Seq<Seq<char>>;

    /// The names, each once, in the order in which they came.
    closed spec fn view(&self) -> Seq<Seq<char>> {
        texts(self.items@)
    }
}

impl NameSet {
    #[verifier::type_invariant]
    spec fn valid(self) -> bool {
        &&& texts(self.items@).no_duplicates()
        &&& forall|name: Seq<char>| #[trigger]
            self.seen@.contains(name) <==> texts(self.items@).contains(name)
    }

    pub fn new() -> (r: NameSet)
        ensures
            r@ == Seq::<Seq<char>>::empty(),
    {
        let r = NameSet { items: Vec::new(), seen: StringHashSet::new() };
        proof {
            assert(r@ =~= Seq::<Seq<char>>::empty());
        }
        r
    }

    pub fn contains(&self, name: &str) -> (r: bool)
        ensures
            r == self@.contains(name@),
    {
        proof {
            use_type_invariant(self);
        }
        self.seen.contains(name)
    }

    /// Adds a name. `false` if it was there already.
    pub fn insert(&mut self, name: String) -> (r: bool)
        ensures
            r == !old(self)@.contains(name@),
            final(self)@ == with_name(old(self)@, name@),
    {
        proof {
            use_type_invariant(&*self);
        }
        if self.contains(name.as_str()) {
            return false;
        }
        let mut taken = NameSet::new();
        std::mem::swap(&mut taken, self);
        let mut items: Vec<String> = taken.items;
        let mut seen: StringHashSet = taken.seen;
        let ghost before = texts(items@);
        seen.insert(name.clone());
        items.push(name);
        proof {
            assert(texts(items@) =~= before.push(name@));
            assert forall|n: Seq<char>| #[trigger] seen@.contains(n) <==> texts(items@).contains(
                n,
            ) by {
                if texts(items@).contains(n) {
                    let i = choose|i: int| 0 <= i < items@.len() && texts(items@)[i] == n;
                    if i < before.len() {
                        assert(before[i] == n);
                    }
                }
                if before.contains(n) {
                    let i = choose|i: int| 0 <= i < before.len() && before[i] == n;
                    assert(texts(items@)[i] == n);
                }
                assert(texts(items@)[items@.len() - 1] == name@);
            }
        }
        *self = NameSet { items, seen };
        true
    }

    /// Adds several names.
    pub fn insert_all(&mut self, names: &Vec<String>)
        ensures
            final(self)@ == with_names(old(self)@, texts(names@)),
    {
        let ghost all = texts(names@);
        let ghost start = self@;
        let mut i: usize = 0;
        proof {
            assert(all.take(0) =~= Seq::<Seq<char>>::empty());
        }
        while i < names.len()
            invariant
                i <= names@.len(),
                all == texts(names@),
                self@ == with_names(start, all.take(i as int)),
            decreases names@.len() - i,
        {
            proof {
                assert(all.take(i + 1).drop_last() =~= all.take(i as int));
                assert(all.take(i + 1).last() == names@[i as int]@);
            }
            self.insert(names[i].clone());
            i += 1;
        }
        proof {
            assert(all.take(i as int) =~= all);
        }
    }

    pub fn len(&self) -> (r: usize)
        ensures
            r == self@.len(),
    {
        self.items.len()
    }

    /// The names, in the order in which they came.
    pub fn names(&self) -> (r: &Vec<String>)
        ensures
            texts(r@) == self@,
            texts(r@).no_duplicates(),
    {
        proof {
            use_type_invariant(self);
        }
        &self.items
    }

    /// The names, in the order in which they came.
    pub fn into_names(self) -> (r: Vec<String>)
        ensures
            texts(r@) == self@,
            texts(r@).no_duplicates(),
    {
        proof {
            use_type_invariant(&self);
        }
        self.items
    }
}

/// A map from names to values.
#[verifier::reject_recursive_types(V)]
pub struct NameMap<V> {
    map: StringHashMap<V>,
}

impl<V> View for NameMap<V> {
    type V = Map<Seq<char>, V>;

    closed spec fn view(&self) -> Map<Seq<char>, V> {
        self.map@
    }
}

impl<V> NameMap<V> {
    pub fn new() -> (r: NameMap<V>)
        ensures
            r@ == Map::<Seq<char>, V>::empty(),
    {
        NameMap { map: StringHashMap::new() }
    }

    pub fn insert(&mut self, name: String, value: V)
        ensures
            final(self)@ == old(self)@.insert(name@, value),
    {
        self.map.insert(name, value);
    }

    pub fn contains(&self, name: &str) -> (r: bool)
        ensures
            r == self@.contains_key(name@),
    {
        self.map.contains_key(name)
    }

    pub fn get(&self, name: &str) -> (r: Option<&V>)
        ensures
            match r {
                Some(v) => self@.contains_key(name@) && *v == self@[name@],
                None => !self@.contains_key(name@),
            },
    {
        self.map.get(name)
    }

    pub fn len(&self) -> (r: usize)
        ensures
            r == self@.len(),
    {
        self.map.len()
    }
}

/// A name that is new goes behind all that came before; one that is not new
/// changes nothing. So each name stands where it first came.
pub proof fn new_names_go_behind(names: Seq<Seq<char>>, name: Seq<char>)
    ensures
        deduped(Seq::empty()) == Seq::<Seq<char>>::empty(),
        !names.contains(name) ==> deduped(names.push(name)) == deduped(names).push(name),
        names.contains(name) ==> deduped(names.push(name)) == deduped(names),
{
    assert(names.push(name).drop_last() =~= names);
    deduped_names_are_the_same_names(names);
    assert(deduped(names).contains(name) <==> names.contains(name));
}

} // verus!
