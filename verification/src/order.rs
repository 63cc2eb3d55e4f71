//! The order of names: by their characters, which is also the order of their
//! bytes in UTF-8.
use vstd::prelude::*;

use crate::text::chars_of;

verus! {

/// Does `a` come before `b`?
pub open spec fn before(a: Seq<char>, b: Seq<char>) -> bool
    decreases a.len(),
{
    if b.len() == 0 {
        false
    } else if a.len() == 0 {
        true
    } else if a[0] == b[0] {
        before(a.skip(1), b.skip(1))
    } else {
        a[0] < b[0]
    }
}

/// No name comes before itself.
pub proof fn order_is_irreflexive(a: Seq<char>)
    ensures
        !before(a, a),
    decreases a.len(),
{
    if a.len() > 0 {
        order_is_irreflexive(a.skip(1));
    }
}

/// What comes before `b` comes before all that `b` comes before.
pub proof fn order_is_transitive(a: Seq<char>, b: Seq<char>, c: Seq<char>)
    requires
        before(a, b),
        before(b, c),
    ensures
        before(a, c),
    decreases a.len(),
{
    if a.len() > 0 && a[0] == b[0] && b[0] == c[0] {
        order_is_transitive(a.skip(1), b.skip(1), c.skip(1));
    }
}

/// Of two different names one comes before the other.
pub proof fn order_is_total(a: Seq<char>, b: Seq<char>)
    requires
        a != b,
    ensures
        before(a, b) || before(b, a),
    decreases a.len(),
{
    if a.len() == 0 {
        assert(a =~= Seq::<char>::empty());
        if b.len() == 0 {
            assert(a =~= b);
        }
    } else if b.len() > 0 && a[0] == b[0] {
        if a.skip(1) == b.skip(1) {
            assert(a =~= seq![a[0]] + a.skip(1));
            assert(b =~= seq![b[0]] + b.skip(1));
        }
        order_is_total(a.skip(1), b.skip(1));
    }
}

/// Of two names at most one comes before the other.
pub proof fn order_is_asymmetric(a: Seq<char>, b: Seq<char>)
    requires
        before(a, b),
    ensures
        !before(b, a),
{
    if before(b, a) {
        order_is_transitive(a, b, a);
        order_is_irreflexive(a);
    }
}

/// Tests whether `a` comes before `b`.
pub fn comes_before(a: &str, b: &str) -> (r: bool)
    ensures
        r == before(a@, b@),
{
    let ca = chars_of(a);
    let cb = chars_of(b);
    let mut i: usize = 0;
    proof {
        assert(a@.skip(0) =~= a@);
        assert(b@.skip(0) =~= b@);
    }
    while i < ca.len() && i < cb.len() && ca[i] == cb[i]
        invariant
            ca@ == a@,
            cb@ == b@,
            i <= ca@.len(),
            i <= cb@.len(),
            before(a@, b@) == before(a@.skip(i as int), b@.skip(i as int)),
        decreases ca@.len() - i,
    {
        proof {
            assert(a@.skip(i as int).skip(1) =~= a@.skip(i + 1));
            assert(b@.skip(i as int).skip(1) =~= b@.skip(i + 1));
        }
        i += 1;
    }
    if i == cb.len() {
        false
    } else if i == ca.len() {
        true
    } else {
        ca[i] < cb[i]
    }
}

/// Does the name at `x` go before the one at `y` in sorted order? Equal
/// names keep the order that they have.
pub open spec fn goes_first(names: Seq<Seq<char>>, x: int, y: int) -> bool {
    before(names[x], names[y]) || (names[x] == names[y] && x < y)
}

/// Are these the positions of all names, each once, in sorted order?
pub open spec fn is_sorted_order(names: Seq<Seq<char>>, order: Seq<int>) -> bool {
    &&& order.len() == names.len()
    &&& forall|i: int| 0 <= i < order.len() ==> 0 <= #[trigger] order[i] < names.len()
    &&& order.no_duplicates()
    &&& forall|i: int, j: int|
        0 <= i < j < order.len() ==> goes_first(names, #[trigger] order[i], #[trigger] order[j])
}

/// The names as texts.
pub open spec fn texts(names: Seq<String>) -> Seq<Seq<char>> {
    names.map_values(|s: String| s@)
}

/// The positions as integers.
pub open spec fn positions(order: Seq<usize>) -> Seq<int> {
    order.map_values(|i: usize| i as int)
}

proof fn lemma_insert_keeps_order(names: Seq<Seq<char>>, order: Seq<int>, n: int, p: int)
    requires
        0 <= n < names.len(),
        is_sorted_order(names.take(n), order),
        0 <= p <= n,
        forall|i: int| 0 <= i < p ==> !before(names[n], names[#[trigger] order[i]]),
        p < n ==> before(names[n], names[order[p]]),
    ensures
        is_sorted_order(names.take(n + 1), order.insert(p, n)),
{
    let out = order.insert(p, n);
    let all = names.take(n + 1);
    assert forall|i: int| 0 <= i < out.len() implies 0 <= #[trigger] out[i] < all.len() by {
        if i < p {
            assert(out[i] == order[i]);
        } else if i > p {
            assert(out[i] == order[i - 1]);
        }
    }
    assert forall|i: int, j: int| 0 <= i < j < out.len() implies #[trigger] out[i]
        != #[trigger] out[j] && goes_first(all, out[i], out[j]) by {
        let oi = if i < p {
            i
        } else {
            i - 1
        };
        let oj = if j < p {
            j
        } else {
            j - 1
        };
        if i == p {
            assert(out[j] == order[oj]);
            let m = order[oj];
            if oj > p {
                assert(goes_first(names.take(n), order[p], order[oj]));
                if before(names[order[p]], names[m]) {
                    order_is_transitive(names[n], names[order[p]], names[m]);
                }
            }
            assert(before(names[n], names[m]));
        } else if j == p {
            assert(out[i] == order[oi]);
            let m = order[oi];
            if names[m] != names[n] {
                order_is_total(names[m], names[n]);
            }
        } else {
            assert(out[i] == order[oi]);
            assert(out[j] == order[oj]);
            assert(goes_first(names.take(n), order[oi], order[oj]));
        }
    }
    assert(out.no_duplicates()) by {
        assert forall|i: int, j: int|
            0 <= i < out.len() && 0 <= j < out.len() && i != j implies out[i] != out[j] by {
            if i < j {
                assert(out[i] != out[j]);
            } else {
                assert(out[j] != out[i]);
            }
        }
    }
}

/// The positions of the names in sorted order.
pub fn sorted_order(names: &Vec<String>) -> (r: Vec<usize>)
    ensures
        is_sorted_order(texts(names@), positions(r@)),
{
    let mut order: Vec<usize> = Vec::new();
    let mut n: usize = 0;
    let ghost all = texts(names@);
    proof {
        assert(positions(order@) =~= Seq::<int>::empty());
        assert(all.take(0) =~= Seq::<Seq<char>>::empty());
    }
    while n < names.len()
        invariant
            n <= names@.len(),
            all == texts(names@),
            is_sorted_order(all.take(n as int), positions(order@)),
        decreases names@.len() - n,
    {
        let mut p: usize = 0;
        let ghost at = positions(order@);
        proof {
            assert forall|i: int| 0 <= i < order@.len() implies #[trigger] order@[i]
                < names@.len() by {
                assert(at[i] == order@[i]);
            }
        }
        while p < order.len() && !comes_before(names[n].as_str(), names[order[p]].as_str())
            invariant
                n < names@.len(),
                all == texts(names@),
                at == positions(order@),
                is_sorted_order(all.take(n as int), at),
                p <= order@.len(),
                order@.len() == n,
                forall|i: int| 0 <= i < order@.len() ==> #[trigger] order@[i] < names@.len(),
                forall|i: int| 0 <= i < p ==> !before(all[n as int], all[#[trigger] at[i]]),
            decreases order@.len() - p,
        {
            p += 1;
        }
        proof {
            if p < n {
                assert(at[p as int] == order@[p as int]);
            }
            lemma_insert_keeps_order(all, at, n as int, p as int);
        }
        order.insert(p, n);
        proof {
            assert(positions(order@) =~= at.insert(p as int, n as int));
        }
        n += 1;
    }
    proof {
        assert(all.take(n as int) =~= all);
    }
    order
}

/// Where two names first differ decides which of them comes first.
pub proof fn first_difference_decides(a: Seq<char>, b: Seq<char>, i: int)
    requires
        0 <= i < a.len(),
        i < b.len(),
        a.take(i) == b.take(i),
    ensures
        a[i] < b[i] ==> before(a, b),
        a[i] > b[i] ==> !before(a, b),
    decreases i,
{
    if i > 0 {
        assert(a[0] == a.take(i)[0]);
        assert(b[0] == b.take(i)[0]);
        assert(a.skip(1).take(i - 1) =~= a.take(i).skip(1));
        assert(b.skip(1).take(i - 1) =~= b.take(i).skip(1));
        first_difference_decides(a.skip(1), b.skip(1), i - 1);
    }
}

/// A name comes before every longer name that it begins.
pub proof fn beginning_comes_before_the_whole(a: Seq<char>, rest: Seq<char>)
    requires
        rest.len() > 0,
    ensures
        before(a, a + rest),
    decreases a.len(),
{
    if a.len() > 0 {
        beginning_comes_before_the_whole(a.skip(1), rest);
        assert((a + rest).skip(1) =~= a.skip(1) + rest);
    }
}

/// In sorted order no name stands behind one that it comes before, and equal
/// names stand as they stood. Every position is there.
pub proof fn sorted_names_come_in_order(names: Seq<Seq<char>>, order: Seq<int>, k: int)
    requires
        is_sorted_order(names, order),
        0 <= k < names.len(),
    ensures
        order.len() == names.len(),
        order.contains(k),
        forall|i: int, j: int|
            0 <= i < j < order.len() ==> !before(
                names[#[trigger] order[j]],
                names[#[trigger] order[i]],
            ),
        forall|i: int, j: int|
            0 <= i < j < order.len() && names[#[trigger] order[i]] == names[#[trigger] order[j]]
                ==> order[i] < order[j],
{
    let all = vstd::set_lib::set_int_range(0, names.len() as int);
    vstd::set_lib::lemma_int_range(0, names.len() as int);
    order.unique_seq_to_set();
    assert(order.to_set().subset_of(all));
    vstd::set_lib::lemma_subset_equality(order.to_set(), all);
    assert(order.to_set().contains(k));
    assert forall|i: int, j: int| 0 <= i < j < order.len() implies !before(
        names[#[trigger] order[j]],
        names[#[trigger] order[i]],
    ) && (names[order[i]] == names[order[j]] ==> order[i] < order[j]) by {
        assert(goes_first(names, order[i], order[j]));
        order_is_irreflexive(names[order[i]]);
        if before(names[order[i]], names[order[j]]) {
            order_is_asymmetric(names[order[i]], names[order[j]]);
        }
    }
}

} // verus!
