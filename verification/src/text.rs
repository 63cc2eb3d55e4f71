//! Text as sequences of characters: searching, trimming, cutting, replacing,
//! and filling up to a width.
use vstd::prelude::*;

verus! {

/// `String::push` of the standard library: appends one character to the end
/// of the string.
pub assume_specification[ String::push ](s: &mut String, c: char)
    ensures
        final(s)@ == old(s)@.push(c),
;

// ---------------------------------------------------------------------------
// Characters and slices
// ---------------------------------------------------------------------------

/// The characters of `s`, in order.
pub fn chars_of(s: &str) -> (r: Vec<char>)
    ensures
        r@ == s@,
{
    let mut out: Vec<char> = Vec::new();
    for c in it: s.chars()
        invariant
            out@ == it.seq().take(it.index() as int),
            it.seq() == s@,
    {
        out.push(c);
    }
    out
}

/// The characters of `v` from `from` up to `to`, as a string.
pub fn string_of(v: &Vec<char>, from: usize, to: usize) -> (r: String)
    requires
        from <= to <= v@.len(),
    ensures
        r@ == v@.subrange(from as int, to as int),
{
    let mut out: String = String::new();
    let mut i: usize = from;
    while i < to
        invariant
            from <= i <= to <= v@.len(),
            out@ == v@.subrange(from as int, i as int),
        decreases to - i,
    {
        out.push(v[i]);
        i += 1;
    }
    out
}

/// Do `a` and `b` hold the same characters?
pub fn same_text(a: &str, b: &str) -> (r: bool)
    ensures
        r == (a@ == b@),
{
    let x: String = a.to_owned();
    let y: String = b.to_owned();
    x == y
}

/// An ASCII capital as a small letter, any other character as it is.
pub open spec fn lower(c: char) -> char {
    if 'A' <= c <= 'Z' {
        (c as u32 + 32) as char
    } else {
        c
    }
}

/// Are the two the same but for the case of ASCII letters?
pub open spec fn same_but_case(a: Seq<char>, b: Seq<char>) -> bool {
    &&& a.len() == b.len()
    &&& forall|i: int| 0 <= i < a.len() ==> lower(#[trigger] a[i]) == lower(b[i])
}

fn to_lower(c: char) -> (r: char)
    ensures
        r == lower(c),
{
    if 'A' <= c && c <= 'Z' {
        (c as u8 + 32) as char
    } else {
        c
    }
}

/// Tests whether the two are the same but for the case of ASCII letters.
pub fn same_ignoring_case(a: &str, b: &str) -> (r: bool)
    ensures
        r == same_but_case(a@, b@),
{
    let ca = chars_of(a);
    let cb = chars_of(b);
    if ca.len() != cb.len() {
        return false;
    }
    let mut i: usize = 0;
    while i < ca.len()
        invariant
            ca@ == a@,
            cb@ == b@,
            ca@.len() == cb@.len(),
            i <= ca@.len(),
            forall|j: int| 0 <= j < i ==> lower(#[trigger] a@[j]) == lower(b@[j]),
        decreases ca@.len() - i,
    {
        if to_lower(ca[i]) != to_lower(cb[i]) {
            proof {
                assert(lower(a@[i as int]) != lower(b@[i as int]));
            }
            return false;
        }
        i += 1;
    }
    true
}

/// Does `p` stand in `s` at position `i`?
pub open spec fn occurs_at(s: Seq<char>, p: Seq<char>, i: int) -> bool {
    &&& 0 <= i
    &&& i + p.len() <= s.len()
    &&& s.subrange(i, i + p.len()) == p
}

/// Does `p` stand anywhere in `s`?
pub open spec fn occurs_in(s: Seq<char>, p: Seq<char>) -> bool {
    exists|i: int| occurs_at(s, p, i)
}

pub open spec fn starts_with(s: Seq<char>, p: Seq<char>) -> bool {
    occurs_at(s, p, 0)
}

pub open spec fn ends_with(s: Seq<char>, p: Seq<char>) -> bool {
    occurs_at(s, p, s.len() - p.len())
}

/// Tests whether `p` stands in `s` at position `i`.
pub fn match_at(s: &Vec<char>, p: &Vec<char>, i: usize) -> (r: bool)
    ensures
        r == occurs_at(s@, p@, i as int),
{
    if i > s.len() || p.len() > s.len() - i {
        return false;
    }
    let mut k: usize = 0;
    while k < p.len()
        invariant
            i + p.len() <= s.len(),
            k <= p@.len(),
            forall|j: int| 0 <= j < k ==> s@[i + j] == p@[j],
        decreases p@.len() - k,
    {
        if s[i + k] != p[k] {
            proof {
                assert(s@.subrange(i as int, i + p@.len())[k as int] != p@[k as int]);
            }
            return false;
        }
        k += 1;
    }
    proof {
        assert(s@.subrange(i as int, i + p@.len()) =~= p@);
    }
    true
}

/// Tests whether `s` begins with `p`.
pub fn has_prefix(s: &str, p: &str) -> (r: bool)
    ensures
        r == starts_with(s@, p@),
{
    match_at(&chars_of(s), &chars_of(p), 0)
}

/// Tests whether `s` ends with `p`.
pub fn has_suffix(s: &str, p: &str) -> (r: bool)
    ensures
        r == ends_with(s@, p@),
{
    let s = chars_of(s);
    let p = chars_of(p);
    if p.len() > s.len() {
        return false;
    }
    match_at(&s, &p, s.len() - p.len())
}

/// Tests whether `p` stands anywhere in `s`.
pub fn has_inside(s: &str, p: &str) -> (r: bool)
    ensures
        r == occurs_in(s@, p@),
{
    let cs = chars_of(s);
    let cp = chars_of(p);
    let mut i: usize = 0;
    while i < cs.len()
        invariant
            cs@ == s@,
            cp@ == p@,
            i <= cs@.len(),
            forall|j: int| 0 <= j < i ==> !#[trigger] occurs_at(s@, p@, j),
        decreases cs@.len() - i,
    {
        if match_at(&cs, &cp, i) {
            return true;
        }
        i += 1;
    }
    match_at(&cs, &cp, i)
}

/// What follows `p` at the front of `s`, if `p` stands there.
pub open spec fn stripped(s: Seq<char>, p: Seq<char>) -> Option<Seq<char>> {
    if starts_with(s, p) {
        Some(s.skip(p.len() as int))
    } else {
        None
    }
}

/// Removes `p` from the front of `s`.
pub fn strip_front<'a>(s: &'a str, p: &str) -> (r: Option<&'a str>)
    ensures
        match r {
            Some(t) => stripped(s@, p@) == Some(t@),
            None => stripped(s@, p@) is None,
        },
{
    let cs = chars_of(s);
    let cp = chars_of(p);
    if match_at(&cs, &cp, 0) {
        let t = s.substring_char(cp.len(), cs.len());
        proof {
            assert(t@ =~= s@.skip(p@.len() as int));
        }
        Some(t)
    } else {
        None
    }
}

// ---------------------------------------------------------------------------
// Positions of a single character
// ---------------------------------------------------------------------------

/// The position of the first `c` in `s`; the length of `s` if there is none.
pub open spec fn first_of(s: Seq<char>, c: char) -> nat
    decreases s.len(),
{
    if s.len() == 0 || s[0] == c {
        0
    } else {
        1 + first_of(s.skip(1), c)
    }
}

pub proof fn lemma_first_of(s: Seq<char>, c: char)
    ensures
        first_of(s, c) <= s.len(),
        forall|j: int| 0 <= j < first_of(s, c) ==> s[j] != c,
        first_of(s, c) < s.len() ==> s[first_of(s, c) as int] == c,
    decreases s.len(),
{
    if s.len() == 0 || s[0] == c {
    } else {
        let t = s.skip(1);
        lemma_first_of(t, c);
        assert forall|j: int| 0 <= j < first_of(s, c) implies s[j] != c by {
            if j > 0 {
                assert(t[j - 1] == s[j]);
            }
        }
    }
}

/// `first_of` is the only position with its property.
pub proof fn lemma_first_of_is(s: Seq<char>, c: char, i: int)
    requires
        0 <= i <= s.len(),
        forall|j: int| 0 <= j < i ==> s[j] != c,
        i < s.len() ==> s[i] == c,
    ensures
        first_of(s, c) == i,
{
    lemma_first_of(s, c);
    let f = first_of(s, c) as int;
    if f < i {
        assert(s[f] != c);
    }
    if i < f {
        assert(s[i] != c);
    }
}

/// The position of the first `c` in `s`, or the length of `s`.
pub fn find_char(s: &Vec<char>, c: char) -> (r: usize)
    ensures
        r == first_of(s@, c),
        r <= s@.len(),
{
    let mut i: usize = 0;
    while i < s.len()
        invariant
            i <= s@.len(),
            forall|j: int| 0 <= j < i ==> s@[j] != c,
        decreases s@.len() - i,
    {
        if s[i] == c {
            proof {
                lemma_first_of_is(s@, c, i as int);
            }
            return i;
        }
        i += 1;
    }
    proof {
        lemma_first_of_is(s@, c, i as int);
    }
    i
}

/// What stands before and after the first `c` in `s`.
pub open spec fn cut(s: Seq<char>, c: char) -> Option<(Seq<char>, Seq<char>)> {
    let i = first_of(s, c) as int;
    if i < s.len() {
        Some((s.take(i), s.skip(i + 1)))
    } else {
        None
    }
}

/// Cuts `s` in two at the first `c`, which is dropped.
pub fn cut_at<'a>(s: &'a str, c: char) -> (r: Option<(&'a str, &'a str)>)
    ensures
        match r {
            Some((a, b)) => cut(s@, c) == Some((a@, b@)),
            None => cut(s@, c) is None,
        },
{
    let cs = chars_of(s);
    let i = find_char(&cs, c);
    if i < cs.len() {
        let a = s.substring_char(0, i);
        let b = s.substring_char(i + 1, cs.len());
        proof {
            assert(a@ =~= s@.take(i as int));
            assert(b@ =~= s@.skip(i + 1));
        }
        Some((a, b))
    } else {
        None
    }
}

/// Where the text after the last `c` of `s` begins: 0 if there is no `c`.
pub open spec fn tail_start(s: Seq<char>, c: char) -> nat
    decreases s.len(),
{
    if s.len() == 0 {
        0
    } else if s.last() == c {
        s.len()
    } else {
        tail_start(s.drop_last(), c)
    }
}

pub proof fn lemma_tail_start(s: Seq<char>, c: char)
    ensures
        tail_start(s, c) <= s.len(),
        forall|j: int| tail_start(s, c) <= j < s.len() ==> s[j] != c,
        tail_start(s, c) > 0 ==> s[tail_start(s, c) - 1] == c,
    decreases s.len(),
{
    if s.len() != 0 && s.last() != c {
        lemma_tail_start(s.drop_last(), c);
        assert forall|j: int| tail_start(s, c) <= j < s.len() implies s[j] != c by {
            if j < s.len() - 1 {
                assert(s.drop_last()[j] == s[j]);
            }
        }
    }
}

/// `tail_start` is the only position with its property.
pub proof fn lemma_tail_start_is(s: Seq<char>, c: char, i: int)
    requires
        0 <= i <= s.len(),
        forall|j: int| i <= j < s.len() ==> s[j] != c,
        i > 0 ==> s[i - 1] == c,
    ensures
        tail_start(s, c) == i,
{
    lemma_tail_start(s, c);
    let t = tail_start(s, c) as int;
    if t < i {
        assert(s[i - 1] != c);
    }
    if i < t {
        assert(s[t - 1] != c);
    }
}

/// The text after the last `c` of `s`: all of `s` if there is no `c`.
pub open spec fn after_last(s: Seq<char>, c: char) -> Seq<char> {
    s.skip(tail_start(s, c) as int)
}

/// Where the text after the last `c` among the first `end` characters begins.
pub fn find_tail(s: &Vec<char>, c: char, end: usize) -> (r: usize)
    requires
        end <= s@.len(),
    ensures
        r == tail_start(s@.take(end as int), c),
        r <= end,
{
    let mut i: usize = end;
    while i > 0
        invariant
            i <= end <= s@.len(),
            forall|j: int| i <= j < end ==> s@[j] != c,
        decreases i,
    {
        if s[i - 1] == c {
            proof {
                lemma_tail_start_is(s@.take(end as int), c, i as int);
            }
            return i;
        }
        i -= 1;
    }
    proof {
        lemma_tail_start_is(s@.take(end as int), c, i as int);
    }
    i
}

/// The part of `s` after its last `c`.
pub fn tail_of<'a>(s: &'a str, c: char) -> (r: &'a str)
    ensures
        r@ == after_last(s@, c),
{
    let cs = chars_of(s);
    let i = find_tail(&cs, c, cs.len());
    let r = s.substring_char(i, cs.len());
    proof {
        assert(cs@.take(cs@.len() as int) =~= s@);
        assert(r@ =~= s@.skip(i as int));
    }
    r
}

// ---------------------------------------------------------------------------
// Trimming
// ---------------------------------------------------------------------------

/// `s` without the `c`s at its end.
pub open spec fn trim_end(s: Seq<char>, c: char) -> Seq<char>
    decreases s.len(),
{
    if s.len() > 0 && s.last() == c {
        trim_end(s.drop_last(), c)
    } else {
        s
    }
}

/// `s` without the `c`s at its front.
pub open spec fn trim_start(s: Seq<char>, c: char) -> Seq<char>
    decreases s.len(),
{
    if s.len() > 0 && s[0] == c {
        trim_start(s.skip(1), c)
    } else {
        s
    }
}

pub proof fn lemma_trim_end(s: Seq<char>, c: char)
    ensures
        trim_end(s, c).len() <= s.len(),
        trim_end(s, c) == s.take(trim_end(s, c).len() as int),
        trim_end(s, c).len() > 0 ==> trim_end(s, c).last() != c,
    decreases s.len(),
{
    if s.len() > 0 && s.last() == c {
        lemma_trim_end(s.drop_last(), c);
        let t = trim_end(s, c);
        assert(s.take(t.len() as int) =~= s.drop_last().take(t.len() as int));
    } else {
        assert(s.take(s.len() as int) =~= s);
    }
}

/// How many of the first `end` characters stay when the `c`s at their end go.
pub fn trimmed_len(s: &Vec<char>, c: char, end: usize) -> (r: usize)
    requires
        end <= s@.len(),
    ensures
        r <= end,
        s@.take(r as int) == trim_end(s@.take(end as int), c),
        r > 0 ==> s@[r - 1] != c,
{
    let mut n: usize = end;
    while n > 0 && s[n - 1] == c
        invariant
            n <= end <= s@.len(),
            trim_end(s@.take(end as int), c) == trim_end(s@.take(n as int), c),
        decreases n,
    {
        proof {
            assert(s@.take(n as int).drop_last() =~= s@.take(n - 1));
        }
        n -= 1;
    }
    n
}

/// Drops the `c`s at the end of `s`.
pub fn without_trailing<'a>(s: &'a str, c: char) -> (r: &'a str)
    ensures
        r@ == trim_end(s@, c),
{
    let cs = chars_of(s);
    let n = trimmed_len(&cs, c, cs.len());
    let r = s.substring_char(0, n);
    proof {
        assert(cs@.take(cs@.len() as int) =~= s@);
        assert(r@ =~= cs@.take(n as int));
    }
    r
}

/// Drops the `c`s at the front of `s`.
pub fn without_leading<'a>(s: &'a str, c: char) -> (r: &'a str)
    ensures
        r@ == trim_start(s@, c),
{
    let cs = chars_of(s);
    let mut i: usize = 0;
    proof {
        assert(s@.skip(0) =~= s@);
    }
    while i < cs.len() && cs[i] == c
        invariant
            i <= cs@.len(),
            cs@ == s@,
            trim_start(s@, c) == trim_start(s@.skip(i as int), c),
        decreases cs@.len() - i,
    {
        proof {
            assert(s@.skip(i as int).skip(1) =~= s@.skip(i + 1));
        }
        i += 1;
    }
    let r = s.substring_char(i, cs.len());
    proof {
        assert(r@ =~= s@.skip(i as int));
    }
    r
}

/// The characters with the Unicode property `White_Space`.
pub open spec fn is_space(c: char) -> bool {
    ||| '\u{9}' <= c <= '\u{d}'
    ||| c == ' '
    ||| c == '\u{85}'
    ||| c == '\u{a0}'
    ||| c == '\u{1680}'
    ||| '\u{2000}' <= c <= '\u{200a}'
    ||| c == '\u{2028}'
    ||| c == '\u{2029}'
    ||| c == '\u{202f}'
    ||| c == '\u{205f}'
    ||| c == '\u{3000}'
}

/// Tests for the Unicode property `White_Space`.
pub fn test_space(c: char) -> (r: bool)
    ensures
        r == is_space(c),
{
    ('\u{9}' <= c && c <= '\u{d}') || c == ' ' || c == '\u{85}' || c == '\u{a0}' || c == '\u{1680}'
        || ('\u{2000}' <= c && c <= '\u{200a}') || c == '\u{2028}' || c == '\u{2029}' || c
        == '\u{202f}' || c == '\u{205f}' || c == '\u{3000}'
}

/// `s` without the white space at its front.
pub open spec fn trim_space_start(s: Seq<char>) -> Seq<char>
    decreases s.len(),
{
    if s.len() > 0 && is_space(s[0]) {
        trim_space_start(s.skip(1))
    } else {
        s
    }
}

/// `s` without the white space at its end.
pub open spec fn trim_space_end(s: Seq<char>) -> Seq<char>
    decreases s.len(),
{
    if s.len() > 0 && is_space(s.last()) {
        trim_space_end(s.drop_last())
    } else {
        s
    }
}

/// `s` without the white space at its front and at its end.
pub open spec fn trim_space(s: Seq<char>) -> Seq<char> {
    trim_space_end(trim_space_start(s))
}

/// Drops the white space at the front and at the end of `s`.
pub fn trimmed<'a>(s: &'a str) -> (r: &'a str)
    ensures
        r@ == trim_space(s@),
{
    let cs = chars_of(s);
    let mut i: usize = 0;
    proof {
        assert(s@.skip(0) =~= s@);
    }
    while i < cs.len() && test_space(cs[i])
        invariant
            i <= cs@.len(),
            cs@ == s@,
            trim_space_start(s@) == trim_space_start(s@.skip(i as int)),
        decreases cs@.len() - i,
    {
        proof {
            assert(s@.skip(i as int).skip(1) =~= s@.skip(i + 1));
        }
        i += 1;
    }
    let mut n: usize = cs.len();
    proof {
        assert(s@.subrange(i as int, n as int) =~= s@.skip(i as int));
    }
    while n > i && test_space(cs[n - 1])
        invariant
            i <= n <= cs@.len(),
            cs@ == s@,
            trim_space(s@) == trim_space_end(s@.subrange(i as int, n as int)),
        decreases n,
    {
        proof {
            assert(s@.subrange(i as int, n as int).drop_last() =~= s@.subrange(i as int, n - 1));
        }
        n -= 1;
    }
    s.substring_char(i, n)
}

// ---------------------------------------------------------------------------
// Replacing
// ---------------------------------------------------------------------------

/// `to` before, between and after the characters of `s`.
pub open spec fn interleaved(s: Seq<char>, to: Seq<char>) -> Seq<char>
    decreases s.len(),
{
    if s.len() == 0 {
        to
    } else {
        to + seq![s[0]] + interleaved(s.skip(1), to)
    }
}

/// `s` with `to` in place of every `from`: the matches are taken from the
/// left and do not overlap. An empty `from` matches between all characters.
pub open spec fn replaced(s: Seq<char>, from: Seq<char>, to: Seq<char>) -> Seq<char>
    decreases s.len(),
{
    if from.len() == 0 {
        interleaved(s, to)
    } else if s.len() < from.len() {
        s
    } else if occurs_at(s, from, 0) {
        to + replaced(s.skip(from.len() as int), from, to)
    } else {
        seq![s[0]] + replaced(s.skip(1), from, to)
    }
}

/// A text without `from` in it is left as it is.
pub proof fn text_without_a_match_is_unchanged(s: Seq<char>, from: Seq<char>, to: Seq<char>)
    requires
        !occurs_in(s, from),
    ensures
        replaced(s, from, to) == s,
    decreases s.len(),
{
    if from.len() == 0 {
        assert(s.subrange(0, 0) =~= from);
        assert(occurs_at(s, from, 0));
    } else if s.len() >= from.len() {
        assert(!occurs_at(s, from, 0));
        let t = s.skip(1);
        assert forall|i: int| !occurs_at(t, from, i) by {
            if occurs_at(t, from, i) {
                assert(s.subrange(i + 1, i + 1 + from.len()) =~= t.subrange(i, i + from.len()));
                assert(occurs_at(s, from, i + 1));
            }
        }
        text_without_a_match_is_unchanged(t, from, to);
        assert(seq![s[0]] + t =~= s);
    }
}

/// A match at the front of a text is replaced, and the rest on its own.
pub proof fn match_in_front_is_replaced(from: Seq<char>, rest: Seq<char>, to: Seq<char>)
    requires
        from.len() > 0,
    ensures
        replaced(from + rest, from, to) == to + replaced(rest, from, to),
{
    assert((from + rest).subrange(0, from.len() as int) =~= from);
    assert((from + rest).skip(from.len() as int) =~= rest);
}

/// What stands before the first match is kept, the match is replaced, and what
/// follows is treated on its own.
pub proof fn first_match_is_replaced(
    front: Seq<char>,
    from: Seq<char>,
    rest: Seq<char>,
    to: Seq<char>,
)
    requires
        from.len() > 0,
        forall|i: int|
            0 <= i < front.len() ==> !#[trigger] occurs_at(front + from + rest, from, i),
    ensures
        replaced(front + from + rest, from, to) == front + to + replaced(rest, from, to),
    decreases front.len(),
{
    let s = front + from + rest;
    if front.len() == 0 {
        assert(s =~= from + rest);
        match_in_front_is_replaced(from, rest, to);
        assert(front + to + replaced(rest, from, to) =~= to + replaced(rest, from, to));
    } else {
        let t = front.skip(1);
        assert(s.skip(1) =~= t + from + rest);
        assert(!occurs_at(s, from, 0));
        assert forall|i: int| 0 <= i < t.len() implies !#[trigger] occurs_at(
            t + from + rest,
            from,
            i,
        ) by {
            assert(!occurs_at(s, from, i + 1));
            assert((t + from + rest).subrange(i, i + from.len()) =~= s.subrange(
                i + 1,
                i + 1 + from.len(),
            ));
        }
        first_match_is_replaced(t, from, rest, to);
        assert(s[0] == front[0]);
        assert(seq![s[0]] + (t + to + replaced(rest, from, to)) =~= front + to + replaced(
            rest,
            from,
            to,
        ));
    }
}

/// An empty text is found before, between and behind all characters.
pub proof fn nothing_is_found_everywhere(s: Seq<char>, c: char, to: Seq<char>)
    ensures
        replaced(Seq::empty(), Seq::empty(), to) == to,
        replaced(seq![c] + s, Seq::empty(), to) == to + seq![c] + replaced(s, Seq::empty(), to),
{
    assert((seq![c] + s).skip(1) =~= s);
}

/// A text stands in another exactly if that one can be cut in three with it in
/// the middle; in front, exactly if in two.
pub proof fn found_text_cuts_in_three(a: Seq<char>, p: Seq<char>, b: Seq<char>, s: Seq<char>)
    ensures
        occurs_in(a + p + b, p),
        starts_with(p + b, p),
        ends_with(a + p, p),
        stripped(p + b, p) == Some(b),
        occurs_in(s, p) ==> exists|x: Seq<char>, y: Seq<char>| s == #[trigger] (x + p + y),
        starts_with(s, p) ==> s == p + s.skip(p.len() as int),
        ends_with(s, p) ==> s == s.take(s.len() - p.len()) + p,
        stripped(s, p) matches Some(t) ==> s == p + t,
        stripped(s, p) is None ==> s.len() < p.len() || s.take(p.len() as int) != p,
{
    assert((a + p + b).subrange(a.len() as int, a.len() as int + p.len()) =~= p);
    assert(occurs_at(a + p + b, p, a.len() as int));
    assert((p + b).subrange(0, p.len() as int) =~= p);
    assert((p + b).skip(p.len() as int) =~= b);
    assert((a + p).subrange(a.len() as int, a.len() as int + p.len()) =~= p);
    if occurs_in(s, p) {
        let i = choose|i: int| occurs_at(s, p, i);
        assert(s =~= s.take(i) + s.subrange(i, i + p.len()) + s.skip(i + p.len()));
    }
    if starts_with(s, p) {
        assert(s =~= s.subrange(0, p.len() as int) + s.skip(p.len() as int));
    } else if s.len() >= p.len() {
        assert(s.take(p.len() as int) =~= s.subrange(0, p.len() as int));
    }
    if ends_with(s, p) {
        assert(s =~= s.take(s.len() - p.len()) + s.subrange(s.len() - p.len(), s.len() as int));
    }
}

fn interleave(s: &str, to: &str) -> (r: String)
    ensures
        r@ == interleaved(s@, to@),
{
    let cs = chars_of(s);
    let mut out: String = String::new();
    let mut i: usize = 0;
    proof {
        assert(s@.skip(0) =~= s@);
    }
    while i < cs.len()
        invariant
            i <= cs@.len(),
            cs@ == s@,
            interleaved(s@, to@) == out@ + interleaved(s@.skip(i as int), to@),
        decreases cs@.len() - i,
    {
        proof {
            assert(s@.skip(i as int).skip(1) =~= s@.skip(i + 1));
            assert(interleaved(s@.skip(i as int), to@) == to@ + seq![s@[i as int]]
                + interleaved(s@.skip(i + 1), to@));
            assert(out@ + (to@ + seq![s@[i as int]] + interleaved(s@.skip(i + 1), to@)) =~= (out@
                + to@).push(s@[i as int]) + interleaved(s@.skip(i + 1), to@));
        }
        out.append(to);
        out.push(cs[i]);
        i += 1;
    }
    out.append(to);
    out
}

/// Puts `to` in place of every `from` in `s`.
pub fn replace_all(s: &str, from: &str, to: &str) -> (r: String)
    ensures
        r@ == replaced(s@, from@, to@),
{
    let cs = chars_of(s);
    let cf = chars_of(from);
    if cf.len() == 0 {
        return interleave(s, to);
    }
    let mut out: String = String::new();
    let mut i: usize = 0;
    proof {
        assert(s@.skip(0) =~= s@);
    }
    while i < cs.len()
        invariant
            i <= cs@.len(),
            cs@ == s@,
            cf@ == from@,
            from@.len() > 0,
            replaced(s@, from@, to@) == out@ + replaced(s@.skip(i as int), from@, to@),
        decreases cs@.len() - i,
    {
        let ghost rest = s@.skip(i as int);
        if match_at(&cs, &cf, i) {
            proof {
                assert(rest.subrange(0, from@.len() as int) =~= s@.subrange(
                    i as int,
                    i + from@.len(),
                ));
                assert(occurs_at(rest, from@, 0));
                assert(rest.skip(from@.len() as int) =~= s@.skip(i + from@.len()));
                assert(out@ + (to@ + replaced(s@.skip(i + from@.len()), from@, to@)) =~= (out@
                    + to@) + replaced(s@.skip(i + from@.len()), from@, to@));
            }
            out.append(to);
            i += cf.len();
        } else {
            proof {
                if rest.len() >= from@.len() {
                    assert(rest.subrange(0, from@.len() as int) =~= s@.subrange(
                        i as int,
                        i + from@.len(),
                    ));
                }
                assert(rest.skip(1) =~= s@.skip(i + 1));
                if rest.len() < from@.len() {
                    assert(replaced(s@.skip(i + 1), from@, to@) == s@.skip(i + 1));
                    assert(rest =~= seq![s@[i as int]] + s@.skip(i + 1));
                }
                assert(replaced(rest, from@, to@) == seq![s@[i as int]] + replaced(
                    s@.skip(i + 1),
                    from@,
                    to@,
                ));
                assert(out@ + (seq![s@[i as int]] + replaced(s@.skip(i + 1), from@, to@)) =~= out@
                    .push(s@[i as int]) + replaced(s@.skip(i + 1), from@, to@));
            }
            out.push(cs[i]);
            i += 1;
        }
    }
    proof {
        assert(s@.skip(i as int) =~= Seq::<char>::empty());
    }
    out
}

// ---------------------------------------------------------------------------
// Columns
// ---------------------------------------------------------------------------

/// `n` times the character `c`.
pub open spec fn repeated(c: char, n: nat) -> Seq<char> {
    Seq::new(n, |i: int| c)
}

/// `s` behind as many blanks as make up `width` characters.
pub open spec fn flush_right(s: Seq<char>, width: nat) -> Seq<char> {
    if s.len() < width {
        repeated(' ', (width - s.len()) as nat) + s
    } else {
        s
    }
}

/// `s` with as many `c`s behind it as make up `width` characters.
pub open spec fn flush_left(s: Seq<char>, c: char, width: nat) -> Seq<char> {
    if s.len() < width {
        s + repeated(c, (width - s.len()) as nat)
    } else {
        s
    }
}

/// Appends the character `c` to `out`, `n` times.
pub fn push_repeated(out: &mut String, c: char, n: usize)
    ensures
        final(out)@ == old(out)@ + repeated(c, n as nat),
{
    let ghost start = out@;
    let mut i: usize = 0;
    proof {
        assert(start + repeated(c, 0) =~= start);
    }
    while i < n
        invariant
            i <= n,
            out@ == start + repeated(c, i as nat),
        decreases n - i,
    {
        out.push(c);
        i += 1;
        proof {
            assert(out@ =~= start + repeated(c, i as nat));
        }
    }
}

/// Moves `s` to the right of a column.
pub fn align_right(s: &str, width: usize) -> (r: String)
    ensures
        r@ == flush_right(s@, width as nat),
{
    let len: usize = s.unicode_len();
    let mut out: String = String::new();
    if len < width {
        push_repeated(&mut out, ' ', width - len);
    }
    out.append(s);
    proof {
        assert(out@ =~= flush_right(s@, width as nat));
    }
    out
}

/// Appends `s` to `out`, filled up with `c` to a column's width.
pub fn push_column(out: &mut String, s: &str, c: char, width: usize)
    ensures
        final(out)@ == old(out)@ + flush_left(s@, c, width as nat),
{
    let len: usize = s.unicode_len();
    let ghost start = out@;
    out.append(s);
    if len < width {
        push_repeated(out, c, width - len);
    }
    proof {
        assert(out@ =~= start + flush_left(s@, c, width as nat));
    }
}

// ---------------------------------------------------------------------------
// What cutting, trimming and filling up do
// ---------------------------------------------------------------------------

/// A text is cut at its first `c`: what comes out, with the `c` in between, is
/// the text. It is not cut only if there is no `c`.
pub proof fn cut_is_at_the_first(s: Seq<char>, c: char)
    ensures
        match cut(s, c) {
            Some((a, b)) => s == a.push(c) + b && !a.contains(c),
            None => !s.contains(c),
        },
{
    lemma_first_of(s, c);
    let i = first_of(s, c) as int;
    if i < s.len() {
        assert(s =~= s.take(i).push(c) + s.skip(i + 1));
        if s.take(i).contains(c) {
            let j = choose|j: int| 0 <= j < i && s.take(i)[j] == c;
            assert(s[j] == c);
        }
    } else if s.contains(c) {
        let j = choose|j: int| 0 <= j < s.len() && s[j] == c;
        assert(s[j] != c);
    }
}

/// What two parts are put together from with a `c` in between is cut into them
/// again, if the first has no `c`.
pub proof fn joined_parts_are_cut_apart(a: Seq<char>, c: char, b: Seq<char>)
    requires
        !a.contains(c),
    ensures
        cut(a.push(c) + b, c) == Some((a, b)),
{
    let s = a.push(c) + b;
    assert forall|j: int| 0 <= j < a.len() implies s[j] != c by {
        assert(s[j] == a[j]);
        assert(a.contains(a[j]));
    }
    assert(s[a.len() as int] == c);
    lemma_first_of_is(s, c, a.len() as int);
    assert(s.take(a.len() as int) =~= a);
    assert(s.skip((a.len() + 1) as int) =~= b);
}

/// What follows the last `c` has no `c` in it, and is all that follows it.
pub proof fn tail_follows_the_last(s: Seq<char>, c: char, front: Seq<char>, tail: Seq<char>)
    ensures
        !after_last(s, c).contains(c),
        !s.contains(c) ==> after_last(s, c) == s,
        !tail.contains(c) ==> after_last(front.push(c) + tail, c) == tail,
{
    lemma_tail_start(s, c);
    let t = tail_start(s, c) as int;
    let a = after_last(s, c);
    if a.contains(c) {
        let i = choose|i: int| 0 <= i < a.len() && a[i] == c;
        assert(s[t + i] == c);
    }
    if !s.contains(c) {
        if t > 0 {
            assert(s.contains(s[t - 1]));
        }
        assert(s.skip(0) =~= s);
    }
    if !tail.contains(c) {
        let all = front.push(c) + tail;
        let k = front.len() + 1;
        assert forall|j: int| k <= j < all.len() implies all[j] != c by {
            assert(all[j] == tail[j - k]);
            assert(tail.contains(tail[j - k]));
        }
        lemma_tail_start_is(all, c, k as int);
        assert(all.skip(k as int) =~= tail);
    }
}

/// Trimming takes away nothing but `c`s, and all of them at that end.
pub proof fn trimming_takes_that_character_alone(s: Seq<char>, c: char, n: nat)
    ensures
        s.len() == 0 || s.last() != c ==> trim_end(s + repeated(c, n), c) == s,
        s.len() == 0 || s[0] != c ==> trim_start(repeated(c, n) + s, c) == s,
    decreases n,
{
    let r = repeated(c, n);
    if n == 0 {
        assert(s + r =~= s);
        assert(r + s =~= s);
    } else {
        let q = repeated(c, (n - 1) as nat);
        trimming_takes_that_character_alone(s, c, (n - 1) as nat);
        assert((s + r).last() == c);
        assert((s + r).drop_last() =~= s + q);
        assert((r + s)[0] == c);
        assert((r + s).skip(1) =~= q + s);
    }
}

/// White space is what Unicode says it is, and nothing else.
pub proof fn white_space_is_that_of_unicode(c: char)
    ensures
        is_space(c) <==> {
            let n = c as int;
            ||| 9 <= n <= 13
            ||| n == 32
            ||| n == 133
            ||| n == 160
            ||| n == 5760
            ||| 8192 <= n <= 8202
            ||| n == 8232
            ||| n == 8233
            ||| n == 8239
            ||| n == 8287
            ||| n == 12288
        },
{
}

/// Trimming takes away the white space at both ends, and leaves what stands
/// between.
pub proof fn trimming_takes_white_space_alone(front: Seq<char>, s: Seq<char>, back: Seq<char>)
    requires
        forall|i: int| 0 <= i < front.len() ==> is_space(#[trigger] front[i]),
        forall|i: int| 0 <= i < back.len() ==> is_space(#[trigger] back[i]),
        s.len() > 0 ==> !is_space(s[0]) && !is_space(s.last()),
    ensures
        trim_space(front + s + back) == s,
    decreases front.len() + back.len(),
{
    let all = front + s + back;
    if front.len() > 0 {
        assert(all[0] == front[0]);
        assert(all.skip(1) =~= front.skip(1) + s + back);
        trimming_takes_white_space_alone(front.skip(1), s, back);
    } else if s.len() == 0 {
        if back.len() > 0 {
            assert(all[0] == back[0]);
            assert(all.skip(1) =~= front + s + back.skip(1));
            trimming_takes_white_space_alone(front, s, back.skip(1));
        } else {
            assert(all =~= s);
        }
    } else {
        assert(all[0] == s[0]);
        assert(trim_space_start(all) == all);
        if back.len() > 0 {
            assert(all.last() == back.last());
            assert(is_space(back[back.len() - 1]));
            assert(all.drop_last() =~= front + s + back.drop_last());
            assert forall|i: int| 0 <= i < back.drop_last().len() implies is_space(
                #[trigger] back.drop_last()[i],
            ) by {
                assert(back.drop_last()[i] == back[i]);
            }
            trimming_takes_white_space_alone(front, s, back.drop_last());
            assert((front + s + back.drop_last())[0] == s[0]);
        } else {
            assert(all =~= s);
        }
    }
}

/// Two texts are the same but for the case if they are the same, or if one has
/// capital letters of ASCII where the other has small ones; nothing else is
/// overlooked.
pub proof fn only_the_case_of_letters_is_overlooked(a: Seq<char>, b: Seq<char>)
    ensures
        same_but_case(a, b) <==> a.len() == b.len() && forall|i: int|
            0 <= i < a.len() ==> {
                let (x, y) = ((#[trigger] a[i]) as int, b[i] as int);
                ||| x == y
                ||| 65 <= x <= 90 && y == x + 32
                ||| 65 <= y <= 90 && x == y + 32
            },
{
    assert forall|i: int| 0 <= i < a.len() && a.len() == b.len() implies (lower(#[trigger] a[i])
        == lower(b[i]) <==> {
        let (x, y) = (a[i] as int, b[i] as int);
        ||| x == y
        ||| 65 <= x <= 90 && y == x + 32
        ||| 65 <= y <= 90 && x == y + 32
    }) by {}
}

/// A text is filled up to the width and no further, with the character alone,
/// and is not cut.
pub proof fn columns_are_filled_up(s: Seq<char>, c: char, width: nat)
    ensures
        s.len() <= width ==> flush_left(s, c, width).len() == width && flush_right(s, width).len()
            == width,
        s.len() >= width ==> flush_left(s, c, width) == s && flush_right(s, width) == s,
        flush_left(s, c, width).take(s.len() as int) == s,
        forall|i: int|
            s.len() <= i < flush_left(s, c, width).len() ==> #[trigger] flush_left(s, c, width)[i]
                == c,
        flush_right(s, width).skip(flush_right(s, width).len() - s.len()) == s,
        forall|i: int|
            0 <= i < flush_right(s, width).len() - s.len() ==> #[trigger] flush_right(s, width)[i]
                == ' ',
        repeated(c, width).len() == width,
        forall|i: int| 0 <= i < width ==> #[trigger] repeated(c, width)[i] == c,
{
    assert(flush_left(s, c, width).take(s.len() as int) =~= s);
    assert(flush_right(s, width).skip(flush_right(s, width).len() - s.len()) =~= s);
}

} // verus!
