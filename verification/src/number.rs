//! Numbers in decimal: writing them, padded or not, and reading them.
use vstd::prelude::*;

use crate::text::chars_of;

verus! {

/// The character for the decimal digit `d`.
pub open spec fn digit(d: nat) -> char {
    ('0' as nat + d) as char
}

/// The decimal digits of `n`, without leading zeros.
pub open spec fn digits(n: nat) -> Seq<char>
    decreases n,
{
    if n < 10 {
        seq![digit(n)]
    } else {
        digits(n / 10).push(digit(n % 10))
    }
}

/// The decimal digits of `n`, with a minus sign in front if it is negative.
pub open spec fn signed_digits(n: int) -> Seq<char> {
    if n < 0 {
        seq!['-'] + digits((-n) as nat)
    } else {
        digits(n as nat)
    }
}

/// The decimal digits of `n` behind as many zeros as make up `width`.
pub open spec fn padded(n: nat, width: nat) -> Seq<char> {
    let d = digits(n);
    if d.len() < width {
        Seq::new((width - d.len()) as nat, |i: int| '0') + d
    } else {
        d
    }
}

/// The number that the characters of `s` stand for, read as decimal digits.
pub open spec fn value_of(s: Seq<char>) -> nat
    decreases s.len(),
{
    if s.len() == 0 {
        0
    } else {
        value_of(s.drop_last()) * 10 + (s.last() as nat - '0' as nat) as nat
    }
}

pub open spec fn is_digit(c: char) -> bool {
    '0' <= c <= '9'
}

pub open spec fn all_digits(s: Seq<char>) -> bool {
    forall|i: int| 0 <= i < s.len() ==> is_digit(#[trigger] s[i])
}

/// The number written in `s`: digits, with or without a plus sign in front,
/// and no more than `u32` holds.
pub open spec fn unsigned(s: Seq<char>) -> Option<u32> {
    let body = if s.len() > 0 && s[0] == '+' {
        s.skip(1)
    } else {
        s
    };
    if body.len() > 0 && all_digits(body) && value_of(body) <= u32::MAX {
        Some(value_of(body) as u32)
    } else {
        None
    }
}

pub proof fn lemma_digits(n: nat)
    ensures
        digits(n).len() > 0,
        all_digits(digits(n)),
        value_of(digits(n)) == n,
    decreases n,
{
    if n < 10 {
        assert(digits(n).drop_last() =~= Seq::<char>::empty());
        assert(value_of(digits(n).drop_last()) == 0);
        assert(digits(n).last() as nat == '0' as nat + n);
    } else {
        lemma_digits(n / 10);
        let d = digits(n);
        assert(d.drop_last() =~= digits(n / 10));
        assert(d.last() as nat == '0' as nat + n % 10);
        assert(n == (n / 10) * 10 + n % 10);
    }
}

/// Leading zeros do not change the number.
proof fn lemma_value_of_zeros(k: nat, s: Seq<char>)
    ensures
        value_of(Seq::new(k, |i: int| '0') + s) == value_of(s),
    decreases s.len(), k,
{
    let z = Seq::new(k, |i: int| '0');
    if s.len() == 0 {
        assert(z + s =~= z);
        if k > 0 {
            assert(z.drop_last() =~= Seq::new((k - 1) as nat, |i: int| '0'));
            lemma_value_of_zeros((k - 1) as nat, s);
            assert(z.drop_last() + s =~= z.drop_last());
        }
    } else {
        assert((z + s).drop_last() =~= z + s.drop_last());
        lemma_value_of_zeros(k, s.drop_last());
    }
}

/// A number that fits `u32`, written in decimal with any padding, is read
/// back as that number.
pub proof fn written_number_is_read_back(n: u32, width: nat)
    ensures
        unsigned(padded(n as nat, width)) == Some(n),
{
    lemma_digits(n as nat);
    let d = digits(n as nat);
    let p = padded(n as nat, width);
    if d.len() < width {
        let z = Seq::new((width - d.len()) as nat, |i: int| '0');
        assert(p == z + d);
        lemma_value_of_zeros((width - d.len()) as nat, d);
    }
    assert(is_digit(p[0]));
    assert(all_digits(p));
}

proof fn lemma_value_of_grows(s: Seq<char>, i: int)
    requires
        0 <= i <= s.len(),
    ensures
        value_of(s.take(i)) <= value_of(s),
    decreases s.len() - i,
{
    if i < s.len() {
        lemma_value_of_grows(s.drop_last(), i);
        assert(s.drop_last().take(i) =~= s.take(i));
    } else {
        assert(s.take(i) =~= s);
    }
}

fn digit_char(d: u64) -> (r: char)
    requires
        d < 10,
    ensures
        r == digit(d as nat),
{
    (48u8 + d as u8) as char
}

/// Appends the decimal digits of `n` to `out`.
pub fn push_decimal(out: &mut String, n: u64)
    ensures
        final(out)@ == old(out)@ + digits(n as nat),
    decreases n,
{
    if n < 10 {
        out.push(digit_char(n));
        proof {
            assert(out@ =~= old(out)@ + digits(n as nat));
        }
    } else {
        push_decimal(out, n / 10);
        out.push(digit_char(n % 10));
        proof {
            assert(out@ =~= old(out)@ + digits(n as nat));
        }
    }
}

/// The decimal digits of `n`.
pub fn decimal(n: u64) -> (r: String)
    ensures
        r@ == digits(n as nat),
{
    let mut out: String = String::new();
    push_decimal(&mut out, n);
    proof {
        assert(out@ =~= digits(n as nat));
    }
    out
}

/// The decimal digits of `n`, signed.
pub fn signed_decimal(n: i64) -> (r: String)
    ensures
        r@ == signed_digits(n as int),
{
    if n < 0 {
        let mut out: String = String::new();
        out.push('-');
        let magnitude: u64 = (-(n as i128)) as u64;
        push_decimal(&mut out, magnitude);
        proof {
            assert(out@ =~= seq!['-'] + digits((-(n as int)) as nat));
        }
        out
    } else {
        decimal(n as u64)
    }
}

/// Appends the digits of `n` to `out`, padded with zeros to `width`.
pub fn push_padded(out: &mut String, n: u64, width: usize)
    ensures
        final(out)@ == old(out)@ + padded(n as nat, width as nat),
{
    let d = decimal(n);
    let len: usize = chars_of(d.as_str()).len();
    let mut i: usize = len;
    let ghost start = out@;
    while i < width
        invariant
            len == d@.len(),
            len <= i,
            i <= width || i == len,
            out@ == start + Seq::new((i - len) as nat, |j: int| '0'),
        decreases width - i,
    {
        out.push('0');
        i += 1;
        proof {
            assert(out@ =~= start + Seq::new((i - len) as nat, |j: int| '0'));
        }
    }
    proof {
        assert(out@ + d@ =~= start + padded(n as nat, width as nat));
    }
    out.append(d.as_str());
}

/// Reads an unsigned number in decimal.
pub fn parse_unsigned(s: &str) -> (r: Option<u32>)
    ensures
        r == unsigned(s@),
{
    let cs = chars_of(s);
    let start: usize = if cs.len() > 0 && cs[0] == '+' { 1 } else { 0 };
    let ghost body = s@.skip(start as int);
    proof {
        assert(s@.skip(0) =~= s@);
    }
    if start == cs.len() {
        return None;
    }
    let mut value: u64 = 0;
    let mut i: usize = start;
    while i < cs.len()
        invariant
            cs@ == s@,
            start <= i <= cs@.len(),
            body == s@.skip(start as int),
            body == (if s@.len() > 0 && s@[0] == '+' {
                s@.skip(1)
            } else {
                s@
            }),
            all_digits(body.take(i - start)),
            value == value_of(body.take(i - start)),
            value <= u32::MAX,
        decreases cs@.len() - i,
    {
        let c = cs[i];
        proof {
            assert(body[i - start] == c);
        }
        if c < '0' || c > '9' {
            proof {
                assert(!is_digit(body[i - start]));
            }
            return None;
        }
        value = value * 10 + (c as u64 - '0' as u64);
        proof {
            assert(body.take(i + 1 - start).drop_last() =~= body.take(i - start));
            assert(value == value_of(body.take(i + 1 - start)));
            lemma_value_of_grows(body, i + 1 - start);
        }
        if value > 0xffff_ffff {
            return None;
        }
        i += 1;
    }
    proof {
        assert(body.take(i - start) =~= body);
    }
    Some(value as u32)
}

/// Decimal digits: a number below ten is its digit, and a digit behind a
/// number that is not zero makes ten times the number and the digit.
pub proof fn digits_are_decimal(n: nat, d: nat)
    requires
        d < 10,
    ensures
        digits(d) == seq![(48 + d) as char],
        n > 0 ==> digits(10 * n + d) == digits(n).push((48 + d) as char),
        n > 0 ==> digits(n)[0] != '0',
    decreases n,
{
    assert((10 * n + d) / 10 == n);
    assert((10 * n + d) % 10 == d);
    if n >= 10 {
        digits_are_decimal(n / 10, d);
        lemma_digits(n / 10);
        assert(digits(n)[0] == digits(n / 10)[0]);
    }
}

/// A negative number has a minus sign in front of its digits, and no other
/// number has.
pub proof fn negative_numbers_have_a_sign(n: nat)
    ensures
        signed_digits(n as int) == digits(n),
        n > 0 ==> signed_digits(-n) == seq!['-'] + digits(n),
{
}

/// Zeros fill a number up to the width, in front, and no further.
pub proof fn padding_is_zeros_in_front(n: nat, width: nat)
    ensures
        digits(n).len() <= width ==> padded(n, width).len() == width,
        digits(n).len() >= width ==> padded(n, width) == digits(n),
        padded(n, width).skip(padded(n, width).len() - digits(n).len()) == digits(n),
        forall|i: int|
            0 <= i < padded(n, width).len() - digits(n).len() ==> #[trigger] padded(n, width)[i]
                == '0',
{
    assert(padded(n, width).skip(padded(n, width).len() - digits(n).len()) =~= digits(n));
}

/// What digits stand for: each further digit makes ten times the number and
/// the digit.
pub proof fn value_is_decimal(s: Seq<char>, c: char)
    requires
        '0' <= c <= '9',
    ensures
        value_of(Seq::empty()) == 0,
        value_of(s.push(c)) == 10 * value_of(s) + (c as int - 48),
{
    assert(s.push(c).drop_last() =~= s);
}

/// A number is read from digits alone, a plus sign in front allowed, and only
/// if it fits.
pub proof fn numbers_are_read_from_digits_alone(s: Seq<char>)
    ensures
        s.len() > 0 && (forall|i: int| 0 <= i < s.len() ==> '0' <= #[trigger] s[i] <= '9')
            && value_of(s) <= 0xffff_ffff ==> unsigned(s) == Some(value_of(s) as u32) && unsigned(
            seq!['+'] + s,
        ) == unsigned(s),
        s.len() == 0 ==> unsigned(s) is None,
        value_of(s) > 0xffff_ffff && s[0] != '+' ==> unsigned(s) is None,
        forall|i: int|
            0 <= i < s.len() && !('0' <= #[trigger] s[i] <= '9') && !(i == 0 && s[i] == '+')
                ==> unsigned(s) is None,
{
    assert((seq!['+'] + s).skip(1) =~= s);
    if s.len() > 0 && (forall|i: int| 0 <= i < s.len() ==> '0' <= #[trigger] s[i] <= '9') {
        assert(s[0] != '+');
        assert(all_digits(s));
    }
    assert forall|i: int|
        0 <= i < s.len() && !('0' <= #[trigger] s[i] <= '9') && !(i == 0 && s[i] == '+') implies
        unsigned(s) is None by {
        if s[0] == '+' {
            assert(s.skip(1)[i - 1] == s[i]);
            assert(!is_digit(s.skip(1)[i - 1]));
        } else {
            assert(!is_digit(s[i]));
        }
    }
}

} // verus!
