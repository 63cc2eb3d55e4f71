//! UUIDs: the names of namespaces, tables and metadata files.
use vstd::arithmetic::power::pow;
use vstd::prelude::*;

use crate::text::same_but_case;

verus! {

pub open spec fn is_hex(c: char) -> bool {
    '0' <= c <= '9' || 'a' <= c <= 'f' || 'A' <= c <= 'F'
}

pub open spec fn hex_digit(c: char) -> nat {
    if '0' <= c <= '9' {
        (c as nat - '0' as nat) as nat
    } else if 'a' <= c <= 'f' {
        (c as nat - 'a' as nat + 10) as nat
    } else {
        (c as nat - 'A' as nat + 10) as nat
    }
}

pub open spec fn all_hex(s: Seq<char>) -> bool {
    forall|i: int| 0 <= i < s.len() ==> is_hex(#[trigger] s[i])
}

/// The number that hexadecimal digits stand for.
pub open spec fn hex_number(s: Seq<char>) -> nat
    decreases s.len(),
{
    if s.len() == 0 {
        0
    } else {
        hex_number(s.drop_last()) * 16 + hex_digit(s.last())
    }
}

/// The UUID with these 32 digits.
pub open spec fn simple_uuid(s: Seq<char>) -> Option<u128> {
    if s.len() == 32 && all_hex(s) {
        Some(hex_number(s) as u128)
    } else {
        None
    }
}

/// The UUID written as five groups of digits with hyphens in between.
pub open spec fn hyphenated_uuid(s: Seq<char>) -> Option<u128> {
    if s.len() == 36 && s[8] == '-' && s[13] == '-' && s[18] == '-' && s[23] == '-' {
        simple_uuid(
            s.subrange(0, 8) + s.subrange(9, 13) + s.subrange(14, 18) + s.subrange(19, 23)
                + s.subrange(24, 36),
        )
    } else {
        None
    }
}

/// The UUID that a text is: plain digits, or groups with hyphens that may
/// stand in braces or behind `urn:uuid:`.
pub open spec fn uuid_of(s: Seq<char>) -> Option<u128> {
    if s.len() == 32 {
        simple_uuid(s)
    } else if s.len() == 36 {
        hyphenated_uuid(s)
    } else if s.len() == 38 && s[0] == '{' && s[37] == '}' {
        hyphenated_uuid(s.subrange(1, 37))
    } else if s.len() == 45 && same_but_case(s.take(9), "urn:uuid:"@) {
        hyphenated_uuid(s.skip(9))
    } else {
        None
    }
}

/// Calls `uuid::Uuid::parse_str`. Claimed: it accepts the forms of
/// `uuid_of`, with the digits in either case, and nothing else, and the
/// number of the UUID is the number of its digits.
#[verifier::external_body]
fn parse_uuid(text: &str) -> (r: Option<u128>)
    ensures
        r == uuid_of(text@),
{
    match uuid::Uuid::parse_str(text) {
        Ok(uuid) => Some(uuid.as_u128()),
        Err(_) => None,
    }
}

/// Calls `uuid::Uuid::try_parse`, which differs from `parse_str` in its
/// error alone.
#[verifier::external_body]
fn try_parse_uuid(text: &str) -> (r: Option<u128>)
    ensures
        r == uuid_of(text@),
{
    match uuid::Uuid::try_parse(text) {
        Ok(uuid) => Some(uuid.as_u128()),
        Err(_) => None,
    }
}

/// Iceberg's layout without Hadoop names every namespace and table by UUID.
pub fn is_uuid(s: &str) -> (r: bool)
    ensures
        r == (uuid_of(s@) is Some),
{
    parse_uuid(s).is_some()
}

/// Reads a UUID.
pub fn read_uuid(s: &str) -> (r: Option<u128>)
    ensures
        r == uuid_of(s@),
{
    try_parse_uuid(s)
}

/// The character for a hexadecimal digit, in lower case.
pub open spec fn hex_char(d: nat) -> char {
    if d < 10 {
        ('0' as nat + d) as char
    } else {
        ('a' as nat + d - 10) as char
    }
}

/// The last `width` hexadecimal digits of `n`.
pub open spec fn hex_text(n: nat, width: nat) -> Seq<char>
    decreases width,
{
    if width == 0 {
        Seq::empty()
    } else {
        hex_text(n / 16, (width - 1) as nat).push(hex_char(n % 16))
    }
}

/// A UUID in groups of digits with hyphens in between.
pub open spec fn uuid_text(n: u128) -> Seq<char> {
    let d = hex_text(n as nat, 32);
    d.subrange(0, 8) + "-"@ + d.subrange(8, 12) + "-"@ + d.subrange(12, 16) + "-"@ + d.subrange(
        16,
        20,
    ) + "-"@ + d.subrange(20, 32)
}

/// Writes a UUID with the `Display` of `uuid::Uuid`. Claimed: groups of
/// digits in lower case with hyphens in between.
#[verifier::external_body]
fn display_uuid(uuid: u128) -> (r: String)
    ensures
        r@ == uuid_text(uuid),
{
    uuid::Uuid::from_u128(uuid).to_string()
}

/// Writes a UUID.
pub fn write_uuid(uuid: u128) -> (r: String)
    ensures
        r@ == uuid_text(uuid),
{
    display_uuid(uuid)
}

proof fn lemma_hex_text(n: nat, width: nat)
    requires
        n < pow(16, width),
    ensures
        hex_text(n, width).len() == width,
        all_hex(hex_text(n, width)),
        hex_number(hex_text(n, width)) == n,
    decreases width,
{
    if width == 0 {
        vstd::arithmetic::power::lemma_pow0(16);
    } else {
        vstd::arithmetic::power::lemma_pow1(16);
        vstd::arithmetic::power::lemma_pow_adds(16, 1, (width - 1) as nat);
        assert(pow(16, width) == 16 * pow(16, (width - 1) as nat));
        lemma_hex_text(n / 16, (width - 1) as nat);
        let d = hex_text(n, width);
        assert(d.drop_last() =~= hex_text(n / 16, (width - 1) as nat));
        assert(hex_digit(d.last()) == n % 16);
    }
}

/// A UUID that was written is read back.
pub proof fn written_uuid_is_read_back(uuid: u128)
    ensures
        uuid_of(uuid_text(uuid)) == Some(uuid),
{
    let d = hex_text(uuid as nat, 32);
    assert((uuid as nat) < pow(16, 32)) by {
        vstd::arithmetic::power::lemma_pow_adds(16, 16, 16);
        vstd::arithmetic::power::lemma_pow_adds(16, 8, 8);
        vstd::arithmetic::power::lemma_pow_adds(16, 4, 4);
        vstd::arithmetic::power::lemma_pow_adds(16, 2, 2);
        vstd::arithmetic::power::lemma_pow_adds(16, 1, 1);
        vstd::arithmetic::power::lemma_pow1(16);
        let (a, b, c, d, e) = (pow(16, 2), pow(16, 4), pow(16, 8), pow(16, 16), pow(16, 32));
        assert(e == 0x1_0000_0000_0000_0000_0000_0000_0000_0000) by (nonlinear_arith)
            requires
                a == 16 * 16,
                b == a * a,
                c == b * b,
                d == c * c,
                e == d * d,
        ;
    }
    lemma_hex_text(uuid as nat, 32);
    let s = uuid_text(uuid);
    reveal_strlit("-");
    assert(s.len() == 36);
    assert(s[8] == '-' && s[13] == '-' && s[18] == '-' && s[23] == '-');
    assert(s.subrange(0, 8) + s.subrange(9, 13) + s.subrange(14, 18) + s.subrange(19, 23)
        + s.subrange(24, 36) =~= d);
}

} // verus!
