//! The frame of an Avro container file: its header, and the blocks behind it.
//!
//! A container file begins with four bytes, a map with the schema in it and a
//! marker of sixteen bytes. Then come the blocks: how many records, how many
//! bytes, these bytes, and the marker. Numbers are written in groups of seven
//! bits, the lowest first, and alternate between the signs.
use vstd::prelude::*;
use vstd::slice::slice_subrange;

use crate::iceberg::avro_schema::{is_shallow, is_simple, schema_fits, test_schema};
use crate::json::{json_parsed, parse_json};

verus! {

/// The most bytes that the reader takes for one part, and the most records
/// that a block may announce.
pub const LARGEST_PART: i64 = 0x2000_0000;

/// The length of the marker between blocks.
pub const MARKER_LEN: usize = 16;

// ---------------------------------------------------------------------------
// Numbers
// ---------------------------------------------------------------------------

/// The groups of seven bits from `i` on, and where they end. The first group
/// counts `scale` times; there are ten groups at most, and only one bit of
/// the tenth counts.
pub open spec fn groups_at(bytes: Seq<u8>, i: int, scale: nat) -> Option<(nat, int)>
    decreases bytes.len() - i,
{
    if i < 0 || i >= bytes.len() || scale > 0x8000_0000_0000_0000 {
        None
    } else {
        let group = bytes[i] as nat % 128;
        let low = if scale == 0x8000_0000_0000_0000 {
            (group % 2) * scale
        } else {
            group * scale
        };
        if bytes[i] < 128 {
            Some((low, i + 1))
        } else {
            match groups_at(bytes, i + 1, scale * 128) {
                Some((rest, end)) => Some((low + rest, end)),
                None => None,
            }
        }
    }
}

/// The number at `i`, and where it ends.
pub open spec fn number_at(bytes: Seq<u8>, i: int) -> Option<(int, int)> {
    match groups_at(bytes, i, 1) {
        Some((z, end)) => Some(
            (
                if z % 2 == 0 {
                    (z / 2) as int
                } else {
                    -(z / 2) - 1
                },
                end,
            ),
        ),
        None => None,
    }
}

spec fn is_scale(scale: nat) -> bool {
    ||| scale == 1
    ||| scale == 0x80
    ||| scale == 0x4000
    ||| scale == 0x20_0000
    ||| scale == 0x1000_0000
    ||| scale == 0x8_0000_0000
    ||| scale == 0x400_0000_0000
    ||| scale == 0x2_0000_0000_0000
    ||| scale == 0x100_0000_0000_0000
    ||| scale == 0x8000_0000_0000_0000
}

proof fn lemma_groups(bytes: Seq<u8>, i: int, scale: nat)
    requires
        is_scale(scale) || scale > 0x8000_0000_0000_0000,
        0 <= i,
    ensures
        groups_at(bytes, i, scale) matches Some((z, end)) ==> z + scale <= 0x1_0000_0000_0000_0000
            && i < end <= bytes.len(),
    decreases bytes.len() - i,
{
    if i < bytes.len() && scale <= 0x8000_0000_0000_0000 {
        lemma_groups(bytes, i + 1, scale * 128);
        let group = bytes[i] as nat % 128;
        assert(group * scale <= 127 * scale) by (nonlinear_arith)
            requires
                group <= 127,
        ;
        assert((group % 2) * scale <= scale) by (nonlinear_arith)
            requires
                group % 2 <= 1,
        ;
    }
}

fn read_groups(bytes: &[u8], i: usize, scale: u64) -> (r: Option<(u64, usize)>)
    requires
        is_scale(scale as nat),
        i <= bytes@.len(),
    ensures
        match r {
            Some((z, end)) => groups_at(bytes@, i as int, scale as nat) == Some(
                (z as nat, end as int),
            ),
            None => groups_at(bytes@, i as int, scale as nat) is None,
        },
    decreases bytes@.len() - i,
{
    if i >= bytes.len() {
        return None;
    }
    proof {
        lemma_groups(bytes@, i as int, scale as nat);
        lemma_groups(bytes@, i + 1, scale as nat * 128);
    }
    let byte = bytes[i];
    let group: u64 = (byte % 128) as u64;
    let last = scale == 0x8000_0000_0000_0000;
    proof {
        assert(group * scale <= 127 * scale) by (nonlinear_arith)
            requires
                group <= 127,
        ;
        assert((group % 2) * scale <= scale) by (nonlinear_arith)
            requires
                group % 2 <= 1,
        ;
    }
    let low: u64 = if last {
        (group % 2) * scale
    } else {
        group * scale
    };
    if byte < 128 {
        return Some((low, i + 1));
    }
    if last {
        return None;
    }
    match read_groups(bytes, i + 1, scale * 128) {
        Some((rest, end)) => Some((low + rest, end)),
        None => None,
    }
}

/// Reads the number at `i`.
fn read_number(bytes: &[u8], i: usize) -> (r: Option<(i64, usize)>)
    requires
        i <= bytes@.len(),
    ensures
        match r {
            Some((n, end)) => number_at(bytes@, i as int) == Some((n as int, end as int)) && i < end
                <= bytes@.len(),
            None => number_at(bytes@, i as int) is None,
        },
{
    proof {
        lemma_groups(bytes@, i as int, 1);
    }
    match read_groups(bytes, i, 1) {
        Some((z, end)) => {
            let half: i64 = (z / 2) as i64;
            let n: i64 = if z % 2 == 0 {
                half
            } else {
                -half - 1
            };
            Some((n, end))
        },
        None => None,
    }
}

// ---------------------------------------------------------------------------
// The header
// ---------------------------------------------------------------------------

/// The bytes behind their length at `i`, and where they end.
pub open spec fn bytes_at(bytes: Seq<u8>, i: int) -> Option<(Seq<u8>, int)> {
    match number_at(bytes, i) {
        Some((len, start)) => if 0 <= len <= LARGEST_PART && start + len <= bytes.len() {
            Some((bytes.subrange(start, start + len), start + len))
        } else {
            None
        },
        None => None,
    }
}

/// The key of the schema in a header.
pub open spec fn schema_key() -> Seq<u8> {
    seq![0x61, 0x76, 0x72, 0x6f, 0x2e, 0x73, 0x63, 0x68, 0x65, 0x6d, 0x61]
}

/// What `n` keys and values from `i` on say of the schema, and where they
/// end. The last one counts.
pub open spec fn entries_at(bytes: Seq<u8>, i: int, n: nat, schema: Option<Seq<u8>>) -> Option<
    (Option<Seq<u8>>, int),
>
    decreases n,
{
    if n == 0 {
        Some((schema, i))
    } else {
        match bytes_at(bytes, i) {
            Some((key, middle)) => match bytes_at(bytes, middle) {
                Some((value, end)) => entries_at(
                    bytes,
                    end,
                    (n - 1) as nat,
                    if key == schema_key() {
                        Some(value)
                    } else {
                        schema
                    },
                ),
                None => None,
            },
            None => None,
        }
    }
}

/// How many entries the part of a map at `i` has, and where they begin: a
/// negative number stands for its opposite, with a length behind it.
pub open spec fn count_at(bytes: Seq<u8>, i: int) -> Option<(int, int)> {
    match number_at(bytes, i) {
        Some((n, end)) => if n >= 0 {
            Some((n, end))
        } else {
            match number_at(bytes, end) {
                Some((_, after)) => Some((-n, after)),
                None => None,
            }
        },
        None => None,
    }
}

/// What the map from `i` on says of the schema, and where it ends: part by
/// part up to an empty one. No part announces more entries than there are
/// bytes.
pub open spec fn map_at(bytes: Seq<u8>, i: int, schema: Option<Seq<u8>>) -> Option<
    (Option<Seq<u8>>, int),
>
    decreases bytes.len() - i,
{
    match count_at(bytes, i) {
        Some((n, start)) => if n == 0 {
            Some((schema, start))
        } else if n > bytes.len() {
            None
        } else {
            match entries_at(bytes, start, n as nat, schema) {
                Some((found, end)) => if i < end <= bytes.len() {
                    map_at(bytes, end, found)
                } else {
                    None
                },
                None => None,
            }
        },
        None => None,
    }
}

/// Do the bytes begin as a container file does?
pub open spec fn is_container(bytes: Seq<u8>) -> bool {
    bytes.len() >= 4 && bytes[0] == 0x4f && bytes[1] == 0x62 && bytes[2] == 0x6a && bytes[3] == 1
}

/// The schema in the header, if the header names one, and where the header
/// ends.
pub open spec fn header_of(bytes: Seq<u8>) -> Option<(Option<Seq<u8>>, int)> {
    match map_at(bytes, 4, None) {
        Some((schema, end)) => if end + MARKER_LEN <= bytes.len() {
            Some((schema, end + MARKER_LEN))
        } else {
            None
        },
        None => None,
    }
}

proof fn lemma_number(bytes: Seq<u8>, i: int)
    requires
        0 <= i,
    ensures
        number_at(bytes, i) matches Some((_, end)) ==> i < end <= bytes.len(),
{
    lemma_groups(bytes, i, 1);
}

proof fn lemma_entries(bytes: Seq<u8>, i: int, n: nat, schema: Option<Seq<u8>>)
    requires
        0 <= i <= bytes.len(),
    ensures
        entries_at(bytes, i, n, schema) matches Some((_, end)) ==> i <= end <= bytes.len(),
    decreases n,
{
    if n > 0 {
        lemma_number(bytes, i);
        if let Some((key, middle)) = bytes_at(bytes, i) {
            lemma_number(bytes, middle);
            if let Some((value, end)) = bytes_at(bytes, middle) {
                lemma_entries(
                    bytes,
                    end,
                    (n - 1) as nat,
                    if key == schema_key() {
                        Some(value)
                    } else {
                        schema
                    },
                );
            }
        }
    }
}

/// A piece of the bytes: where it begins and where it ends.
struct Piece {
    start: usize,
    end: usize,
}

impl Piece {
    spec fn lies_in(self, bytes: Seq<u8>) -> bool {
        self.start <= self.end <= bytes.len()
    }

    spec fn of(self, bytes: Seq<u8>) -> Seq<u8> {
        bytes.subrange(self.start as int, self.end as int)
    }
}

/// What the piece holds, if there is one.
spec fn held(piece: Option<Piece>, bytes: Seq<u8>) -> Option<Seq<u8>> {
    match piece {
        Some(piece) => Some(piece.of(bytes)),
        None => None,
    }
}

fn read_bytes(bytes: &[u8], i: usize) -> (r: Option<Piece>)
    requires
        i <= bytes@.len(),
    ensures
        match r {
            Some(piece) => piece.lies_in(bytes@) && bytes_at(bytes@, i as int) == Some(
                (piece.of(bytes@), piece.end as int),
            ) && i < piece.end,
            None => bytes_at(bytes@, i as int) is None,
        },
{
    match read_number(bytes, i) {
        Some((len, start)) => {
            if len < 0 || len > LARGEST_PART {
                return None;
            }
            let len: usize = len as usize;
            if len > bytes.len() - start {
                return None;
            }
            Some(Piece { start, end: start + len })
        },
        None => None,
    }
}

fn is_schema_key(bytes: &[u8], piece: &Piece) -> (r: bool)
    requires
        piece.lies_in(bytes@),
    ensures
        r == (piece.of(bytes@) == schema_key()),
{
    let ghost held = piece.of(bytes@);
    let key: [u8; 11] = [0x61, 0x76, 0x72, 0x6f, 0x2e, 0x73, 0x63, 0x68, 0x65, 0x6d, 0x61];
    proof {
        assert(key@ =~= schema_key());
    }
    if piece.end - piece.start != 11 {
        return false;
    }
    let mut k: usize = 0;
    while k < 11
        invariant
            k <= 11,
            piece.lies_in(bytes@),
            piece.end - piece.start == 11,
            held == piece.of(bytes@),
            key@ == schema_key(),
            forall|j: int| 0 <= j < k ==> #[trigger] held[j] == schema_key()[j],
        decreases 11 - k,
    {
        proof {
            assert(held[k as int] == bytes@[piece.start + k]);
        }
        if bytes[piece.start + k] != key[k] {
            return false;
        }
        k += 1;
    }
    proof {
        assert(held =~= schema_key());
    }
    true
}

/// What the entries of a header say of the schema, and where they end.
struct Found {
    schema: Option<Piece>,
    end: usize,
}

impl Found {
    spec fn lies_in(self, bytes: Seq<u8>) -> bool {
        &&& self.schema matches Some(piece) ==> piece.lies_in(bytes)
        &&& self.end <= bytes.len()
    }
}

fn read_entries(bytes: &[u8], found: Found, n: usize) -> (r: Option<Found>)
    requires
        found.lies_in(bytes@),
    ensures
        match r {
            Some(after) => after.lies_in(bytes@) && entries_at(
                bytes@,
                found.end as int,
                n as nat,
                held(found.schema, bytes@),
            ) == Some((held(after.schema, bytes@), after.end as int)),
            None => entries_at(
                bytes@,
                found.end as int,
                n as nat,
                held(found.schema, bytes@),
            ) is None,
        },
{
    let mut left: usize = n;
    let ghost wanted = entries_at(
        bytes@,
        found.end as int,
        n as nat,
        held(found.schema, bytes@),
    );
    let mut now = Found { schema: found.schema, end: found.end };
    while left > 0
        invariant
            now.lies_in(bytes@),
            wanted == entries_at(
                bytes@,
                found.end as int,
                n as nat,
                held(found.schema, bytes@),
            ),
            wanted == entries_at(
                bytes@,
                now.end as int,
                left as nat,
                held(now.schema, bytes@),
            ),
        decreases left,
    {
        let key = match read_bytes(bytes, now.end) {
            Some(key) => key,
            None => return None,
        };
        let value = match read_bytes(bytes, key.end) {
            Some(value) => value,
            None => return None,
        };
        let end = value.end;
        if is_schema_key(bytes, &key) {
            now = Found { schema: Some(value), end };
        } else {
            now = Found { schema: now.schema, end };
        }
        left -= 1;
    }
    Some(now)
}

fn read_count(bytes: &[u8], i: usize) -> (r: Option<(usize, usize)>)
    requires
        i <= bytes@.len(),
    ensures
        match r {
            Some((n, start)) => count_at(bytes@, i as int) == Some((n as int, start as int)) && n
                <= bytes@.len() && i < start <= bytes@.len(),
            None => count_at(bytes@, i as int) matches Some((n, _)) ==> n > bytes@.len(),
        },
{
    match read_number(bytes, i) {
        Some((n, end)) => {
            let (n, start): (u64, usize) = if n >= 0 {
                (n as u64, end)
            } else {
                match read_number(bytes, end) {
                    Some((_, after)) => ((-(n as i128)) as u64, after),
                    None => return None,
                }
            };
            if n > bytes.len() as u64 {
                return None;
            }
            Some((n as usize, start))
        },
        None => None,
    }
}

fn read_map(bytes: &[u8], found: Found) -> (r: Option<Found>)
    requires
        found.lies_in(bytes@),
    ensures
        match r {
            Some(after) => after.lies_in(bytes@) && map_at(
                bytes@,
                found.end as int,
                held(found.schema, bytes@),
            ) == Some((held(after.schema, bytes@), after.end as int)),
            None => map_at(bytes@, found.end as int, held(found.schema, bytes@)) is None,
        },
    decreases bytes@.len() - found.end,
{
    let i: usize = found.end;
    let (n, start): (usize, usize) = match read_count(bytes, i) {
        Some(count) => count,
        None => return None,
    };
    if n == 0 {
        return Some(Found { schema: found.schema, end: start });
    }
    proof {
        lemma_entries(bytes@, start as int, n as nat, held(found.schema, bytes@));
    }
    match read_entries(bytes, Found { schema: found.schema, end: start }, n) {
        Some(after) => read_map(bytes, after),
        None => None,
    }
}

// ---------------------------------------------------------------------------
// The blocks
// ---------------------------------------------------------------------------

/// Does none of the blocks from `i` on announce more records than a block may
/// have? The reader stops at an empty block, and at one that is cut off.
pub open spec fn blocks_fit(bytes: Seq<u8>, i: int) -> bool
    decreases bytes.len() - i,
{
    match number_at(bytes, i) {
        None => true,
        Some((count, middle)) => if count < 0 || count > LARGEST_PART {
            false
        } else if count == 0 {
            true
        } else {
            match number_at(bytes, middle) {
                None => true,
                Some((size, start)) => if 0 <= size <= LARGEST_PART && i < start + size + MARKER_LEN
                    <= bytes.len() {
                    blocks_fit(bytes, start + size + MARKER_LEN)
                } else {
                    true
                },
            }
        },
    }
}

fn test_blocks(bytes: &[u8], i: usize) -> (r: bool)
    requires
        i <= bytes@.len(),
    ensures
        r == blocks_fit(bytes@, i as int),
{
    let mut at: usize = i;
    let ghost wanted = blocks_fit(bytes@, i as int);
    loop
        invariant
            at <= bytes@.len(),
            wanted == blocks_fit(bytes@, i as int),
            wanted == blocks_fit(bytes@, at as int),
        decreases bytes@.len() - at,
    {
        let (count, middle): (i64, usize) = match read_number(bytes, at) {
            Some(number) => number,
            None => return true,
        };
        if count < 0 || count > LARGEST_PART {
            return false;
        }
        if count == 0 {
            return true;
        }
        let (size, start): (i64, usize) = match read_number(bytes, middle) {
            Some(number) => number,
            None => return true,
        };
        if size < 0 || size > LARGEST_PART {
            return true;
        }
        let size: usize = size as usize;
        let left: usize = bytes.len() - start;
        if left < MARKER_LEN || size > left - MARKER_LEN {
            return true;
        }
        at = start + size + MARKER_LEN;
    }
}

// ---------------------------------------------------------------------------
// The file
// ---------------------------------------------------------------------------

/// Can the bytes be given to the reader? They can if they are no container
/// file, which it refuses. If they are one, the header is whole, its schema
/// is none on which the parser breaks down, and no block announces more
/// records than a block may have. If the file is to be written again, the
/// schema is none on which the writer breaks down either.
pub open spec fn is_readable(bytes: Seq<u8>, writing: bool) -> bool {
    is_container(bytes) ==> match header_of(bytes) {
        Some((schema, end)) => {
            &&& schema matches Some(text) ==> (json_parsed(text) matches Some(data) ==> schema_fits(
                data,
                writing,
            ))
            &&& blocks_fit(bytes, end)
        },
        None => false,
    }
}

/// The most bytes that the text of a simple schema has.
pub const SIMPLE_TEXT: usize = 0x10_0000;

/// How deep a simple schema may be.
pub const SIMPLE_DEPTH: usize = 32;

/// Has the file a simple schema, of an ordinary length and depth? If only
/// optional values are asked for, every union in it begins with null.
pub open spec fn has_simple_schema(bytes: Seq<u8>, optional: bool) -> bool {
    &&& header_of(bytes) matches Some((Some(text), _))
    &&& text.len() <= SIMPLE_TEXT
    &&& json_parsed(text) matches Some(data)
    &&& is_simple(data, optional)
    &&& is_shallow(data, SIMPLE_DEPTH as nat)
}

/// Tests whether the bytes can be given to the reader, and, if the file is to
/// be written again, to the writer.
pub fn test_readable(bytes: &[u8], writing: bool) -> (r: bool)
    ensures
        r == is_readable(bytes@, writing),
{
    if bytes.len() < 4 || bytes[0] != 0x4f || bytes[1] != 0x62 || bytes[2] != 0x6a || bytes[3]
        != 1 {
        return true;
    }
    let found = match read_map(bytes, Found { schema: None, end: 4 }) {
        Some(found) => found,
        None => return false,
    };
    if bytes.len() - found.end < MARKER_LEN {
        return false;
    }
    if let Some(piece) = found.schema {
        let text = slice_subrange(bytes, piece.start, piece.end);
        if let Some(schema) = parse_json(text) {
            if !test_schema(&schema, writing) {
                return false;
            }
        }
    }
    test_blocks(bytes, found.end + MARKER_LEN)
}

// ---------------------------------------------------------------------------
// What is written is found again
// ---------------------------------------------------------------------------

/// A number in groups of seven bits, the lowest first. All but the last have
/// the highest bit set.
pub open spec fn groups_of(z: nat) -> Seq<u8>
    decreases z,
{
    if z < 128 {
        seq![z as u8]
    } else {
        seq![(z % 128 + 128) as u8] + groups_of(z / 128)
    }
}

/// A number as it stands in a file: small ones of either sign take up little
/// room.
pub open spec fn number_bytes(n: i64) -> Seq<u8> {
    groups_of(
        if n >= 0 {
            (2 * n) as nat
        } else {
            (-2 * n - 1) as nat
        },
    )
}

proof fn lemma_groups_of(front: Seq<u8>, z: nat, rest: Seq<u8>, scale: nat)
    requires
        is_scale(scale),
        scale <= 0x8000_0000_0000_0000,
        z * scale < 0x1_0000_0000_0000_0000,
    ensures
        groups_of(z).len() > 0,
        groups_at(front + groups_of(z) + rest, front.len() as int, scale) == Some(
            (z * scale, (front.len() + groups_of(z).len()) as int),
        ),
    decreases z,
{
    let bytes = front + groups_of(z) + rest;
    let i = front.len() as int;
    if z < 128 {
        assert(bytes[i] == z as u8);
        if scale == 0x8000_0000_0000_0000 {
            assert(z < 2);
        }
    } else {
        let head = (z % 128 + 128) as u8;
        assert(bytes[i] == head);
        assert(scale < 0x200_0000_0000_0000) by (nonlinear_arith)
            requires
                z >= 128,
                z * scale < 0x1_0000_0000_0000_0000,
        ;
        assert(z == 128 * (z / 128) + z % 128);
        assert((z / 128) * (scale * 128) + (z % 128) * scale == z * scale) by (nonlinear_arith)
            requires
                z == 128 * (z / 128) + z % 128,
        ;
        assert((z % 128) * scale >= 0) by (nonlinear_arith);
        let longer = front.push(head);
        lemma_groups_of(longer, z / 128, rest, scale * 128);
        assert(bytes =~= longer + groups_of(z / 128) + rest);
        assert(head as nat % 128 == z % 128);
    }
}

/// A number that was written is found where it stands, whatever is around it.
pub proof fn written_number_is_found(front: Seq<u8>, n: i64, rest: Seq<u8>)
    ensures
        number_bytes(n).len() > 0,
        number_at(front + number_bytes(n) + rest, front.len() as int) == Some(
            (n as int, (front.len() + number_bytes(n).len()) as int),
        ),
{
    let z = if n >= 0 {
        (2 * n) as nat
    } else {
        (-2 * n - 1) as nat
    };
    lemma_groups_of(front, z, rest, 1);
    assert(z * 1 == z);
}

/// Bytes as they stand in a file: behind their length.
pub open spec fn part_bytes(data: Seq<u8>) -> Seq<u8> {
    number_bytes(data.len() as i64) + data
}

/// Bytes that were written behind their length are found where they stand.
pub proof fn written_part_is_found(front: Seq<u8>, data: Seq<u8>, rest: Seq<u8>)
    requires
        data.len() <= LARGEST_PART,
    ensures
        bytes_at(front + part_bytes(data) + rest, front.len() as int) == Some(
            (data, (front.len() + part_bytes(data).len()) as int),
        ),
{
    let n = data.len() as i64;
    let bytes = front + part_bytes(data) + rest;
    written_number_is_found(front, n, data + rest);
    assert(bytes =~= front + number_bytes(n) + (data + rest));
    let start = (front.len() + number_bytes(n).len()) as int;
    assert(bytes.subrange(start, start + data.len()) =~= data);
}

/// The keys and values of a header as they stand in a file.
pub open spec fn entry_bytes(entries: Seq<(Seq<u8>, Seq<u8>)>) -> Seq<u8>
    decreases entries.len(),
{
    if entries.len() == 0 {
        Seq::empty()
    } else {
        part_bytes(entries[0].0) + part_bytes(entries[0].1) + entry_bytes(entries.skip(1))
    }
}

/// The value of the last entry with the key of the schema; `schema` if there
/// is none.
pub open spec fn schema_among(
    entries: Seq<(Seq<u8>, Seq<u8>)>,
    schema: Option<Seq<u8>>,
) -> Option<Seq<u8>>
    decreases entries.len(),
{
    if entries.len() == 0 {
        schema
    } else if entries.last().0 == schema_key() {
        Some(entries.last().1)
    } else {
        schema_among(entries.drop_last(), schema)
    }
}

proof fn lemma_schema_among(entries: Seq<(Seq<u8>, Seq<u8>)>, schema: Option<Seq<u8>>)
    requires
        entries.len() > 0,
    ensures
        schema_among(entries, schema) == schema_among(
            entries.skip(1),
            if entries[0].0 == schema_key() {
                Some(entries[0].1)
            } else {
                schema
            },
        ),
    decreases entries.len(),
{
    if entries.len() > 1 {
        assert(entries.skip(1).drop_last() =~= entries.drop_last().skip(1));
        assert(entries.skip(1).last() == entries.last());
        lemma_schema_among(entries.drop_last(), schema);
    } else {
        assert(entries.drop_last() =~= Seq::<(Seq<u8>, Seq<u8>)>::empty());
        assert(entries.skip(1) =~= Seq::<(Seq<u8>, Seq<u8>)>::empty());
    }
}

/// Is every key and value of a size that a file may have?
pub open spec fn entries_fit(entries: Seq<(Seq<u8>, Seq<u8>)>) -> bool {
    forall|i: int|
        0 <= i < entries.len() ==> (#[trigger] entries[i]).0.len() <= LARGEST_PART
            && entries[i].1.len() <= LARGEST_PART
}

proof fn lemma_entries_found(
    front: Seq<u8>,
    entries: Seq<(Seq<u8>, Seq<u8>)>,
    rest: Seq<u8>,
    schema: Option<Seq<u8>>,
)
    requires
        entries_fit(entries),
    ensures
        entries_at(
            front + entry_bytes(entries) + rest,
            front.len() as int,
            entries.len(),
            schema,
        ) == Some(
            (schema_among(entries, schema), (front.len() + entry_bytes(entries).len()) as int),
        ),
        entry_bytes(entries).len() >= entries.len(),
    decreases entries.len(),
{
    if entries.len() > 0 {
        let bytes = front + entry_bytes(entries) + rest;
        let key = entries[0].0;
        let value = entries[0].1;
        let after = entries.skip(1);
        assert(key.len() <= LARGEST_PART && value.len() <= LARGEST_PART);
        let tail = entry_bytes(after) + rest;
        written_part_is_found(front, key, part_bytes(value) + tail);
        assert(bytes =~= front + part_bytes(key) + (part_bytes(value) + tail));
        let middle = front + part_bytes(key);
        written_part_is_found(middle, value, tail);
        assert(bytes =~= middle + part_bytes(value) + tail);
        let end = middle + part_bytes(value);
        assert(bytes =~= end + entry_bytes(after) + rest);
        assert forall|i: int| 0 <= i < after.len() implies (#[trigger] after[i]).0.len()
            <= LARGEST_PART && after[i].1.len() <= LARGEST_PART by {
            assert(after[i] == entries[i + 1]);
        }
        let found = if key == schema_key() {
            Some(value)
        } else {
            schema
        };
        lemma_entries_found(end, after, rest, found);
        lemma_schema_among(entries, schema);
        written_number_is_found(front, key.len() as i64, Seq::empty());
    }
}

/// A file as it begins: four bytes that mark it, the keys and values of its
/// header, and a marker.
pub open spec fn header_bytes(entries: Seq<(Seq<u8>, Seq<u8>)>, marker: Seq<u8>) -> Seq<u8> {
    seq![0x4fu8, 0x62u8, 0x6au8, 1u8] + number_bytes(entries.len() as i64) + entry_bytes(entries)
        + number_bytes(0) + marker
}

/// In a file that begins with such a header the schema is found, if the
/// header has one, and the end of the header too. The schema stands under the
/// key `avro.schema`; of several the last one counts.
pub proof fn header_gives_its_schema(
    entries: Seq<(Seq<u8>, Seq<u8>)>,
    marker: Seq<u8>,
    rest: Seq<u8>,
)
    requires
        0 < entries.len() <= i64::MAX,
        entries_fit(entries),
        marker.len() == 16,
    ensures
        is_container(header_bytes(entries, marker) + rest),
        header_of(header_bytes(entries, marker) + rest) == Some(
            (schema_among(entries, None), header_bytes(entries, marker).len() as int),
        ),
        schema_key().len() == "avro.schema"@.len(),
        forall|i: int|
            0 <= i < 11 ==> #[trigger] schema_key()[i] as nat == "avro.schema"@[i] as nat,
{
    reveal_strlit("avro.schema");
    let magic = seq![0x4fu8, 0x62u8, 0x6au8, 1u8];
    let n = number_bytes(entries.len() as i64);
    let bytes = header_bytes(entries, marker) + rest;
    let tail = number_bytes(0) + marker + rest;
    written_number_is_found(magic, entries.len() as i64, entry_bytes(entries) + tail);
    assert(bytes =~= magic + n + (entry_bytes(entries) + tail));
    lemma_entries_found(magic + n, entries, tail, None);
    assert(bytes =~= magic + n + entry_bytes(entries) + tail);
    let end = magic + n + entry_bytes(entries);
    written_number_is_found(end, 0, marker + rest);
    assert(bytes =~= end + number_bytes(0) + (marker + rest));
    reveal_with_fuel(map_at, 2);
}

/// Blocks of records as they stand in a file: each has its number of records,
/// its bytes behind their length, and the marker.
pub open spec fn block_bytes(blocks: Seq<(i64, Seq<u8>)>, marker: Seq<u8>) -> Seq<u8>
    decreases blocks.len(),
{
    if blocks.len() == 0 {
        Seq::empty()
    } else {
        number_bytes(blocks[0].0) + part_bytes(blocks[0].1) + marker + block_bytes(
            blocks.skip(1),
            marker,
        )
    }
}

/// Blocks of an ordinary size are let through, and none is once a block
/// announces too many records, or a negative number of them.
pub proof fn only_blocks_beyond_reason_are_refused(
    front: Seq<u8>,
    blocks: Seq<(i64, Seq<u8>)>,
    marker: Seq<u8>,
    count: i64,
    rest: Seq<u8>,
)
    requires
        marker.len() == 16,
        forall|i: int|
            0 <= i < blocks.len() ==> 0 < (#[trigger] blocks[i]).0 <= LARGEST_PART
                && blocks[i].1.len() <= LARGEST_PART,
    ensures
        blocks_fit(front + block_bytes(blocks, marker), front.len() as int),
        count < 0 || count > LARGEST_PART ==> !blocks_fit(
            front + block_bytes(blocks, marker) + (number_bytes(count) + rest),
            front.len() as int,
        ),
    decreases blocks.len(),
{
    if blocks.len() == 0 {
        assert(front + block_bytes(blocks, marker) =~= front);
        written_number_is_found(front, count, rest);
        assert(front + block_bytes(blocks, marker) + (number_bytes(count) + rest) =~= front
            + number_bytes(count) + rest);
    } else {
        let after = blocks.skip(1);
        assert(0 < blocks[0].0 <= LARGEST_PART && blocks[0].1.len() <= LARGEST_PART);
        assert forall|i: int| 0 <= i < after.len() implies 0 < (#[trigger] after[i]).0
            <= LARGEST_PART && after[i].1.len() <= LARGEST_PART by {
            assert(after[i] == blocks[i + 1]);
        }
        let next = front + number_bytes(blocks[0].0) + part_bytes(blocks[0].1) + marker;
        only_blocks_beyond_reason_are_refused(next, after, marker, count, rest);
        let tail = block_bytes(after, marker);
        lemma_block(front, blocks[0].0, blocks[0].1, marker, tail);
        lemma_block(front, blocks[0].0, blocks[0].1, marker, tail + (number_bytes(count) + rest));
        assert(front + block_bytes(blocks, marker) =~= next + tail);
        assert(front + block_bytes(blocks, marker) + (number_bytes(count) + rest) =~= next + tail
            + (number_bytes(count) + rest));
        assert(next + tail + (number_bytes(count) + rest) =~= next + (tail + (number_bytes(count)
            + rest)));
    }
}

proof fn lemma_block(front: Seq<u8>, count: i64, data: Seq<u8>, marker: Seq<u8>, rest: Seq<u8>)
    requires
        0 < count <= LARGEST_PART,
        data.len() <= LARGEST_PART,
        marker.len() == 16,
    ensures
        ({
            let next = front + number_bytes(count) + part_bytes(data) + marker;
            blocks_fit(next + rest, front.len() as int) == blocks_fit(
                next + rest,
                next.len() as int,
            )
        }),
{
    let next = front + number_bytes(count) + part_bytes(data) + marker;
    let bytes = next + rest;
    written_number_is_found(front, count, part_bytes(data) + marker + rest);
    assert(bytes =~= front + number_bytes(count) + (part_bytes(data) + marker + rest));
    let middle = front + number_bytes(count);
    written_number_is_found(middle, data.len() as i64, data + marker + rest);
    assert(bytes =~= middle + number_bytes(data.len() as i64) + (data + marker + rest));
}

/// An ordinary container file is let through: one whose schema is none that
/// the parser breaks down on, with blocks of an ordinary size. So is whatever
/// is no container file.
pub proof fn ordinary_files_are_let_through(
    entries: Seq<(Seq<u8>, Seq<u8>)>,
    marker: Seq<u8>,
    blocks: Seq<(i64, Seq<u8>)>,
    writing: bool,
    other: Seq<u8>,
)
    requires
        0 < entries.len() <= i64::MAX,
        entries_fit(entries),
        marker.len() == 16,
        forall|i: int|
            0 <= i < blocks.len() ==> 0 < (#[trigger] blocks[i]).0 <= LARGEST_PART
                && blocks[i].1.len() <= LARGEST_PART,
        !is_container(other),
    ensures
        ({
            let bytes = header_bytes(entries, marker) + block_bytes(blocks, marker);
            is_readable(bytes, writing) <==> (schema_among(entries, None) matches Some(text) ==> (
            json_parsed(text) matches Some(data) ==> schema_fits(data, writing)))
        }),
        is_readable(other, writing),
{
    header_gives_its_schema(entries, marker, block_bytes(blocks, marker));
    only_blocks_beyond_reason_are_refused(
        header_bytes(entries, marker),
        blocks,
        marker,
        0,
        Seq::empty(),
    );
}

/// A container file with a block that announces too many records, or a
/// negative number of them, is not let through, nor is one whose header is cut
/// off.
pub proof fn broken_files_are_not_let_through(
    entries: Seq<(Seq<u8>, Seq<u8>)>,
    marker: Seq<u8>,
    blocks: Seq<(i64, Seq<u8>)>,
    count: i64,
    rest: Seq<u8>,
    writing: bool,
    cut_off: Seq<u8>,
)
    requires
        0 < entries.len() <= i64::MAX,
        entries_fit(entries),
        marker.len() == 16,
        forall|i: int|
            0 <= i < blocks.len() ==> 0 < (#[trigger] blocks[i]).0 <= LARGEST_PART
                && blocks[i].1.len() <= LARGEST_PART,
        count < 0 || count > 0x2000_0000,
        is_container(cut_off) && header_of(cut_off) is None,
    ensures
        !is_readable(
            header_bytes(entries, marker) + block_bytes(blocks, marker) + (number_bytes(count)
                + rest),
            writing,
        ),
        !is_readable(cut_off, writing),
{
    let tail = block_bytes(blocks, marker) + (number_bytes(count) + rest);
    let header = header_bytes(entries, marker);
    header_gives_its_schema(entries, marker, tail);
    only_blocks_beyond_reason_are_refused(header, blocks, marker, count, rest);
    assert(header + tail =~= header + block_bytes(blocks, marker) + (number_bytes(count) + rest));
}

} // verus!
