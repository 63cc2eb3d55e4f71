//! Avro container files and the values in them.
use apache_avro::types::Value;
use vstd::prelude::*;

use crate::iceberg::container::{has_simple_schema, is_readable, test_readable, LARGEST_PART};

verus! {

/// A value of the Avro crate.
#[verifier::external_type_specification]
#[verifier::external_body]
pub struct ExValue(apache_avro::types::Value);

/// An error of the Avro crate.
#[verifier::external_type_specification]
#[verifier::external_body]
pub struct ExError(apache_avro::Error);

/// What an Avro value holds: the tree of its parts. A dictionary has no
/// order; a value of a kind that is never looked into stands for itself.
#[verifier::ext_equal]
pub enum AvroData {
    Null,
    Boolean(bool),
    Int(i32),
    Long(i64),
    Text(Seq<char>),
    Bytes(Seq<u8>),
    Union(u32, Box<AvroData>),
    Array(Seq<AvroData>),
    Dictionary(Map<Seq<char>, AvroData>),
    Record(Seq<(Seq<char>, AvroData)>),
    Other(Value),
}

/// What a value of the Avro crate holds.
pub uninterp spec fn avro_data(value: Value) -> AvroData;

/// A value of a kind that is carried along without a look inside.
pub struct OpaqueValue {
    inner: Value,
}

impl OpaqueValue {
    #[verifier::type_invariant]
    spec fn is_opaque(self) -> bool {
        avro_data(self.inner) == AvroData::Other(self.inner)
    }

    pub closed spec fn value(self) -> Value {
        self.inner
    }
}

/// An Avro value, as far as paths and log entries are concerned with it.
pub enum AvroValue {
    Null,
    Boolean(bool),
    Int(i32),
    Long(i64),
    Text(String),
    Bytes(Vec<u8>),
    Union(u32, Box<AvroValue>),
    Array(Vec<AvroValue>),
    Dictionary(Vec<(String, AvroValue)>),
    Record(Vec<(String, AvroValue)>),
    Other(OpaqueValue),
}

/// The dictionary that `pairs` make: of two pairs with one key the later
/// one counts.
pub open spec fn dictionary_of(pairs: Seq<(Seq<char>, AvroData)>) -> Map<Seq<char>, AvroData>
    decreases pairs.len(),
{
    if pairs.len() == 0 {
        Map::empty()
    } else {
        dictionary_of(pairs.drop_last()).insert(pairs.last().0, pairs.last().1)
    }
}

impl AvroValue {
    /// What the value holds.
    pub open spec fn data(self) -> AvroData
        decreases self,
    {
        match self {
            AvroValue::Null => AvroData::Null,
            AvroValue::Boolean(b) => AvroData::Boolean(b),
            AvroValue::Int(n) => AvroData::Int(n),
            AvroValue::Long(n) => AvroData::Long(n),
            AvroValue::Text(s) => AvroData::Text(s@),
            AvroValue::Bytes(b) => AvroData::Bytes(b@),
            AvroValue::Union(i, inner) => AvroData::Union(i, Box::new(inner.data())),
            AvroValue::Array(items) => AvroData::Array(all_data(items@)),
            AvroValue::Dictionary(pairs) => AvroData::Dictionary(
                dictionary_of(all_named_data(pairs@)),
            ),
            AvroValue::Record(fields) => AvroData::Record(all_named_data(fields@)),
            AvroValue::Other(value) => AvroData::Other(value.value()),
        }
    }
}

/// What the values hold, one by one.
pub open spec fn all_data(values: Seq<AvroValue>) -> Seq<AvroData>
    decreases values,
{
    Seq::new(
        values.len(),
        |i: int|
            if 0 <= i < values.len() {
                values[i].data()
            } else {
                arbitrary()
            },
    )
}

/// What the named values hold, under their names.
pub open spec fn all_named_data(pairs: Seq<(String, AvroValue)>) -> Seq<(Seq<char>, AvroData)>
    decreases pairs,
{
    Seq::new(
        pairs.len(),
        |i: int|
            if 0 <= i < pairs.len() {
                (pairs[i].0@, pairs[i].1.data())
            } else {
                arbitrary()
            },
    )
}

/// Has every dictionary in the value, at any depth, each key once?
pub open spec fn well_keyed(value: AvroValue) -> bool
    decreases value,
{
    match value {
        AvroValue::Union(_, inner) => well_keyed(*inner),
        AvroValue::Array(items) => all_well_keyed(items@),
        AvroValue::Dictionary(pairs) => distinct_keys(pairs@) && all_named_well_keyed(pairs@),
        AvroValue::Record(fields) => all_named_well_keyed(fields@),
        _ => true,
    }
}

pub open spec fn all_well_keyed(values: Seq<AvroValue>) -> bool
    decreases values,
{
    forall|i: int| 0 <= i < values.len() ==> well_keyed(#[trigger] values[i])
}

pub open spec fn all_named_well_keyed(pairs: Seq<(String, AvroValue)>) -> bool
    decreases pairs,
{
    forall|i: int| 0 <= i < pairs.len() ==> well_keyed((#[trigger] pairs[i]).1)
}

pub open spec fn distinct_keys(pairs: Seq<(String, AvroValue)>) -> bool {
    forall|i: int, j: int|
        0 <= i < j < pairs.len() ==> (#[trigger] pairs[i]).0@ != (#[trigger] pairs[j]).0@
}

/// One level of a value of the Avro crate.
pub enum AvroNode {
    Null,
    Boolean(bool),
    Int(i32),
    Long(i64),
    Text(String),
    Bytes(Vec<u8>),
    Union(u32, Box<Value>),
    Array(Vec<Value>),
    Dictionary(Vec<(String, Value)>),
    Record(Vec<(String, Value)>),
    Other(Value),
}

/// What the named values hold, under their names.
pub open spec fn named_data(pairs: Seq<(String, Value)>) -> Seq<(Seq<char>, AvroData)> {
    pairs.map_values(|p: (String, Value)| (p.0@, avro_data(p.1)))
}

impl AvroNode {
    /// What the node and everything below it hold.
    pub open spec fn data(self) -> AvroData {
        match self {
            AvroNode::Null => AvroData::Null,
            AvroNode::Boolean(b) => AvroData::Boolean(b),
            AvroNode::Int(n) => AvroData::Int(n),
            AvroNode::Long(n) => AvroData::Long(n),
            AvroNode::Text(s) => AvroData::Text(s@),
            AvroNode::Bytes(b) => AvroData::Bytes(b@),
            AvroNode::Union(i, inner) => AvroData::Union(i, Box::new(avro_data(*inner))),
            AvroNode::Array(items) => AvroData::Array(items@.map_values(|v: Value| avro_data(v))),
            AvroNode::Dictionary(pairs) => AvroData::Dictionary(dictionary_of(named_data(pairs@))),
            AvroNode::Record(fields) => AvroData::Record(named_data(fields@)),
            AvroNode::Other(value) => AvroData::Other(value),
        }
    }
}

/// Matches on the variant of `apache_avro::types::Value` and hands out what
/// the variant holds. Claimed: the node holds what the value holds, and a
/// map hands out each key once, in no particular order.
#[verifier::external_body]
fn open_value(value: Value) -> (r: AvroNode)
    ensures
        r.data() == avro_data(value),
        r matches AvroNode::Other(v) ==> v == value,
        r matches AvroNode::Dictionary(pairs) ==> forall|i: int, j: int|
            0 <= i < j < pairs@.len() ==> (#[trigger] pairs@[i]).0@ != (#[trigger] pairs@[j]).0@,
{
    match value {
        Value::Null => AvroNode::Null,
        Value::Boolean(b) => AvroNode::Boolean(b),
        Value::Int(n) => AvroNode::Int(n),
        Value::Long(n) => AvroNode::Long(n),
        Value::String(s) => AvroNode::Text(s),
        Value::Bytes(b) => AvroNode::Bytes(b),
        Value::Union(i, inner) => AvroNode::Union(i, inner),
        Value::Array(items) => AvroNode::Array(items),
        Value::Map(map) => AvroNode::Dictionary(map.into_iter().collect()),
        Value::Record(fields) => AvroNode::Record(fields),
        other => AvroNode::Other(other),
    }
}

/// Makes a `apache_avro::types::Value` of the variant that the node names.
/// Claimed: the value holds what the node holds. Where two pairs of a
/// dictionary have one key, the map keeps the later one.
#[verifier::external_body]
fn close_value(node: AvroNode) -> (r: Value)
    requires
        node matches AvroNode::Other(v) ==> avro_data(v) == AvroData::Other(v),
    ensures
        avro_data(r) == node.data(),
{
    match node {
        AvroNode::Null => Value::Null,
        AvroNode::Boolean(b) => Value::Boolean(b),
        AvroNode::Int(n) => Value::Int(n),
        AvroNode::Long(n) => Value::Long(n),
        AvroNode::Text(s) => Value::String(s),
        AvroNode::Bytes(b) => Value::Bytes(b),
        AvroNode::Union(i, inner) => Value::Union(i, inner),
        AvroNode::Array(items) => Value::Array(items),
        AvroNode::Dictionary(pairs) => Value::Map(pairs.into_iter().collect()),
        AvroNode::Record(fields) => Value::Record(fields),
        AvroNode::Other(value) => value,
    }
}

// ---------------------------------------------------------------------------
// From the crate's values to values of our own, and back
// ---------------------------------------------------------------------------

pub proof fn lemma_all_data(values: Seq<AvroValue>, parts: Seq<AvroData>)
    requires
        values.len() == parts.len(),
        forall|i: int| 0 <= i < values.len() ==> #[trigger] values[i].data() == parts[i],
    ensures
        all_data(values) == parts,
{
    assert forall|i: int| 0 <= i < values.len() implies all_data(values)[i] == parts[i] by {
        assert(values[i].data() == parts[i]);
    }
    assert(all_data(values) =~= parts);
}

pub proof fn lemma_all_named_data(
    pairs: Seq<(String, AvroValue)>,
    parts: Seq<(Seq<char>, AvroData)>,
)
    requires
        pairs.len() == parts.len(),
        forall|i: int|
            0 <= i < pairs.len() ==> (#[trigger] pairs[i]).0@ == parts[i].0 && pairs[i].1.data()
                == parts[i].1,
    ensures
        all_named_data(pairs) == parts,
{
    assert forall|i: int| 0 <= i < pairs.len() implies all_named_data(pairs)[i] == parts[i] by {
        assert(pairs[i].0@ == parts[i].0);
    }
    assert(all_named_data(pairs) =~= parts);
}

/// With distinct keys every pair stands in the dictionary.
proof fn lemma_dictionary_holds(pairs: Seq<(Seq<char>, AvroData)>, i: int)
    requires
        0 <= i < pairs.len(),
        forall|i: int, j: int|
            0 <= i < j < pairs.len() ==> (#[trigger] pairs[i]).0 != (#[trigger] pairs[j]).0,
    ensures
        dictionary_of(pairs).contains_key(pairs[i].0),
        dictionary_of(pairs)[pairs[i].0] == pairs[i].1,
    decreases pairs.len(),
{
    if i < pairs.len() - 1 {
        assert(pairs.drop_last()[i] == pairs[i]);
        lemma_dictionary_holds(pairs.drop_last(), i);
        assert(pairs[i].0 != pairs.last().0);
    }
}

/// Reads a value of the Avro crate, with everything below it.
fn plain_value(value: Value) -> (r: AvroValue)
    ensures
        r.data() == avro_data(value),
        well_keyed(r),
    decreases avro_data(value),
{
    let ghost data = avro_data(value);
    match open_value(value) {
        AvroNode::Null => AvroValue::Null,
        AvroNode::Boolean(b) => AvroValue::Boolean(b),
        AvroNode::Int(n) => AvroValue::Int(n),
        AvroNode::Long(n) => AvroValue::Long(n),
        AvroNode::Text(s) => AvroValue::Text(s),
        AvroNode::Bytes(b) => AvroValue::Bytes(b),
        AvroNode::Union(i, inner) => {
            proof {
                assert(decreases_to!(data => data->Union_1));
            }
            let inner = plain_value(*inner);
            AvroValue::Union(i, Box::new(inner))
        },
        AvroNode::Array(items) => {
            let mut out: Vec<AvroValue> = Vec::new();
            for item in it: items
                invariant
                    data == avro_data(value),
                    data == AvroData::Array(items@.map_values(|v: Value| avro_data(v))),
                    it.seq() == items@,
                    out@.len() == it.index(),
                    forall|i: int|
                        0 <= i < it.index() ==> #[trigger] out@[i].data() == avro_data(items@[i]),
                    all_well_keyed(out@),
            {
                proof {
                    let parts = data->Array_0;
                    assert(parts[it.index() as int] == avro_data(item));
                    assert(decreases_to!(data => parts));
                    assert(decreases_to!(parts => parts[it.index() as int]));
                }
                out.push(plain_value(item));
            }
            proof {
                lemma_all_data(out@, data->Array_0);
            }
            AvroValue::Array(out)
        },
        AvroNode::Dictionary(pairs) => {
            let mut out: Vec<(String, AvroValue)> = Vec::new();
            for pair in it: pairs
                invariant
                    data == avro_data(value),
                    data == AvroData::Dictionary(dictionary_of(named_data(pairs@))),
                    forall|i: int, j: int|
                        0 <= i < j < pairs@.len() ==> (#[trigger] pairs@[i]).0@ != (
                        #[trigger] pairs@[j]).0@,
                    it.seq() == pairs@,
                    out@.len() == it.index(),
                    forall|i: int|
                        0 <= i < it.index() ==> (#[trigger] out@[i]).0@ == pairs@[i].0@
                            && out@[i].1.data() == avro_data(pairs@[i].1),
                    all_named_well_keyed(out@),
            {
                proof {
                    let parts = named_data(pairs@);
                    let table = data->Dictionary_0;
                    assert forall|i: int, j: int| 0 <= i < j < parts.len() implies (
                    #[trigger] parts[i]).0 != (#[trigger] parts[j]).0 by {
                        assert(pairs@[i].0@ != pairs@[j].0@);
                    }
                    lemma_dictionary_holds(parts, it.index() as int);
                    let key = pair.0@;
                    assert(table[key] == avro_data(pair.1));
                    assert(decreases_to!(data => data->Dictionary_0[key]));
                }
                let (name, part) = pair;
                out.push((name, plain_value(part)));
            }
            proof {
                lemma_all_named_data(out@, named_data(pairs@));
            }
            AvroValue::Dictionary(out)
        },
        AvroNode::Record(fields) => {
            let mut out: Vec<(String, AvroValue)> = Vec::new();
            for field in it: fields
                invariant
                    data == avro_data(value),
                    data == AvroData::Record(named_data(fields@)),
                    it.seq() == fields@,
                    out@.len() == it.index(),
                    forall|i: int|
                        0 <= i < it.index() ==> (#[trigger] out@[i]).0@ == fields@[i].0@
                            && out@[i].1.data() == avro_data(fields@[i].1),
                    all_named_well_keyed(out@),
            {
                proof {
                    let parts = data->Record_0;
                    assert(parts[it.index() as int].1 == avro_data(field.1));
                    assert(decreases_to!(data => parts));
                    assert(decreases_to!(parts => parts[it.index() as int]));
                    assert(decreases_to!(parts[it.index() as int] => parts[it.index() as int].1));
                }
                let (name, part) = field;
                out.push((name, plain_value(part)));
            }
            proof {
                lemma_all_named_data(out@, data->Record_0);
            }
            AvroValue::Record(out)
        },
        AvroNode::Other(value) => AvroValue::Other(OpaqueValue { inner: value }),
    }
}

/// Makes a value of the Avro crate, with everything below it.
pub fn crate_value(value: AvroValue) -> (r: Value)
    ensures
        avro_data(r) == value.data(),
    decreases value,
{
    let node = match value {
        AvroValue::Null => AvroNode::Null,
        AvroValue::Boolean(b) => AvroNode::Boolean(b),
        AvroValue::Int(n) => AvroNode::Int(n),
        AvroValue::Long(n) => AvroNode::Long(n),
        AvroValue::Text(s) => AvroNode::Text(s),
        AvroValue::Bytes(b) => AvroNode::Bytes(b),
        AvroValue::Union(i, inner) => AvroNode::Union(i, Box::new(crate_value(*inner))),
        AvroValue::Array(items) => {
            let mut out: Vec<Value> = Vec::new();
            for item in it: items
                invariant
                    value == AvroValue::Array(items),
                    it.seq() == items@,
                    out@.len() == it.index(),
                    forall|i: int|
                        0 <= i < it.index() ==> avro_data(#[trigger] out@[i]) == items@[i].data(),
            {
                proof {
                    assert(item == items@[it.index() as int]);
                    assert(decreases_to!(value => value->Array_0));
                    assert(decreases_to!(value->Array_0 => value->Array_0@));
                    assert(decreases_to!(items@ => items@[it.index() as int]));
                }
                out.push(crate_value(item));
            }
            proof {
                lemma_all_data(items@, out@.map_values(|v: Value| avro_data(v)));
            }
            AvroNode::Array(out)
        },
        AvroValue::Dictionary(pairs) => {
            let mut out: Vec<(String, Value)> = Vec::new();
            for pair in it: pairs
                invariant
                    value == AvroValue::Dictionary(pairs),
                    it.seq() == pairs@,
                    out@.len() == it.index(),
                    forall|i: int|
                        0 <= i < it.index() ==> (#[trigger] out@[i]).0@ == pairs@[i].0@
                            && avro_data(out@[i].1) == pairs@[i].1.data(),
            {
                proof {
                    assert(pair == pairs@[it.index() as int]);
                    assert(decreases_to!(value => value->Dictionary_0));
                    assert(decreases_to!(value->Dictionary_0 => value->Dictionary_0@));
                    assert(decreases_to!(pairs@ => pairs@[it.index() as int]));
                    assert(decreases_to!(pair => pair.1));
                }
                let (name, part) = pair;
                out.push((name, crate_value(part)));
            }
            proof {
                lemma_all_named_data(pairs@, named_data(out@));
            }
            AvroNode::Dictionary(out)
        },
        AvroValue::Record(fields) => {
            let mut out: Vec<(String, Value)> = Vec::new();
            for field in it: fields
                invariant
                    value == AvroValue::Record(fields),
                    it.seq() == fields@,
                    out@.len() == it.index(),
                    forall|i: int|
                        0 <= i < it.index() ==> (#[trigger] out@[i]).0@ == fields@[i].0@
                            && avro_data(out@[i].1) == fields@[i].1.data(),
            {
                proof {
                    assert(field == fields@[it.index() as int]);
                    assert(decreases_to!(value => value->Record_0));
                    assert(decreases_to!(value->Record_0 => value->Record_0@));
                    assert(decreases_to!(fields@ => fields@[it.index() as int]));
                    assert(decreases_to!(field => field.1));
                }
                let (name, part) = field;
                out.push((name, crate_value(part)));
            }
            proof {
                lemma_all_named_data(fields@, named_data(out@));
            }
            AvroNode::Record(out)
        },
        AvroValue::Other(opaque) => {
            proof {
                use_type_invariant(&opaque);
            }
            AvroNode::Other(opaque.inner)
        },
    };
    close_value(node)
}

// ---------------------------------------------------------------------------
// Container files
// ---------------------------------------------------------------------------

/// What comes out of an Avro container file.
pub enum AvroReading {
    /// The reader cannot be given the bytes: it would break down.
    Unfit,
    /// The reader does not take the bytes for a container file.
    NoContainer,
    /// One of the records cannot be decoded.
    BadRecord,
    /// What the records hold, in the order of the file.
    Records(Seq<AvroData>),
}

/// Why an Avro container file could not be read.
pub enum ContainerError {
    /// The header is cut off, or its schema or the length of a block is none
    /// that the reader can be given.
    Unfit,
    Open(apache_avro::Error),
    Record(apache_avro::Error),
}

/// What `apache_avro::Reader` makes of the bytes of a file.
pub uninterp spec fn reader_result(bytes: Seq<u8>) -> AvroReading;

/// What comes out of the bytes of a file.
pub open spec fn avro_reading(bytes: Seq<u8>) -> AvroReading {
    if is_readable(bytes, false) {
        reader_result(bytes)
    } else {
        AvroReading::Unfit
    }
}

/// Opens the bytes with `apache_avro::Reader::new` and takes all records out
/// of the reader. Claimed: what comes out depends on the bytes alone. The
/// reader refuses what is over a size limit, which stands at its default.
/// Left out are the bytes on which it panics or does not come to an end: a
/// schema with a name or an alias that is none, a record that holds itself,
/// a size beyond reason or a part of the wrong kind, and a block with more
/// records than can be counted out. Stack and memory are taken to suffice for
/// the values in the file.
#[verifier::external_body]
fn read_container(bytes: &[u8]) -> (r: Result<Vec<Value>, ContainerError>)
    requires
        is_readable(bytes@, false),
    ensures
        match r {
            Ok(values) => reader_result(bytes@) == AvroReading::Records(
                values@.map_values(|v: Value| avro_data(v)),
            ),
            Err(ContainerError::Open(_)) => reader_result(bytes@) == AvroReading::NoContainer,
            Err(ContainerError::Record(_)) => reader_result(bytes@) == AvroReading::BadRecord,
            Err(ContainerError::Unfit) => false,
        },
{
    match apache_avro::Reader::new(bytes) {
        Ok(reader) => reader.collect::<Result<Vec<Value>, _>>().map_err(ContainerError::Record),
        Err(e) => Err(ContainerError::Open(e)),
    }
}

/// Reads all records of an Avro container file.
pub fn read_records(bytes: &[u8]) -> (r: Result<Vec<AvroValue>, ContainerError>)
    ensures
        match r {
            Ok(values) => avro_reading(bytes@) == AvroReading::Records(all_data(values@))
                && all_well_keyed(values@),
            Err(ContainerError::Unfit) => !is_readable(bytes@, false),
            Err(ContainerError::Open(_)) => avro_reading(bytes@) == AvroReading::NoContainer,
            Err(ContainerError::Record(_)) => avro_reading(bytes@) == AvroReading::BadRecord,
        },
{
    if !test_readable(bytes, false) {
        return Err(ContainerError::Unfit);
    }
    let values = match read_container(bytes) {
        Ok(values) => values,
        Err(e) => return Err(e),
    };
    let mut out: Vec<AvroValue> = Vec::new();
    for value in it: values
        invariant
            it.seq() == values@,
            out@.len() == it.index(),
            forall|i: int|
                0 <= i < it.index() ==> #[trigger] out@[i].data() == avro_data(values@[i]),
            all_well_keyed(out@),
    {
        out.push(plain_value(value));
    }
    proof {
        lemma_all_data(out@, values@.map_values(|v: Value| avro_data(v)));
    }
    Ok(out)
}

/// Do the two differ in what their texts say and in nothing else?
pub open spec fn same_layout(a: AvroData, b: AvroData) -> bool
    decreases a,
{
    match (a, b) {
        (AvroData::Text(_), AvroData::Text(_)) => true,
        (AvroData::Union(i, x), AvroData::Union(j, y)) => i == j && same_layout(*x, *y),
        (AvroData::Array(x), AvroData::Array(y)) => {
            &&& x.len() == y.len()
            &&& forall|i: int| 0 <= i < x.len() ==> same_layout(#[trigger] x[i], y[i])
        },
        (AvroData::Dictionary(x), AvroData::Dictionary(y)) => {
            &&& x.dom() == y.dom()
            &&& forall|k: Seq<char>| #[trigger] x.contains_key(k) ==> same_layout(x[k], y[k])
        },
        (AvroData::Record(x), AvroData::Record(y)) => {
            &&& x.len() == y.len()
            &&& forall|i: int|
                0 <= i < x.len() ==> (#[trigger] x[i]).0 == y[i].0 && same_layout(x[i].1, y[i].1)
        },
        _ => a == b,
    }
}

/// Do the records differ in what their texts say and in nothing else?
pub open spec fn same_layouts(a: Seq<AvroData>, b: Seq<AvroData>) -> bool {
    &&& a.len() == b.len()
    &&& forall|i: int| 0 <= i < a.len() ==> same_layout(#[trigger] a[i], b[i])
}

/// The most bytes of a small record.
pub const SMALL_RECORD: usize = 0x1000_0000;

/// Does the value for certain take no more bytes than this in a file? The
/// parts of a value share its room evenly. A value that is not looked into
/// is taken to be one of a simple schema.
pub open spec fn is_small_data(data: AvroData, room: int) -> bool
    decreases data,
{
    match data {
        AvroData::Text(s) => 4 * s.len() + 10 <= room,
        AvroData::Bytes(b) => b.len() + 10 <= room,
        AvroData::Union(_, inner) => is_small_data(*inner, room - 10),
        AvroData::Array(items) => 20 <= room && forall|i: int|
            0 <= i < items.len() ==> is_small_data(
                #[trigger] items[i],
                (room - 20) / items.len() as int,
            ),
        AvroData::Dictionary(entries) => 20 <= room && forall|key: Seq<char>| #[trigger]
            entries.contains_key(key) ==> is_small_data(
                entries[key],
                (room - 20) / entries.dom().len() as int - 4 * key.len() - 10,
            ),
        AvroData::Record(fields) => 1 <= room && forall|i: int|
            0 <= i < fields.len() ==> is_small_data(
                (#[trigger] fields[i]).1,
                room / fields.len() as int,
            ),
        AvroData::Other(_) => 0x100 <= room,
        _ => 10 <= room,
    }
}

/// Can the records for certain be read from a file that was written with the
/// schema of `source`? Such a schema is a simple one, and the records stay
/// below the limits of the reader.
pub open spec fn is_read_back(source: Seq<u8>, records: Seq<AvroData>) -> bool {
    &&& has_simple_schema(source, false)
    &&& records.len() <= LARGEST_PART
    &&& forall|i: int|
        0 <= i < records.len() ==> is_small_data(#[trigger] records[i], SMALL_RECORD as int)
}

/// Is nothing null in the value but the first variant of a union? Where a
/// file breaks off, the reader takes what is missing for null.
pub open spec fn is_filled(data: AvroData) -> bool
    decreases data,
{
    match data {
        AvroData::Null => false,
        AvroData::Union(i, inner) => (i == 0 && *inner is Null) || is_filled(*inner),
        AvroData::Array(items) => forall|i: int|
            0 <= i < items.len() ==> is_filled(#[trigger] items[i]),
        AvroData::Dictionary(entries) => forall|key: Seq<char>| #[trigger]
            entries.contains_key(key) ==> is_filled(entries[key]),
        AvroData::Record(fields) => forall|i: int|
            0 <= i < fields.len() ==> is_filled((#[trigger] fields[i]).1),
        _ => true,
    }
}

/// Can the records for certain be written with the schema of `source`, if
/// they are of the layout of its own? The schema is a simple one with optional
/// values, and no value is missing.
pub open spec fn is_written_for_certain(source: Seq<u8>, records: Seq<AvroData>) -> bool {
    &&& has_simple_schema(source, true)
    &&& forall|i: int| 0 <= i < records.len() ==> is_filled(#[trigger] records[i])
}

/// Is `out` a container file that `apache_avro::Writer` may make of the
/// records under the schema of the container file `source`? There is more
/// than one: each file gets a random marker.
pub uninterp spec fn avro_written(source: Seq<u8>, records: Seq<AvroData>, out: Seq<u8>) -> bool;

/// Is there a container file that `apache_avro::Writer` may make of the
/// records under the schema of the container file `source`?
pub open spec fn can_be_written(source: Seq<u8>, records: Seq<AvroData>) -> bool {
    exists|out: Seq<u8>| avro_written(source, records, out)
}

/// Writes the values with `apache_avro::Writer`, under the schema that
/// `apache_avro::Reader` finds in `source`. Claimed: whether it fails depends
/// on `source` and the values alone, not on the marker, so that where it
/// fails there is no file it may make of them; it does not fail if the schema
/// is a simple one with optional values and nothing is missing in the values,
/// which were then read with that schema but for their texts; a file so
/// written, if it can
/// be read at all, gives the values back; it can be read if the schema is a
/// simple one and the values are small. Of other files this is not claimed:
/// the reader has limits, and some schemas are not written as they were, such
/// as one with several durations, which all get one name. Left out are the sources that
/// cannot be read, and those with a decimal of no bytes, or with a record in
/// which an alias of a field is the name of another field: the writer panics
/// on such a decimal, and may do so where it takes one field for another.
#[verifier::external_body]
fn write_container(source: &[u8], values: &Vec<Value>) -> (r: Result<Vec<u8>, apache_avro::Error>)
    requires
        is_readable(source@, false),
        is_readable(source@, true),
        avro_reading(source@) matches AvroReading::Records(records) && same_layouts(
            records,
            values@.map_values(|v: Value| avro_data(v)),
        ),
    ensures
        r matches Ok(out) ==> avro_written(
            source@,
            values@.map_values(|v: Value| avro_data(v)),
            out@,
        ),
        r is Err ==> !can_be_written(source@, values@.map_values(|v: Value| avro_data(v))),
        r is Err ==> !is_written_for_certain(
            source@,
            values@.map_values(|v: Value| avro_data(v)),
        ),
        r matches Ok(out) ==> (avro_reading(out@) matches AvroReading::Records(back) ==> back
            == values@.map_values(|v: Value| avro_data(v))),
        r matches Ok(out) ==> is_read_back(
            source@,
            values@.map_values(|v: Value| avro_data(v)),
        ) ==> avro_reading(out@) is Records,
{
    let reader = apache_avro::Reader::new(source)?;
    let schema = reader.writer_schema().clone();
    let mut writer = apache_avro::Writer::new(&schema, Vec::new());
    writer.extend_from_slice(values)?;
    writer.into_inner()
}

/// Writes the records as a container file with the schema of `source`. Fails
/// only if no such file can be made of them.
pub(crate) fn write_records(source: &[u8], records: Vec<AvroValue>) -> (r: Result<
    Vec<u8>,
    apache_avro::Error,
>)
    requires
        is_readable(source@, true),
        avro_reading(source@) matches AvroReading::Records(old_records) && same_layouts(
            old_records,
            all_data(records@),
        ),
    ensures
        r is Ok <==> can_be_written(source@, all_data(records@)),
        is_written_for_certain(source@, all_data(records@)) ==> r is Ok,
        r matches Ok(out) ==> avro_written(source@, all_data(records@), out@),
        r matches Ok(out) ==> (avro_reading(out@) matches AvroReading::Records(back) ==> back
            == all_data(records@)),
        r matches Ok(out) ==> is_read_back(source@, all_data(records@)) ==> avro_reading(out@)
            == AvroReading::Records(all_data(records@)),
{
    let mut values: Vec<Value> = Vec::new();
    for record in it: records
        invariant
            it.seq() == records@,
            values@.len() == it.index(),
            forall|i: int|
                0 <= i < it.index() ==> avro_data(#[trigger] values@[i]) == records@[i].data(),
    {
        values.push(crate_value(record));
    }
    proof {
        lemma_all_data(records@, values@.map_values(|v: Value| avro_data(v)));
    }
    write_container(source, &values)
}

} // verus!
