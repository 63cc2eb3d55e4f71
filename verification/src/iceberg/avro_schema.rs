//! Which Avro schemas the reader can be given.
//!
//! The parser of the Avro crate breaks down on some schemas instead of
//! refusing them: on names that are none, on records that hold themselves, on
//! sizes beyond reason, and on some default values of fields. The writer
//! breaks down on a few more. Whether a schema is one of these is decided
//! here, before the crate sees it.
use vstd::prelude::*;

use crate::json::{json_data, json_display, json_entry, JsonData};
use crate::number::{digits, is_digit, lemma_digits, signed_digits};
use crate::text::{after_last, chars_of, same_text, tail_of};

verus! {

/// The largest size of a fixed type, in bytes.
pub const LARGEST_FIXED: i64 = 0xfff_ffff;

// ---------------------------------------------------------------------------
// Names
// ---------------------------------------------------------------------------

pub open spec fn is_letter(c: char) -> bool {
    'A' <= c <= 'Z' || 'a' <= c <= 'z' || c == '_'
}

/// Is this a name, or several of them with dots between?
pub open spec fn is_dotted(s: Seq<char>) -> bool {
    &&& s.len() > 0
    &&& s.last() != '.'
    &&& forall|i: int|
        0 <= i < s.len() ==> {
            ||| is_letter(#[trigger] s[i])
            ||| i > 0 && s[i - 1] != '.' && (is_digit(s[i]) || s[i] == '.')
        }
}

/// Is this the name of a type? A name may stand behind a namespace, and an
/// empty namespace behind nothing but its dot.
pub open spec fn is_type_name(s: Seq<char>) -> bool {
    ||| is_dotted(s)
    ||| s.len() > 1 && s[0] == '.' && is_dotted(s.skip(1)) && !s.skip(1).contains('.')
}

fn test_letter(c: char) -> (r: bool)
    ensures
        r == is_letter(c),
{
    ('A' <= c && c <= 'Z') || ('a' <= c && c <= 'z') || c == '_'
}

fn test_dotted(cs: &Vec<char>, start: usize) -> (r: bool)
    requires
        start <= cs@.len(),
    ensures
        r == is_dotted(cs@.skip(start as int)),
{
    let ghost s = cs@.skip(start as int);
    if start == cs.len() {
        return false;
    }
    if cs[cs.len() - 1] == '.' {
        return false;
    }
    let mut i: usize = start;
    while i < cs.len()
        invariant
            start <= i <= cs@.len(),
            s == cs@.skip(start as int),
            forall|j: int|
                0 <= j < i - start ==> {
                    ||| is_letter(#[trigger] s[j])
                    ||| j > 0 && s[j - 1] != '.' && (is_digit(s[j]) || s[j] == '.')
                },
        decreases cs@.len() - i,
    {
        let c = cs[i];
        proof {
            assert(s[i - start] == c);
        }
        if !test_letter(c) {
            if i == start {
                return false;
            }
            let before = cs[i - 1];
            proof {
                assert(s[i - start - 1] == before);
            }
            if before == '.' || !(('0' <= c && c <= '9') || c == '.') {
                return false;
            }
        }
        i += 1;
    }
    true
}

/// Tests for the name of a type.
pub fn test_type_name(name: &str) -> (r: bool)
    ensures
        r == is_type_name(name@),
{
    let cs = chars_of(name);
    proof {
        assert(cs@.skip(0) =~= cs@);
    }
    if test_dotted(&cs, 0) {
        return true;
    }
    if cs.len() < 2 || cs[0] != '.' || !test_dotted(&cs, 1) {
        return false;
    }
    let mut i: usize = 1;
    while i < cs.len()
        invariant
            1 <= i <= cs@.len(),
            cs@ == name@,
            !is_dotted(name@),
            forall|j: int| 1 <= j < i ==> #[trigger] cs@[j] != '.',
        decreases cs@.len() - i,
    {
        if cs[i] == '.' {
            proof {
                assert(cs@.skip(1)[i - 1] == '.');
            }
            return false;
        }
        i += 1;
    }
    proof {
        assert forall|j: int| 0 <= j < cs@.len() - 1 implies #[trigger] cs@.skip(1)[j] != '.' by {
            assert(cs@.skip(1)[j] == cs@[j + 1]);
        }
    }
    true
}

/// Is this the name of a type that needs no definition?
pub open spec fn is_primitive(name: Seq<char>) -> bool {
    ||| name == "null"@
    ||| name == "boolean"@
    ||| name == "int"@
    ||| name == "long"@
    ||| name == "float"@
    ||| name == "double"@
    ||| name == "bytes"@
    ||| name == "string"@
}

fn test_primitive(name: &str) -> (r: bool)
    ensures
        r == is_primitive(name@),
{
    same_text(name, "null") || same_text(name, "boolean") || same_text(name, "int") || same_text(
        name,
        "long",
    ) || same_text(name, "float") || same_text(name, "double") || same_text(name, "bytes")
        || same_text(name, "string")
}

// ---------------------------------------------------------------------------
// The parts of an object
// ---------------------------------------------------------------------------

/// What stands under a key of an object.
pub open spec fn part(data: JsonData, key: Seq<char>) -> Option<JsonData> {
    match data {
        JsonData::Object(entries) => if entries.dom().contains(key) {
            Some(entries[key])
        } else {
            None
        },
        _ => None,
    }
}

/// Is this a whole number between the two?
pub open spec fn is_whole(data: JsonData, low: int, high: int) -> bool {
    exists|n: i64| data == JsonData::Number(#[trigger] signed_digits(n as int)) && low <= n <= high
}

/// Is there nothing, or a whole number?
pub open spec fn whole_or_none(data: Option<JsonData>) -> bool {
    data matches Some(data) ==> is_whole(data, i64::MIN as int, i64::MAX as int)
}

/// Is this an array of texts, every one of them the name of a type? An array
/// of which some item is no text is taken for none.
pub open spec fn names_fit(data: Option<JsonData>) -> bool {
    data matches Some(JsonData::Array(items)) ==> (forall|i: int|
        0 <= i < items.len() ==> (#[trigger] items[i]) is Text) ==> (forall|i: int|
        0 <= i < items.len() ==> is_type_name((#[trigger] items[i])->Text_0))
}

/// Is this a single value, or an empty array?
pub open spec fn is_single(data: JsonData) -> bool {
    &&& !(data is Object)
    &&& data matches JsonData::Array(items) ==> items.len() == 0
}

/// Is this an object of the kind?
pub open spec fn is_kind(data: JsonData, kind: Seq<char>) -> bool {
    part(data, "type"@) == Some(JsonData::Text(kind))
}

/// Does the object define a type that has a name?
pub open spec fn is_definition(data: JsonData) -> bool {
    is_kind(data, "record"@) || is_kind(data, "enum"@) || is_kind(data, "fixed"@)
}

/// Is this a fixed type of no bytes, on its own or as the type of an object?
pub open spec fn is_empty_fixed(data: JsonData) -> bool
    decreases data,
{
    if data is Object && data->Object_0.dom().contains("type"@) {
        proof {
            assert(decreases_to!(data => data->Object_0["type"@]));
        }
        ||| is_kind(data, "fixed"@) && (part(data, "size"@) matches Some(size) && is_whole(
            size,
            0,
            0,
        ))
        ||| is_empty_fixed(data->Object_0["type"@])
    } else {
        false
    }
}

/// Is `name` an alias of the field?
pub open spec fn has_alias(field: JsonData, name: Seq<char>) -> bool {
    part(field, "aliases"@) matches Some(JsonData::Array(items)) && items.contains(
        JsonData::Text(name),
    )
}

/// Is no alias of a field the name of another field?
pub open spec fn aliases_differ(fields: Seq<JsonData>) -> bool {
    forall|i: int, j: int, name: Seq<char>|
        #![trigger has_alias(fields[i], name), part(fields[j], "name"@)]
        0 <= i < fields.len() && 0 <= j < fields.len() && i != j && has_alias(fields[i], name)
            ==> part(fields[j], "name"@) != Some(JsonData::Text(name))
}

/// Can the object be written by the crate, as far as its own parts are
/// concerned? A decimal has a byte at least, and in a record the names of the
/// fields stay clear of the aliases.
pub open spec fn is_writable(data: JsonData) -> bool {
    &&& !(part(data, "logicalType"@) == Some(JsonData::Text("decimal"@)) && is_empty_fixed(data))
    &&& is_kind(data, "record"@) ==> (part(data, "fields"@) matches Some(JsonData::Array(fields))
        ==> aliases_differ(fields))
}

/// Is the object, as far as its own parts are concerned, one that the parser
/// can be given? A type with a name has all its parts, and names that are
/// some.
pub open spec fn parts_fit(data: JsonData, writing: bool) -> bool {
    &&& is_definition(data) ==> {
        &&& part(data, "name"@) matches Some(JsonData::Text(name)) ==> is_type_name(name)
        &&& names_fit(part(data, "aliases"@))
    }
    &&& is_kind(data, "record"@) ==> part(data, "fields"@) is Some
    &&& is_kind(data, "enum"@) ==> part(data, "symbols"@) is Some
    &&& is_kind(data, "fixed"@) ==> {
        &&& part(data, "size"@) matches Some(size)
        &&& is_whole(size, 0, LARGEST_FIXED as int)
    }
    &&& writing ==> is_writable(data)
}

proof fn lemma_signed_digits_differ(a: int, b: int)
    requires
        signed_digits(a) == signed_digits(b),
    ensures
        a == b,
{
    let x = if a < 0 {
        (-a) as nat
    } else {
        a as nat
    };
    let y = if b < 0 {
        (-b) as nat
    } else {
        b as nat
    };
    lemma_digits(x);
    lemma_digits(y);
    assert(is_digit(digits(x)[0]));
    assert(is_digit(digits(y)[0]));
    if a < 0 && b < 0 {
        assert(signed_digits(a).skip(1) =~= digits(x));
        assert(signed_digits(b).skip(1) =~= digits(y));
    } else if a < 0 {
        assert(signed_digits(a)[0] == '-');
    } else if b < 0 {
        assert(signed_digits(b)[0] == '-');
    }
}

/// What stands under a key of an object.
fn part_of<'a>(value: &'a serde_json::Value, key: &str) -> (r: Option<&'a serde_json::Value>)
    ensures
        match r {
            Some(entry) => part(json_data(*value), key@) == Some(json_data(*entry)),
            None => part(json_data(*value), key@) is None,
        },
{
    json_entry(value, key)
}

fn test_whole(value: &serde_json::Value, low: i64, high: i64) -> (r: bool)
    ensures
        r == is_whole(json_data(*value), low as int, high as int),
{
    match value.as_i64() {
        Some(n) => {
            proof {
                assert forall|m: i64|
                    json_data(*value) == JsonData::Number(
                        #[trigger] signed_digits(m as int),
                    ) implies m == n by {
                    lemma_signed_digits_differ(m as int, n as int);
                }
                assert(json_data(*value) == JsonData::Number(signed_digits(n as int)));
            }
            low <= n && n <= high
        },
        None => false,
    }
}

fn test_whole_or_none(value: &serde_json::Value, key: &str) -> (r: bool)
    ensures
        r == whole_or_none(part(json_data(*value), key@)),
{
    match part_of(value, key) {
        Some(entry) => test_whole(entry, i64::MIN, i64::MAX),
        None => true,
    }
}

fn test_names(value: &serde_json::Value, key: &str) -> (r: bool)
    ensures
        r == names_fit(part(json_data(*value), key@)),
{
    let entry = match part_of(value, key) {
        Some(entry) => entry,
        None => return true,
    };
    let items = match entry.as_array() {
        Some(items) => items,
        None => return true,
    };
    let ghost all = items@.map_values(|item: serde_json::Value| json_data(item));
    let mut good = true;
    let ghost mut bad: int = 0;
    let mut i: usize = 0;
    while i < items.len()
        invariant
            i <= items@.len(),
            all == items@.map_values(|item: serde_json::Value| json_data(item)),
            part(json_data(*value), key@) == Some(JsonData::Array(all)),
            forall|j: int| 0 <= j < i ==> (#[trigger] all[j]) is Text,
            good ==> forall|j: int| 0 <= j < i ==> is_type_name((#[trigger] all[j])->Text_0),
            !good ==> 0 <= bad < i && !is_type_name(all[bad]->Text_0),
        decreases items@.len() - i,
    {
        proof {
            assert(all[i as int] == json_data(items@[i as int]));
        }
        match items[i].as_str() {
            Some(name) => {
                if !test_type_name(name) {
                    good = false;
                    proof {
                        bad = i as int;
                    }
                }
            },
            None => return true,
        }
        i += 1;
    }
    good
}

fn test_single(value: &serde_json::Value) -> (r: bool)
    ensures
        r == is_single(json_data(*value)),
{
    if value.is_object() {
        return false;
    }
    match value.as_array() {
        Some(items) => items.len() == 0,
        None => true,
    }
}

/// Tests for an object without entries.
fn test_empty_object(value: &serde_json::Value) -> (r: bool)
    ensures
        r == (json_data(*value) == JsonData::Object(Map::empty())),
{
    value.is_object() && same_text(json_display(value).as_str(), "{}")
}

/// Tests for a text under a key of an object.
fn test_text(value: &serde_json::Value, key: &str, text: &str) -> (r: bool)
    ensures
        r == (part(json_data(*value), key@) == Some(JsonData::Text(text@))),
{
    match part_of(value, key) {
        Some(entry) => match entry.as_str() {
            Some(found) => same_text(found, text),
            None => false,
        },
        None => false,
    }
}

fn test_kind(value: &serde_json::Value, kind: &str) -> (r: bool)
    ensures
        r == is_kind(json_data(*value), kind@),
{
    test_text(value, "type", kind)
}

fn test_empty_fixed(value: &serde_json::Value) -> (r: bool)
    ensures
        r == is_empty_fixed(json_data(*value)),
    decreases json_data(*value),
{
    match json_entry(value, "type") {
        Some(entry) => {
            proof {
                let data = json_data(*value);
                assert(decreases_to!(data => data->Object_0["type"@]));
            }
            let empty = match part_of(value, "size") {
                Some(size) => test_whole(size, 0, 0),
                None => false,
            };
            (test_kind(value, "fixed") && empty) || test_empty_fixed(entry)
        },
        None => false,
    }
}

fn test_alias(field: &serde_json::Value, name: &str) -> (r: bool)
    ensures
        r == has_alias(json_data(*field), name@),
{
    let entry = match part_of(field, "aliases") {
        Some(entry) => entry,
        None => return false,
    };
    let items = match entry.as_array() {
        Some(items) => items,
        None => return false,
    };
    let ghost all = items@.map_values(|item: serde_json::Value| json_data(item));
    let mut i: usize = 0;
    while i < items.len()
        invariant
            i <= items@.len(),
            all == items@.map_values(|item: serde_json::Value| json_data(item)),
            part(json_data(*field), "aliases"@) == Some(JsonData::Array(all)),
            forall|j: int| 0 <= j < i ==> #[trigger] all[j] != JsonData::Text(name@),
        decreases items@.len() - i,
    {
        proof {
            assert(all[i as int] == json_data(items@[i as int]));
        }
        if let Some(text) = items[i].as_str() {
            if same_text(text, name) {
                proof {
                    assert(all.contains(JsonData::Text(name@)));
                }
                return true;
            }
        }
        i += 1;
    }
    false
}

fn test_aliases(fields: &Vec<serde_json::Value>) -> (r: bool)
    ensures
        r == aliases_differ(fields@.map_values(|item: serde_json::Value| json_data(item))),
{
    let ghost all = fields@.map_values(|item: serde_json::Value| json_data(item));
    let mut j: usize = 0;
    while j < fields.len()
        invariant
            j <= fields@.len(),
            all == fields@.map_values(|item: serde_json::Value| json_data(item)),
            forall|i: int, k: int, name: Seq<char>|
                #![trigger has_alias(all[i], name), part(all[k], "name"@)]
                0 <= i < all.len() && 0 <= k < j && i != k && has_alias(all[i], name) ==> part(
                    all[k],
                    "name"@,
                ) != Some(JsonData::Text(name)),
        decreases fields@.len() - j,
    {
        proof {
            assert(all[j as int] == json_data(fields@[j as int]));
        }
        if let Some(entry) = part_of(&fields[j], "name") {
            if let Some(name) = entry.as_str() {
                let mut i: usize = 0;
                while i < fields.len()
                    invariant
                        i <= fields@.len(),
                        j < fields@.len(),
                        all == fields@.map_values(|item: serde_json::Value| json_data(item)),
                        part(all[j as int], "name"@) == Some(JsonData::Text(name@)),
                        forall|k: int| 0 <= k < i && k != j ==> !has_alias(#[trigger] all[k], name@),
                    decreases fields@.len() - i,
                {
                    proof {
                        assert(all[i as int] == json_data(fields@[i as int]));
                    }
                    if i != j && test_alias(&fields[i], name) {
                        return false;
                    }
                    i += 1;
                }
            }
        }
        j += 1;
    }
    true
}

fn test_writable(value: &serde_json::Value) -> (r: bool)
    ensures
        r == is_writable(json_data(*value)),
{
    if test_text(value, "logicalType", "decimal") && test_empty_fixed(value) {
        return false;
    }
    if !test_kind(value, "record") {
        return true;
    }
    match part_of(value, "fields") {
        Some(entry) => match entry.as_array() {
            Some(fields) => test_aliases(fields),
            None => true,
        },
        None => true,
    }
}

fn test_parts(value: &serde_json::Value, writing: bool) -> (r: bool)
    ensures
        r == parts_fit(json_data(*value), writing),
{
    let fixed = test_kind(value, "fixed");
    let record = test_kind(value, "record");
    let symbolic = test_kind(value, "enum");
    if fixed || record || symbolic {
        if let Some(entry) = part_of(value, "name") {
            if let Some(name) = entry.as_str() {
                if !test_type_name(name) {
                    return false;
                }
            }
        }
        if !test_names(value, "aliases") {
            return false;
        }
    }
    if record && part_of(value, "fields").is_none() {
        return false;
    }
    if symbolic && part_of(value, "symbols").is_none() {
        return false;
    }
    if fixed {
        match part_of(value, "size") {
            Some(size) => {
                if !test_whole(size, 0, LARGEST_FIXED) {
                    return false;
                }
            },
            None => return false,
        }
    }
    !writing || test_writable(value)
}

// ---------------------------------------------------------------------------
// What is asked of a schema
// ---------------------------------------------------------------------------

/// What can be asked of a schema.
#[derive(Clone, Copy)]
pub enum Demand {
    /// The parser can be given it; the writer too, if it is to be written.
    Fits(bool),
    /// The same of a field of a record, with its default value.
    Field(bool),
    /// It can be brought into its canonical form, as it is for a message on
    /// a default value that is none.
    Canonical,
    /// An empty object can be held against it: the search for a value of it
    /// does not lead into a record.
    Keyless,
    /// Any value can be held against it: it names no type that is defined
    /// elsewhere, and defines none inside a union. Whether it may define one
    /// at all is said by the flag.
    Plain(bool),
    /// The same of a field of a record.
    PlainField,
}

impl Demand {
    /// What is asked of the variants of a union of which this is asked.
    pub open spec fn of_variants(self) -> Demand {
        match self {
            Demand::Plain(_) => Demand::Plain(false),
            _ => self,
        }
    }

    /// Is a part that is not there taken for a good one?
    pub open spec fn is_lenient(self) -> bool {
        !(self is Plain || self is Keyless)
    }

    pub open spec fn level(self) -> nat {
        match self {
            Demand::Field(_) => 3,
            Demand::PlainField => 2,
            _ => 1,
        }
    }
}

/// Does the schema meet the demand?
pub open spec fn meets(data: JsonData, demand: Demand) -> bool
    decreases data, demand.level(),
{
    match demand {
        Demand::Field(writing) => {
            &&& part(data, "default"@) matches Some(default) ==> {
                &&& {
                    ||| is_single(default)
                    ||| meets(data, Demand::PlainField)
                    ||| default == JsonData::Object(Map::empty()) && meets(data, Demand::Keyless)
                }
                &&& {
                    ||| part(data, "type"@) matches Some(JsonData::Array(_))
                    ||| meets(data, Demand::Canonical)
                }
            }
            &&& meets(data, Demand::Fits(writing))
        },
        Demand::PlainField => data is Object && !is_kind(data, "record"@) && meets(
            data,
            Demand::Plain(true),
        ),
        _ => match data {
            JsonData::Text(name) => demand.is_lenient() || is_primitive(name),
            JsonData::Array(items) => all_meet(items, demand.of_variants()),
            JsonData::Object(_) => match demand {
                Demand::Canonical => {
                    &&& whole_or_none(part(data, "size"@))
                    &&& whole_or_none(part(data, "precision"@))
                    &&& whole_or_none(part(data, "scale"@))
                    &&& meets_under(data, "name"@, demand)
                    &&& meets_under(data, "type"@, demand)
                    &&& meets_under(data, "fields"@, demand)
                    &&& meets_under(data, "symbols"@, demand)
                    &&& meets_under(data, "items"@, demand)
                    &&& meets_under(data, "values"@, demand)
                    &&& meets_under(data, "order"@, demand)
                },
                Demand::Keyless => match part(data, "type"@) {
                    Some(JsonData::Text(kind)) => {
                        ||| is_primitive(kind)
                        ||| kind == "fixed"@
                        ||| part(data, "logicalType"@) is None && (kind == "array"@ || kind
                            == "map"@ || kind == "enum"@)
                    },
                    _ => meets_under(data, "type"@, demand),
                },
                Demand::Plain(named) => match part(data, "type"@) {
                    Some(JsonData::Text(kind)) => {
                        ||| is_primitive(kind)
                        ||| kind == "fixed"@ && named
                        ||| part(data, "logicalType"@) is None && {
                            ||| kind == "enum"@ && named
                            ||| kind == "array"@ && meets_under(data, "items"@, demand)
                            ||| kind == "map"@ && meets_under(data, "values"@, demand)
                            ||| kind == "record"@ && named && each_meets(data, Demand::PlainField)
                        }
                    },
                    _ => meets_under(data, "type"@, demand),
                },
                _ => {
                    &&& parts_fit(data, demand->Fits_0)
                    &&& meets_under(data, "type"@, demand)
                    &&& meets_under(data, "items"@, demand)
                    &&& meets_under(data, "values"@, demand)
                    &&& each_meets(data, Demand::Field(demand->Fits_0))
                },
            },
            _ => demand is Fits,
        },
    }
}

/// Does what stands under a key of the object meet the demand?
pub open spec fn meets_under(data: JsonData, key: Seq<char>, demand: Demand) -> bool
    decreases data, 0nat,
{
    if data is Object && data->Object_0.dom().contains(key) {
        proof {
            assert(decreases_to!(data => data->Object_0[key]));
        }
        meets(data->Object_0[key], demand)
    } else {
        demand.is_lenient()
    }
}

/// Does every field of the object meet the demand?
pub open spec fn each_meets(data: JsonData, demand: Demand) -> bool
    decreases data, 0nat,
{
    if data is Object && data->Object_0.dom().contains("fields"@) {
        let fields = data->Object_0["fields"@];
        proof {
            assert(decreases_to!(data => data->Object_0["fields"@]));
        }
        match fields {
            JsonData::Array(items) => {
                proof {
                    assert(decreases_to!(fields => fields->Array_0));
                }
                all_meet(items, demand)
            },
            _ => true,
        }
    } else {
        true
    }
}

/// Do all of them meet the demand?
pub open spec fn all_meet(items: Seq<JsonData>, demand: Demand) -> bool
    decreases items, 0nat,
{
    if items.len() == 0 {
        true
    } else {
        let last = items.len() - 1;
        all_meet(items.subrange(0, last), demand) && meets(items[last], demand)
    }
}

proof fn lemma_all_meet(items: Seq<JsonData>, i: int, demand: Demand)
    requires
        0 <= i < items.len(),
        all_meet(items, demand),
    ensures
        meets(items[i], demand),
    decreases items.len(),
{
    if i < items.len() - 1 {
        lemma_all_meet(items.subrange(0, items.len() - 1), i, demand);
    }
}

fn test_all(
    items: &Vec<serde_json::Value>,
    demand: Demand,
    Ghost(data): Ghost<Seq<JsonData>>,
) -> (r: bool)
    requires
        data == items@.map_values(|item: serde_json::Value| json_data(item)),
    ensures
        r == all_meet(data, demand),
    decreases data, 0nat,
{
    let mut i: usize = 0;
    while i < items.len()
        invariant
            i <= items@.len(),
            data == items@.map_values(|item: serde_json::Value| json_data(item)),
            all_meet(data.subrange(0, i as int), demand),
        decreases items@.len() - i,
    {
        proof {
            assert(data[i as int] == json_data(items@[i as int]));
            assert(decreases_to!(data => data[i as int]));
            assert(data.subrange(0, i + 1).subrange(0, i as int) =~= data.subrange(0, i as int));
        }
        if !test_meets(&items[i], demand) {
            proof {
                if all_meet(data, demand) {
                    lemma_all_meet(data, i as int, demand);
                }
            }
            return false;
        }
        i += 1;
    }
    proof {
        assert(data.subrange(0, i as int) =~= data);
    }
    true
}

fn test_under(value: &serde_json::Value, key: &str, demand: Demand) -> (r: bool)
    ensures
        r == meets_under(json_data(*value), key@, demand),
    decreases json_data(*value), 0nat,
{
    match json_entry(value, key) {
        Some(entry) => {
            proof {
                let data = json_data(*value);
                assert(decreases_to!(data => data->Object_0[key@]));
            }
            test_meets(entry, demand)
        },
        None => match demand {
            Demand::Plain(_) | Demand::Keyless => false,
            _ => true,
        },
    }
}

fn test_each(value: &serde_json::Value, demand: Demand) -> (r: bool)
    ensures
        r == each_meets(json_data(*value), demand),
    decreases json_data(*value), 0nat,
{
    match json_entry(value, "fields") {
        Some(entry) => match entry.as_array() {
            Some(items) => {
                let ghost all = items@.map_values(|item: serde_json::Value| json_data(item));
                proof {
                    let data = json_data(*value);
                    let fields = data->Object_0["fields"@];
                    assert(decreases_to!(data => data->Object_0["fields"@]));
                    assert(decreases_to!(fields => fields->Array_0));
                }
                test_all(items, demand, Ghost(all))
            },
            None => true,
        },
        None => true,
    }
}

/// Tests the default value of a field.
fn test_default(value: &serde_json::Value, default: &serde_json::Value) -> (r: bool)
    requires
        part(json_data(*value), "default"@) == Some(json_data(*default)),
    ensures
        r == {
            &&& {
                ||| is_single(json_data(*default))
                ||| meets(json_data(*value), Demand::PlainField)
                ||| json_data(*default) == JsonData::Object(Map::empty()) && meets(
                    json_data(*value),
                    Demand::Keyless,
                )
            }
            &&& {
                ||| part(json_data(*value), "type"@) matches Some(JsonData::Array(_))
                ||| meets(json_data(*value), Demand::Canonical)
            }
        },
    decreases json_data(*value), 5nat,
{
    if !test_single(default) && !test_meets(value, Demand::PlainField) && !(test_empty_object(
        default,
    ) && test_meets(value, Demand::Keyless)) {
        return false;
    }
    if let Some(entry) = part_of(value, "type") {
        if entry.as_array().is_some() {
            return true;
        }
    }
    test_meets(value, Demand::Canonical)
}

fn test_object(value: &serde_json::Value, demand: Demand) -> (r: bool)
    requires
        json_data(*value) is Object,
        !(demand is Field) && !(demand is PlainField),
    ensures
        r == meets(json_data(*value), demand),
    decreases json_data(*value), 1nat,
{
    match demand {
        Demand::Canonical => {
            test_whole_or_none(value, "size") && test_whole_or_none(value, "precision")
                && test_whole_or_none(value, "scale") && test_under(value, "name", demand)
                && test_under(value, "type", demand) && test_under(value, "fields", demand)
                && test_under(value, "symbols", demand) && test_under(value, "items", demand)
                && test_under(value, "values", demand) && test_under(value, "order", demand)
        },
        Demand::Keyless => {
            if let Some(entry) = part_of(value, "type") {
                if let Some(kind) = entry.as_str() {
                    return test_primitive(kind) || same_text(kind, "fixed") || (part_of(
                        value,
                        "logicalType",
                    ).is_none() && (same_text(kind, "array") || same_text(kind, "map")
                        || same_text(kind, "enum")));
                }
            }
            test_under(value, "type", demand)
        },
        Demand::Plain(named) => {
            if let Some(entry) = part_of(value, "type") {
                if let Some(kind) = entry.as_str() {
                    if test_primitive(kind) || (same_text(kind, "fixed") && named) {
                        return true;
                    }
                    if part_of(value, "logicalType").is_some() {
                        return false;
                    }
                    return (same_text(kind, "enum") && named) || (same_text(kind, "array")
                        && test_under(value, "items", demand)) || (same_text(kind, "map")
                        && test_under(value, "values", demand)) || (same_text(kind, "record")
                        && named && test_each(value, Demand::PlainField));
                }
            }
            test_under(value, "type", demand)
        },
        Demand::Fits(writing) => {
            test_parts(value, writing) && test_under(value, "type", demand) && test_under(
                value,
                "items",
                demand,
            ) && test_under(value, "values", demand) && test_each(value, Demand::Field(writing))
        },
        _ => false,
    }
}

/// Tests whether a schema meets the demand.
fn test_meets(value: &serde_json::Value, demand: Demand) -> (r: bool)
    ensures
        r == meets(json_data(*value), demand),
    decreases json_data(*value), 2 * demand.level(),
{
    let ghost data = json_data(*value);
    match demand {
        Demand::Field(writing) => {
            if let Some(default) = part_of(value, "default") {
                if !test_default(value, default) {
                    return false;
                }
            }
            test_meets(value, Demand::Fits(writing))
        },
        Demand::PlainField => value.is_object() && !test_kind(value, "record") && test_meets(
            value,
            Demand::Plain(true),
        ),
        _ => {
            if let Some(name) = value.as_str() {
                return match demand {
                    Demand::Plain(_) | Demand::Keyless => test_primitive(name),
                    _ => true,
                };
            }
            if let Some(items) = value.as_array() {
                let ghost all = items@.map_values(|item: serde_json::Value| json_data(item));
                proof {
                    assert(decreases_to!(data => data->Array_0));
                }
                let inner = match demand {
                    Demand::Plain(_) => Demand::Plain(false),
                    other => other,
                };
                return test_all(items, inner, Ghost(all));
            }
            if value.is_object() {
                return test_object(value, demand);
            }
            match demand {
                Demand::Fits(_) => true,
                _ => false,
            }
        },
    }
}

// ---------------------------------------------------------------------------
// Records in themselves
// ---------------------------------------------------------------------------

/// The name of the record that an object defines, without its namespace.
pub open spec fn record_name(data: JsonData) -> Seq<char> {
    match part(data, "name"@) {
        Some(JsonData::Text(name)) => after_last(name, '.'),
        _ => Seq::empty(),
    }
}

/// The types, without their namespaces, whose values stand in a value of the
/// schema for certain: neither an item of a union, nor of an array or a map.
pub open spec fn holds(data: JsonData) -> Seq<Seq<char>>
    decreases data,
{
    match data {
        JsonData::Text(name) => if is_primitive(name) {
            Seq::empty()
        } else {
            seq![after_last(name, '.')]
        },
        JsonData::Object(entries) => {
            let own = if is_kind(data, "record"@) {
                seq![record_name(data)]
            } else {
                Seq::empty()
            };
            if entries.dom().contains("type"@) {
                proof {
                    assert(decreases_to!(data => data->Object_0["type"@]));
                }
                own + holds(entries["type"@])
            } else {
                own
            }
        },
        _ => Seq::empty(),
    }
}

/// Which types a record holds in its fields.
pub open spec fn field_links(name: Seq<char>, fields: Seq<JsonData>) -> Seq<(Seq<char>, Seq<char>)>
    decreases fields.len(),
{
    if fields.len() == 0 {
        Seq::empty()
    } else {
        let held = holds(fields.last());
        field_links(name, fields.drop_last()) + Seq::new(held.len(), |i: int| (name, held[i]))
    }
}

/// What the other names of a record stand for.
pub open spec fn alias_links(name: Seq<char>, aliases: Seq<JsonData>) -> Seq<
    (Seq<char>, Seq<char>),
>
    decreases aliases.len(),
{
    if aliases.len() == 0 {
        Seq::empty()
    } else {
        let before = alias_links(name, aliases.drop_last());
        match aliases.last() {
            JsonData::Text(alias) => if after_last(alias, '.') == name {
                before
            } else {
                before.push((after_last(alias, '.'), name))
            },
            _ => before,
        }
    }
}

/// The links of the record that an object defines.
pub open spec fn own_links(data: JsonData) -> Seq<(Seq<char>, Seq<char>)> {
    let fields = match part(data, "fields"@) {
        Some(JsonData::Array(items)) => field_links(record_name(data), items),
        _ => Seq::empty(),
    };
    let aliases = match part(data, "aliases"@) {
        Some(JsonData::Array(items)) => alias_links(record_name(data), items),
        _ => Seq::empty(),
    };
    if is_kind(data, "record"@) {
        fields + aliases
    } else {
        Seq::empty()
    }
}

/// From which record in the schema to which types it leads.
pub open spec fn links(data: JsonData) -> Seq<(Seq<char>, Seq<char>)>
    decreases data, 1nat,
{
    match data {
        JsonData::Array(items) => links_in(items),
        JsonData::Object(entries) => own_links(data) + links_under(data, "type"@) + links_under(
            data,
            "items"@,
        ) + links_under(data, "values"@) + links_under(data, "fields"@),
        _ => Seq::empty(),
    }
}

/// The same of what stands under a key of an object.
pub open spec fn links_under(data: JsonData, key: Seq<char>) -> Seq<(Seq<char>, Seq<char>)>
    decreases data, 0nat,
{
    if data is Object && data->Object_0.dom().contains(key) {
        proof {
            assert(decreases_to!(data => data->Object_0[key]));
        }
        links(data->Object_0[key])
    } else {
        Seq::empty()
    }
}

/// The same of several schemas.
pub open spec fn links_in(items: Seq<JsonData>) -> Seq<(Seq<char>, Seq<char>)>
    decreases items, 0nat,
{
    if items.len() == 0 {
        Seq::empty()
    } else {
        let last = items.len() - 1;
        links_in(items.subrange(0, last)) + links(items[last])
    }
}

/// Does every link lead downwards?
pub open spec fn descends(
    height: spec_fn(Seq<char>) -> nat,
    links: Seq<(Seq<char>, Seq<char>)>,
) -> bool {
    forall|i: int| 0 <= i < links.len() ==> height((#[trigger] links[i]).1) < height(links[i].0)
}

/// Does every way along the links come to an end?
pub open spec fn have_ends(links: Seq<(Seq<char>, Seq<char>)>) -> bool {
    exists|height: spec_fn(Seq<char>) -> nat| #[trigger] descends(height, links)
}

/// Can the schema be given to the parser, and, if it is to be written, to the
/// writer? Besides fitting, no record in it holds itself: its values would
/// have no end.
pub open spec fn schema_fits(data: JsonData, writing: bool) -> bool {
    meets(data, Demand::Fits(writing)) && have_ends(links(data))
}

// ---------------------------------------------------------------------------
// Schemas that stay what they are
// ---------------------------------------------------------------------------

/// The largest size of a fixed type in a simple schema, in bytes.
pub const SIMPLE_FIXED: i64 = 0x100;

/// Is this an object of a simple schema, as far as its own parts are
/// concerned? It has no namespace and no other names, no default value but
/// null, and of the logical types no duration, and no decimal but a fixed
/// one.
pub open spec fn is_simple_object(data: JsonData) -> bool {
    let logical = part(data, "logicalType"@);
    &&& part(data, "namespace"@) is None
    &&& part(data, "default"@) matches Some(default) ==> default is Null
    &&& logical != Some(JsonData::Text("duration"@))
    &&& logical != Some(JsonData::Text("big-decimal"@))
    &&& logical == Some(JsonData::Text("decimal"@)) ==> is_kind(data, "fixed"@)
    &&& is_definition(data) ==> {
        &&& part(data, "aliases"@) is None
        &&& part(data, "name"@) matches Some(JsonData::Text(name)) ==> !name.contains('.')
    }
    &&& is_kind(data, "fixed"@) ==> (part(data, "size"@) matches Some(size) && is_whole(
        size,
        0,
        SIMPLE_FIXED as int,
    ))
}

/// Is this a schema that means the same when it is written down again? If
/// only optional values are asked for, every union begins with null.
pub open spec fn is_simple(data: JsonData, optional: bool) -> bool
    decreases data, 1nat,
{
    match data {
        JsonData::Array(items) => {
            &&& optional ==> items.len() > 0 && items[0] == JsonData::Text("null"@)
            &&& all_simple(items, optional)
        },
        JsonData::Object(_) => {
            &&& is_simple_object(data)
            &&& is_simple_under(data, "type"@, optional)
            &&& is_simple_under(data, "items"@, optional)
            &&& is_simple_under(data, "values"@, optional)
            &&& is_simple_in_fields(data, optional)
        },
        _ => true,
    }
}

/// The same of what stands under a key of an object.
pub open spec fn is_simple_under(data: JsonData, key: Seq<char>, optional: bool) -> bool
    decreases data, 0nat,
{
    if data is Object && data->Object_0.dom().contains(key) {
        proof {
            assert(decreases_to!(data => data->Object_0[key]));
        }
        is_simple(data->Object_0[key], optional)
    } else {
        true
    }
}

/// The same of the fields of an object.
pub open spec fn is_simple_in_fields(data: JsonData, optional: bool) -> bool
    decreases data, 0nat,
{
    if data is Object && data->Object_0.dom().contains("fields"@) {
        let fields = data->Object_0["fields"@];
        proof {
            assert(decreases_to!(data => data->Object_0["fields"@]));
        }
        match fields {
            JsonData::Array(items) => {
                proof {
                    assert(decreases_to!(fields => fields->Array_0));
                }
                all_simple(items, optional)
            },
            _ => true,
        }
    } else {
        true
    }
}

/// The same of several schemas.
pub open spec fn all_simple(items: Seq<JsonData>, optional: bool) -> bool
    decreases items, 0nat,
{
    if items.len() == 0 {
        true
    } else {
        let last = items.len() - 1;
        all_simple(items.subrange(0, last), optional) && is_simple(items[last], optional)
    }
}

/// Is the value no deeper than this?
pub open spec fn is_shallow(data: JsonData, depth: nat) -> bool
    decreases depth,
{
    match data {
        JsonData::Array(items) => depth > 0 && forall|i: int|
            0 <= i < items.len() ==> is_shallow(#[trigger] items[i], (depth - 1) as nat),
        JsonData::Object(entries) => depth > 0 && forall|key: Seq<char>|
            #[trigger] entries.dom().contains(key) ==> is_shallow(
                entries[key],
                (depth - 1) as nat,
            ),
        _ => true,
    }
}

// ---------------------------------------------------------------------------
// Tests for records in themselves
// ---------------------------------------------------------------------------

/// The links as they are written down.
pub open spec fn pairs(links: Seq<(String, String)>) -> Seq<(Seq<char>, Seq<char>)> {
    links.map_values(|link: (String, String)| (link.0@, link.1@))
}

/// Appends a link from `name` to each type that a value of the schema holds.
fn push_held(value: &serde_json::Value, name: &str, out: &mut Vec<(String, String)>)
    ensures
        pairs(final(out)@) == pairs(old(out)@) + Seq::new(
            holds(json_data(*value)).len(),
            |i: int| (name@, holds(json_data(*value))[i]),
        ),
    decreases json_data(*value),
{
    let ghost start = pairs(out@);
    let ghost data = json_data(*value);
    let ghost held = holds(data);
    if let Some(text) = value.as_str() {
        if !test_primitive(text) {
            out.push((name.to_owned(), tail_of(text, '.').to_owned()));
        }
        proof {
            assert(pairs(out@) =~= start + Seq::new(held.len(), |i: int| (name@, held[i])));
        }
        return;
    }
    if test_kind(value, "record") {
        let own = own_name(value);
        out.push((name.to_owned(), own));
    }
    let ghost before = pairs(out@);
    if let Some(entry) = json_entry(value, "type") {
        proof {
            assert(decreases_to!(data => data->Object_0["type"@]));
        }
        push_held(entry, name, out);
    }
    proof {
        assert(pairs(out@) =~= start + Seq::new(held.len(), |i: int| (name@, held[i])));
    }
}

fn own_name(value: &serde_json::Value) -> (r: String)
    ensures
        r@ == record_name(json_data(*value)),
{
    if let Some(entry) = part_of(value, "name") {
        if let Some(name) = entry.as_str() {
            return tail_of(name, '.').to_owned();
        }
    }
    let none = String::new();
    proof {
        assert(none@ =~= Seq::<char>::empty());
    }
    none
}

fn push_fields(
    items: &Vec<serde_json::Value>,
    name: &str,
    out: &mut Vec<(String, String)>,
)
    ensures
        pairs(final(out)@) == pairs(old(out)@) + field_links(
            name@,
            items@.map_values(|item: serde_json::Value| json_data(item)),
        ),
{
    let ghost start = pairs(out@);
    let ghost all = items@.map_values(|item: serde_json::Value| json_data(item));
    let mut i: usize = 0;
    proof {
        assert(start + field_links(name@, all.take(0)) =~= start);
    }
    while i < items.len()
        invariant
            i <= items@.len(),
            all == items@.map_values(|item: serde_json::Value| json_data(item)),
            pairs(out@) == start + field_links(name@, all.take(i as int)),
        decreases items@.len() - i,
    {
        proof {
            assert(all[i as int] == json_data(items@[i as int]));
            assert(all.take(i + 1).drop_last() =~= all.take(i as int));
        }
        push_held(&items[i], name, out);
        proof {
            assert(pairs(out@) =~= start + field_links(name@, all.take(i + 1)));
        }
        i += 1;
    }
    proof {
        assert(all.take(i as int) =~= all);
    }
}

fn push_aliases(
    items: &Vec<serde_json::Value>,
    name: &str,
    out: &mut Vec<(String, String)>,
)
    ensures
        pairs(final(out)@) == pairs(old(out)@) + alias_links(
            name@,
            items@.map_values(|item: serde_json::Value| json_data(item)),
        ),
{
    let ghost start = pairs(out@);
    let ghost all = items@.map_values(|item: serde_json::Value| json_data(item));
    let mut i: usize = 0;
    proof {
        assert(start + alias_links(name@, all.take(0)) =~= start);
    }
    while i < items.len()
        invariant
            i <= items@.len(),
            all == items@.map_values(|item: serde_json::Value| json_data(item)),
            pairs(out@) == start + alias_links(name@, all.take(i as int)),
        decreases items@.len() - i,
    {
        let ghost before = pairs(out@);
        proof {
            assert(all[i as int] == json_data(items@[i as int]));
            assert(all.take(i + 1).drop_last() =~= all.take(i as int));
        }
        if let Some(text) = items[i].as_str() {
            let alias = tail_of(text, '.');
            if !same_text(alias, name) {
                out.push((alias.to_owned(), name.to_owned()));
                proof {
                    assert(pairs(out@) =~= before.push((alias@, name@)));
                }
            }
        }
        proof {
            assert(pairs(out@) =~= start + alias_links(name@, all.take(i + 1)));
        }
        i += 1;
    }
    proof {
        assert(all.take(i as int) =~= all);
    }
}

/// Appends the links of the record that an object defines.
fn push_own_links(value: &serde_json::Value, out: &mut Vec<(String, String)>)
    ensures
        pairs(final(out)@) == pairs(old(out)@) + own_links(json_data(*value)),
{
    let ghost start = pairs(out@);
    let ghost data = json_data(*value);
    if test_kind(value, "record") {
        let name = own_name(value);
        if let Some(entry) = part_of(value, "fields") {
            if let Some(items) = entry.as_array() {
                push_fields(items, name.as_str(), out);
            }
        }
        if let Some(entry) = part_of(value, "aliases") {
            if let Some(items) = entry.as_array() {
                push_aliases(items, name.as_str(), out);
            }
        }
    }
    proof {
        assert(pairs(out@) =~= start + own_links(data));
    }
}

/// Appends the links of the records in the schema.
fn push_links(value: &serde_json::Value, out: &mut Vec<(String, String)>)
    ensures
        pairs(final(out)@) == pairs(old(out)@) + links(json_data(*value)),
    decreases json_data(*value), 1nat,
{
    let ghost start = pairs(out@);
    let ghost data = json_data(*value);
    if let Some(items) = value.as_array() {
        let ghost all = items@.map_values(|item: serde_json::Value| json_data(item));
        let mut i: usize = 0;
        proof {
            assert(start + links_in(all.subrange(0, 0)) =~= start);
        }
        while i < items.len()
            invariant
                i <= items@.len(),
                all == items@.map_values(|item: serde_json::Value| json_data(item)),
                data == json_data(*value),
                data == JsonData::Array(all),
                pairs(out@) == start + links_in(all.subrange(0, i as int)),
            decreases items@.len() - i,
        {
            proof {
                assert(all[i as int] == json_data(items@[i as int]));
                assert(decreases_to!(data => data->Array_0));
                assert(decreases_to!(data->Array_0 => data->Array_0[i as int]));
                assert(all.subrange(0, i + 1).subrange(0, i as int) =~= all.subrange(0, i as int));
            }
            push_links(&items[i], out);
            proof {
                assert(pairs(out@) =~= start + links_in(all.subrange(0, i + 1)));
            }
            i += 1;
        }
        proof {
            assert(all.subrange(0, i as int) =~= all);
        }
        return;
    }
    if value.is_object() {
        push_own_links(value, out);
        push_links_under(value, "type", out);
        push_links_under(value, "items", out);
        push_links_under(value, "values", out);
        push_links_under(value, "fields", out);
    }
    proof {
        assert(pairs(out@) =~= start + links(data));
    }
}

fn push_links_under(value: &serde_json::Value, key: &str, out: &mut Vec<(String, String)>)
    ensures
        pairs(final(out)@) == pairs(old(out)@) + links_under(json_data(*value), key@),
    decreases json_data(*value), 0nat,
{
    match json_entry(value, key) {
        Some(entry) => {
            proof {
                let data = json_data(*value);
                assert(decreases_to!(data => data->Object_0[key@]));
            }
            push_links(entry, out);
        },
        None => {
            proof {
                assert(pairs(out@) + links_under(json_data(*value), key@) =~= pairs(out@));
            }
        },
    }
}

/// How many of them do not hold yet?
spec fn count_left(done: Seq<bool>) -> nat
    decreases done.len(),
{
    if done.len() == 0 {
        0
    } else {
        count_left(done.drop_last()) + if done.last() {
            0nat
        } else {
            1nat
        }
    }
}

proof fn lemma_count_left(done: Seq<bool>, i: int)
    requires
        0 <= i < done.len(),
        !done[i],
    ensures
        count_left(done.update(i, true)) < count_left(done),
    decreases done.len(),
{
    let more = done.update(i, true);
    if i == done.len() - 1 {
        assert(more.drop_last() =~= done.drop_last());
    } else {
        assert(more.drop_last() =~= done.drop_last().update(i, true));
        lemma_count_left(done.drop_last(), i);
    }
}

/// Does a link that is not done yet lead on from `name`?
spec fn leads_on(links: Seq<(Seq<char>, Seq<char>)>, done: Seq<bool>, name: Seq<char>) -> bool {
    exists|j: int| 0 <= j < links.len() && !done[j] && (#[trigger] links[j]).0 == name
}

/// Does the height go down along the links that are done, and does none of
/// them lead to the start of one that is not?
spec fn is_settled(
    links: Seq<(Seq<char>, Seq<char>)>,
    done: Seq<bool>,
    height: spec_fn(Seq<char>) -> nat,
) -> bool {
    &&& forall|i: int|
        0 <= i < links.len() && done[i] ==> height((#[trigger] links[i]).1) < height(links[i].0)
    &&& forall|i: int, j: int|
        0 <= i < links.len() && 0 <= j < links.len() && !done[i] && done[j] ==> (
        #[trigger] links[j]).1 != (#[trigger] links[i]).0
}

/// The heights with the start of a link raised above its end.
spec fn raised(
    height: spec_fn(Seq<char>) -> nat,
    from: Seq<char>,
    to: Seq<char>,
) -> spec_fn(Seq<char>) -> nat {
    |name: Seq<char>|
        if name == from && height(from) <= height(to) {
            height(to) + 1
        } else {
            height(name)
        }
}

/// A link that leads to where none leads on can be done.
proof fn lemma_settle(
    links: Seq<(Seq<char>, Seq<char>)>,
    done: Seq<bool>,
    height: spec_fn(Seq<char>) -> nat,
    k: int,
)
    requires
        links.len() == done.len(),
        is_settled(links, done, height),
        0 <= k < links.len(),
        !done[k],
        !leads_on(links, done, links[k].1),
    ensures
        is_settled(links, done.update(k, true), raised(height, links[k].0, links[k].1)),
{
    let from = links[k].0;
    let to = links[k].1;
    let more = done.update(k, true);
    let higher = raised(height, from, to);
    assert(from != to);
    assert forall|i: int| 0 <= i < links.len() && more[i] implies higher((#[trigger] links[i]).1)
        < higher(links[i].0) by {
        if i != k {
            assert(done[i]);
            assert(links[i].1 != links[k].0);
        }
    }
}

/// Where every link that is left leads on, no height goes down along them.
proof fn lemma_no_end(
    links: Seq<(Seq<char>, Seq<char>)>,
    done: Seq<bool>,
    height: spec_fn(Seq<char>) -> nat,
    i: int,
)
    requires
        links.len() == done.len(),
        0 <= i < links.len(),
        !done[i],
        forall|k: int|
            0 <= k < links.len() && !done[k] ==> leads_on(links, done, (#[trigger] links[k]).1),
    ensures
        !descends(height, links),
    decreases height(links[i].0),
{
    if descends(height, links) {
        assert(leads_on(links, done, links[i].1));
        let j = choose|j: int|
            0 <= j < links.len() && !done[j] && (#[trigger] links[j]).0 == links[i].1;
        lemma_no_end(links, done, height, j);
    }
}

fn test_leads_on(ways: &Vec<(String, String)>, done: &Vec<bool>, name: &str) -> (r: bool)
    requires
        ways@.len() == done@.len(),
    ensures
        r == leads_on(pairs(ways@), done@, name@),
{
    let ghost all = pairs(ways@);
    let mut j: usize = 0;
    while j < ways.len()
        invariant
            j <= ways@.len(),
            ways@.len() == done@.len(),
            all == pairs(ways@),
            forall|k: int| 0 <= k < j && !done@[k] ==> (#[trigger] all[k]).0 != name@,
        decreases ways@.len() - j,
    {
        proof {
            assert(all[j as int].0 == ways@[j as int].0@);
        }
        if !done[j] && same_text(ways[j].0.as_str(), name) {
            return true;
        }
        j += 1;
    }
    false
}

/// Tests whether every way along the links comes to an end, by taking links
/// away that lead nowhere from where they end.
fn test_ends(ways: &Vec<(String, String)>) -> (r: bool)
    ensures
        r == have_ends(pairs(ways@)),
{
    let ghost all = pairs(ways@);
    let ghost mut height: spec_fn(Seq<char>) -> nat = |name: Seq<char>| 0nat;
    let mut done: Vec<bool> = Vec::new();
    let mut n: usize = 0;
    while n < ways.len()
        invariant
            n <= ways@.len(),
            done@.len() == n,
            forall|k: int| 0 <= k < n ==> !done@[k],
        decreases ways@.len() - n,
    {
        done.push(false);
        n += 1;
    }
    loop
        invariant
            all == pairs(ways@),
            all.len() == done@.len(),
            ways@.len() == done@.len(),
            is_settled(all, done@, height),
        decreases count_left(done@),
    {
        let ghost before = done@;
        let mut moved = false;
        let mut finished = true;
        let ghost mut stuck: int = 0;
        let mut i: usize = 0;
        while i < ways.len()
            invariant
                i <= ways@.len(),
                all == pairs(ways@),
                all.len() == done@.len(),
                ways@.len() == done@.len(),
                is_settled(all, done@, height),
                moved ==> count_left(done@) < count_left(before),
                !moved ==> done@ == before,
                !moved ==> forall|k: int|
                    0 <= k < i && !done@[k] ==> leads_on(all, done@, (#[trigger] all[k]).1),
                finished ==> forall|k: int| 0 <= k < i ==> done@[k],
                !finished && !moved ==> 0 <= stuck < i && !done@[stuck],
            decreases ways@.len() - i,
        {
            proof {
                assert(all[i as int].1 == ways@[i as int].1@);
            }
            if !done[i] {
                if test_leads_on(ways, &done, ways[i].1.as_str()) {
                    finished = false;
                    proof {
                        stuck = i as int;
                    }
                } else {
                    proof {
                        lemma_settle(all, done@, height, i as int);
                        lemma_count_left(done@, i as int);
                        height = raised(height, all[i as int].0, all[i as int].1);
                    }
                    done.set(i, true);
                    moved = true;
                }
            }
            i += 1;
        }
        if finished {
            proof {
                assert(descends(height, all));
            }
            return true;
        }
        if !moved {
            proof {
                if have_ends(all) {
                    let h = choose|h: spec_fn(Seq<char>) -> nat| #[trigger] descends(h, all);
                    lemma_no_end(all, done@, h, stuck);
                }
            }
            return false;
        }
    }
}

/// Tests whether a schema can be given to the parser, and, if it is to be
/// written, to the writer.
pub fn test_schema(value: &serde_json::Value, writing: bool) -> (r: bool)
    ensures
        r == schema_fits(json_data(*value), writing),
{
    if !test_meets(value, Demand::Fits(writing)) {
        return false;
    }
    let mut ways: Vec<(String, String)> = Vec::new();
    push_links(value, &mut ways);
    proof {
        assert(pairs(ways@) =~= links(json_data(*value)));
    }
    test_ends(&ways)
}

// ---------------------------------------------------------------------------
// What is refused, and what is not
// ---------------------------------------------------------------------------

/// A name begins with a letter and goes on with letters and digits; the
/// underscore counts as a letter. A dot stands between two names.
pub proof fn names_are_letters_and_digits(s: Seq<char>, a: Seq<char>, b: Seq<char>)
    ensures
        !s.contains('.') ==> (is_dotted(s) <==> s.len() > 0 && is_letter(s[0]) && forall|i: int|
            0 <= i < s.len() ==> is_letter(#[trigger] s[i]) || '0' <= s[i] <= '9'),
        is_dotted(a.push('.') + b) <==> is_dotted(a) && is_dotted(b),
        is_dotted(s) ==> is_type_name(s),
        !s.contains('.') && is_dotted(s) ==> is_type_name(seq!['.'] + s),
        is_type_name(s) ==> s.len() > 0 && s.last() != '.',
{
    if !s.contains('.') {
        assert forall|i: int| 0 <= i < s.len() implies #[trigger] s[i] != '.' by {
            assert(s.contains(s[i]));
        }
        if s.len() > 0 && is_letter(s[0]) && forall|i: int|
            0 <= i < s.len() ==> is_letter(#[trigger] s[i]) || '0' <= s[i] <= '9' {
            assert forall|i: int| 0 <= i < s.len() implies {
                ||| is_letter(#[trigger] s[i])
                ||| i > 0 && s[i - 1] != '.' && (is_digit(s[i]) || s[i] == '.')
            } by {
                if i > 0 {
                    assert(s[i - 1] != '.');
                }
            }
        }
    }
    let both = a.push('.') + b;
    let n = a.len() as int;
    assert(both[n] == '.');
    if is_dotted(both) {
        assert forall|i: int| 0 <= i < a.len() implies {
            ||| is_letter(#[trigger] a[i])
            ||| i > 0 && a[i - 1] != '.' && (is_digit(a[i]) || a[i] == '.')
        } by {
            assert(both[i] == a[i]);
            if i > 0 {
                assert(both[i - 1] == a[i - 1]);
            }
        }
        if n > 0 {
            assert(both[n - 1] == a[n - 1]);
        }
        if b.len() == 0 {
            assert(both.last() == '.');
        }
        assert forall|i: int| 0 <= i < b.len() implies {
            ||| is_letter(#[trigger] b[i])
            ||| i > 0 && b[i - 1] != '.' && (is_digit(b[i]) || b[i] == '.')
        } by {
            assert(both[n + 1 + i] == b[i]);
            assert(both[n + i] == if i == 0 {
                '.'
            } else {
                b[i - 1]
            });
        }
        assert(both.last() == b.last());
    }
    if is_dotted(a) && is_dotted(b) {
        assert forall|i: int| 0 <= i < both.len() implies {
            ||| is_letter(#[trigger] both[i])
            ||| i > 0 && both[i - 1] != '.' && (is_digit(both[i]) || both[i] == '.')
        } by {
            if i < n {
                assert(both[i] == a[i]);
                if i > 0 {
                    assert(both[i - 1] == a[i - 1]);
                }
            } else if i == n {
                assert(both[n - 1] == a.last());
            } else {
                assert(both[i] == b[i - n - 1]);
                if i > n + 1 {
                    assert(both[i - 1] == b[i - n - 2]);
                }
            }
        }
        assert(both.last() == b.last());
    }
    assert((seq!['.'] + s).skip(1) =~= s);
    if is_type_name(s) && !is_dotted(s) {
        assert(s.skip(1).last() == s.last());
    }
}

/// A union fits exactly if each of its variants does.
pub proof fn union_fits_if_its_variants_do(items: Seq<JsonData>, writing: bool)
    ensures
        meets(JsonData::Array(items), Demand::Fits(writing)) <==> forall|i: int|
            0 <= i < items.len() ==> meets(#[trigger] items[i], Demand::Fits(writing)),
{
    lemma_all_meet_if_each(items, Demand::Fits(writing));
    if all_meet(items, Demand::Fits(writing)) {
        assert forall|i: int| 0 <= i < items.len() implies meets(
            #[trigger] items[i],
            Demand::Fits(writing),
        ) by {
            lemma_all_meet(items, i, Demand::Fits(writing));
        }
    }
}

proof fn lemma_all_meet_if_each(items: Seq<JsonData>, demand: Demand)
    ensures
        (forall|i: int| 0 <= i < items.len() ==> meets(#[trigger] items[i], demand)) ==> all_meet(
            items,
            demand,
        ),
    decreases items.len(),
{
    if items.len() > 0 && forall|i: int| 0 <= i < items.len() ==> meets(#[trigger] items[i], demand) {
        let init = items.subrange(0, items.len() - 1);
        assert forall|i: int| 0 <= i < init.len() implies meets(#[trigger] init[i], demand) by {
            assert(init[i] == items[i]);
        }
        lemma_all_meet_if_each(init, demand);
        assert(meets(items[items.len() - 1], demand));
    }
}

/// A schema fits only if what is inside it does: the type, the items, the
/// values and the fields of an object.
pub proof fn parts_of_a_fitting_schema_fit(data: JsonData, key: Seq<char>, i: int, writing: bool)
    requires
        data is Object,
        meets(data, Demand::Fits(writing)),
    ensures
        (key == "type"@ || key == "items"@ || key == "values"@) && part(data, key) is Some
            ==> meets(part(data, key)->0, Demand::Fits(writing)),
        part(data, "fields"@) matches Some(JsonData::Array(items)) ==> (0 <= i < items.len()
            ==> meets(items[i], Demand::Fits(writing))),
{
    reveal_with_fuel(meets, 2);
    reveal_with_fuel(meets_under, 2);
    reveal_with_fuel(each_meets, 2);
    assert(meets_under(data, "type"@, Demand::Fits(writing)));
    assert(meets_under(data, "items"@, Demand::Fits(writing)));
    assert(meets_under(data, "values"@, Demand::Fits(writing)));
    assert(each_meets(data, Demand::Field(writing)));
    if let Some(JsonData::Array(items)) = part(data, "fields"@) {
        if 0 <= i < items.len() {
            lemma_all_meet(items, i, Demand::Field(writing));
        }
    }
}

/// A type with a name is refused if that name is none. So are a record
/// without fields, an enumeration without symbols, and a fixed type without a
/// size or with one beyond the largest.
pub proof fn broken_definitions_are_refused(data: JsonData, name: Seq<char>, writing: bool)
    requires
        data is Object,
    ensures
        (is_kind(data, "record"@) || is_kind(data, "enum"@) || is_kind(data, "fixed"@)) && part(
            data,
            "name"@,
        ) == Some(JsonData::Text(name)) && !is_type_name(name) ==> !schema_fits(data, writing),
        is_kind(data, "record"@) && part(data, "fields"@) is None ==> !schema_fits(data, writing),
        is_kind(data, "enum"@) && part(data, "symbols"@) is None ==> !schema_fits(data, writing),
        is_kind(data, "fixed"@) && part(data, "size"@) is None ==> !schema_fits(data, writing),
        forall|n: i64|
            is_kind(data, "fixed"@) && part(data, "size"@) == Some(
                JsonData::Number(#[trigger] signed_digits(n as int)),
            ) && (n < 0 || n > 0xfff_ffff) ==> !schema_fits(data, writing),
{
    assert forall|n: i64|
        is_kind(data, "fixed"@) && part(data, "size"@) == Some(
            JsonData::Number(#[trigger] signed_digits(n as int)),
        ) && (n < 0 || n > 0xfff_ffff) implies !schema_fits(data, writing) by {
        let size = part(data, "size"@)->0;
        if is_whole(size, 0, LARGEST_FIXED as int) {
            let m = choose|m: i64|
                size == JsonData::Number(#[trigger] signed_digits(m as int)) && 0 <= m
                    <= LARGEST_FIXED;
            lemma_signed_digits_differ(n as int, m as int);
        }
    }
}

/// What leads back to itself along the links has no end.
pub proof fn circles_have_no_end(links: Seq<(Seq<char>, Seq<char>)>, way: Seq<Seq<char>>)
    requires
        way.len() > 1,
        way[0] == way.last(),
        forall|i: int| 0 <= i < way.len() - 1 ==> links.contains((#[trigger] way[i], way[i + 1])),
    ensures
        !have_ends(links),
{
    if have_ends(links) {
        let height = choose|height: spec_fn(Seq<char>) -> nat| #[trigger] descends(height, links);
        lemma_heights_fall(height, links, way, way.len() - 1);
    }
}

proof fn lemma_heights_fall(
    height: spec_fn(Seq<char>) -> nat,
    links: Seq<(Seq<char>, Seq<char>)>,
    way: Seq<Seq<char>>,
    n: int,
)
    requires
        descends(height, links),
        1 <= n < way.len(),
        forall|i: int| 0 <= i < way.len() - 1 ==> links.contains((#[trigger] way[i], way[i + 1])),
    ensures
        height(way[n]) < height(way[0]),
    decreases n,
{
    let before = way[n - 1];
    let k = choose|k: int| 0 <= k < links.len() && links[k] == (before, way[n - 1 + 1]);
    assert(links[k].0 == before && links[k].1 == way[n]);
    if n > 1 {
        lemma_heights_fall(height, links, way, n - 1);
    }
}

/// A record with a field that is that record again is refused: its values
/// would have no end.
pub proof fn record_in_itself_is_refused(data: JsonData, i: int, name: Seq<char>, writing: bool)
    requires
        is_kind(data, "record"@),
        part(data, "name"@) == Some(JsonData::Text(name)),
        !is_primitive(name),
        part(data, "fields"@) matches Some(JsonData::Array(items)) && 0 <= i < items.len() && part(
            items[i],
            "type"@,
        ) == Some(JsonData::Text(name)),
    ensures
        !schema_fits(data, writing),
{
    let items = part(data, "fields"@)->0->Array_0;
    let own = after_last(name, '.');
    assert(record_name(data) == own);
    assert(holds(items[i]).contains(own)) by {
        assert(part(items[i], "type"@)->0 == items[i]->Object_0["type"@]);
        assert(holds(JsonData::Text(name)) == seq![own]);
        let held = holds(items[i]);
        assert(held.last() == own);
    }
    lemma_field_links(own, items, i, own);
    let pair = (own, own);
    let fields = field_links(own, items);
    let k = choose|k: int| 0 <= k < fields.len() && fields[k] == pair;
    assert(own_links(data)[k] == pair);
    assert(links(data)[k] == pair);
    let way = seq![own, own];
    assert forall|j: int| 0 <= j < way.len() - 1 implies links(data).contains(
        (#[trigger] way[j], way[j + 1]),
    ) by {
        assert(links(data)[k] == (way[j], way[j + 1]));
    }
    circles_have_no_end(links(data), way);
}

proof fn lemma_field_links(name: Seq<char>, fields: Seq<JsonData>, i: int, held: Seq<char>)
    requires
        0 <= i < fields.len(),
        holds(fields[i]).contains(held),
    ensures
        field_links(name, fields).contains((name, held)),
    decreases fields.len(),
{
    let before = field_links(name, fields.drop_last());
    let all = field_links(name, fields);
    if i < fields.len() - 1 {
        assert(fields.drop_last()[i] == fields[i]);
        lemma_field_links(name, fields.drop_last(), i, held);
        let k = choose|k: int| 0 <= k < before.len() && before[k] == (name, held);
        assert(all[k] == (name, held));
    } else {
        let names = holds(fields.last());
        let k = choose|k: int| 0 <= k < names.len() && names[k] == held;
        assert(all[before.len() + k] == (name, held));
    }
}

/// Is this the name of a type that needs no definition, or a union of such?
pub open spec fn is_flat_type(data: JsonData) -> bool {
    match data {
        JsonData::Text(name) => is_primitive(name),
        JsonData::Array(items) => forall|i: int|
            0 <= i < items.len() ==> ((#[trigger] items[i]) matches JsonData::Text(name)
                && is_primitive(name)),
        _ => false,
    }
}

/// Is this a field of such a type, without other names? It has no default
/// value, or null as that of a union.
pub open spec fn is_flat_field(data: JsonData) -> bool {
    &&& part(data, "type"@) matches Some(t) && is_flat_type(t)
    &&& part(data, "default"@) matches Some(default) ==> default is Null && part(data, "type"@)->0
        is Array
    &&& part(data, "aliases"@) is None
    &&& part(data, "items"@) is None
    &&& part(data, "values"@) is None
    &&& part(data, "fields"@) is None
}

proof fn lemma_primitives_define_nothing(name: Seq<char>)
    requires
        is_primitive(name),
    ensures
        name != "record"@,
        name != "enum"@,
        name != "fixed"@,
{
    reveal_strlit("null");
    reveal_strlit("boolean");
    reveal_strlit("int");
    reveal_strlit("long");
    reveal_strlit("float");
    reveal_strlit("double");
    reveal_strlit("bytes");
    reveal_strlit("string");
    reveal_strlit("record");
    reveal_strlit("enum");
    reveal_strlit("fixed");
    assert("record"@[0] == 'r' && "enum"@[0] == 'e' && "fixed"@[1] == 'i');
    assert("double"@[0] == 'd' && "string"@[0] == 's' && "null"@[0] == 'n' && "long"@[0] == 'l');
    assert("float"@[1] == 'l' && "bytes"@[1] == 'y');
}

proof fn lemma_flat_type(data: JsonData, writing: bool)
    requires
        is_flat_type(data),
    ensures
        meets(data, Demand::Fits(writing)),
        links(data) == Seq::<(Seq<char>, Seq<char>)>::empty(),
        holds(data) == Seq::<Seq<char>>::empty(),
        !is_empty_fixed(data),
{
    if let JsonData::Array(items) = data {
        assert forall|i: int| 0 <= i < items.len() implies meets(
            #[trigger] items[i],
            Demand::Fits(writing),
        ) by {
            assert(items[i] is Text);
        }
        lemma_all_meet_if_each(items, Demand::Fits(writing));
        lemma_texts_lead_nowhere(items);
    }
}

proof fn lemma_texts_lead_nowhere(items: Seq<JsonData>)
    requires
        forall|i: int| 0 <= i < items.len() ==> links(#[trigger] items[i]).len() == 0,
    ensures
        links_in(items) == Seq::<(Seq<char>, Seq<char>)>::empty(),
    decreases items.len(),
{
    if items.len() > 0 {
        let init = items.subrange(0, items.len() - 1);
        assert forall|i: int| 0 <= i < init.len() implies links(#[trigger] init[i]).len() == 0 by {
            assert(init[i] == items[i]);
        }
        lemma_texts_lead_nowhere(init);
        assert(links(items[items.len() - 1]).len() == 0);
        assert(links_in(items) =~= Seq::<(Seq<char>, Seq<char>)>::empty());
    }
}

proof fn lemma_flat_field(data: JsonData, writing: bool)
    requires
        is_flat_field(data),
    ensures
        meets(data, Demand::Field(writing)),
        links(data) == Seq::<(Seq<char>, Seq<char>)>::empty(),
        holds(data) == Seq::<Seq<char>>::empty(),
        forall|name: Seq<char>| !has_alias(data, name),
{
    let t = part(data, "type"@)->0;
    assert(t == data->Object_0["type"@]);
    lemma_flat_type(t, writing);
    if let JsonData::Text(name) = t {
        lemma_primitives_define_nothing(name);
    }
    assert(!is_kind(data, "record"@) && !is_kind(data, "enum"@) && !is_kind(data, "fixed"@));
    assert(!is_empty_fixed(data));
    assert(parts_fit(data, writing));
    reveal_with_fuel(meets, 2);
    reveal_with_fuel(meets_under, 2);
    reveal_with_fuel(each_meets, 2);
    assert(meets_under(data, "type"@, Demand::Fits(writing)));
    assert(meets_under(data, "items"@, Demand::Fits(writing)));
    assert(meets_under(data, "values"@, Demand::Fits(writing)));
    assert(each_meets(data, Demand::Field(writing)));
    assert(meets(data, Demand::Fits(writing)));
    assert(links(data) =~= Seq::<(Seq<char>, Seq<char>)>::empty());
    assert(holds(data) =~= Seq::<Seq<char>>::empty());
}

proof fn lemma_flat_fields(name: Seq<char>, items: Seq<JsonData>)
    requires
        forall|i: int| 0 <= i < items.len() ==> holds(#[trigger] items[i]).len() == 0,
    ensures
        field_links(name, items) == Seq::<(Seq<char>, Seq<char>)>::empty(),
    decreases items.len(),
{
    if items.len() > 0 {
        let init = items.drop_last();
        assert forall|i: int| 0 <= i < init.len() implies holds(#[trigger] init[i]).len() == 0 by {
            assert(init[i] == items[i]);
        }
        lemma_flat_fields(name, init);
        assert(holds(items[items.len() - 1]).len() == 0);
        assert(field_links(name, items) =~= Seq::<(Seq<char>, Seq<char>)>::empty());
    }
}

/// A record with a proper name and without other names is let through if each
/// of its fields is of a type that needs no definition, or of a union of such
/// types.
pub proof fn flat_records_are_let_through(data: JsonData, name: Seq<char>, writing: bool)
    requires
        is_kind(data, "record"@),
        part(data, "name"@) == Some(JsonData::Text(name)),
        is_type_name(name),
        part(data, "aliases"@) is None,
        part(data, "items"@) is None,
        part(data, "values"@) is None,
        part(data, "fields"@) matches Some(JsonData::Array(items)) && forall|i: int|
            0 <= i < items.len() ==> is_flat_field(#[trigger] items[i]),
    ensures
        schema_fits(data, writing),
{
    let items = part(data, "fields"@)->0->Array_0;
    reveal_strlit("record");
    reveal_strlit("enum");
    reveal_strlit("fixed");
    assert("record"@.len() == 6 && "enum"@.len() == 4 && "fixed"@.len() == 5);
    assert forall|i: int| 0 <= i < items.len() implies meets(
        #[trigger] items[i],
        Demand::Field(writing),
    ) && links(items[i]).len() == 0 && holds(items[i]).len() == 0 by {
        lemma_flat_field(items[i], writing);
    }
    assert forall|i: int, n: Seq<char>| 0 <= i < items.len() implies !#[trigger] has_alias(
        items[i],
        n,
    ) by {
        lemma_flat_field(items[i], writing);
    }
    lemma_all_meet_if_each(items, Demand::Field(writing));
    lemma_flat_fields(record_name(data), items);
    lemma_texts_lead_nowhere(items);
    assert(data->Object_0["type"@] == JsonData::Text("record"@));
    assert(data->Object_0["fields"@] == JsonData::Array(items));
    assert(!is_empty_fixed(JsonData::Text("record"@)));
    assert(!is_empty_fixed(data));
    assert(parts_fit(data, writing));
    reveal_with_fuel(meets, 2);
    reveal_with_fuel(meets_under, 2);
    reveal_with_fuel(each_meets, 2);
    assert(meets_under(data, "type"@, Demand::Fits(writing)));
    assert(meets_under(data, "items"@, Demand::Fits(writing)));
    assert(meets_under(data, "values"@, Demand::Fits(writing)));
    assert(each_meets(data, Demand::Field(writing)));
    assert(meets(data, Demand::Fits(writing)));
    reveal_with_fuel(links, 2);
    reveal_with_fuel(links_under, 2);
    let none = Seq::<(Seq<char>, Seq<char>)>::empty();
    assert(links(JsonData::Array(items)) == links_in(items));
    assert(own_links(data) =~= none);
    assert(links_under(data, "type"@) =~= none);
    assert(links_under(data, "fields"@) =~= none);
    assert(links(data) =~= Seq::<(Seq<char>, Seq<char>)>::empty());
    let height = |s: Seq<char>| 0nat;
    assert(descends(height, links(data)));
}

/// A schema that is to be written again is refused if the alias of a field is
/// the name of another, or if a decimal has no bytes: the writer breaks down
/// on these.
pub proof fn schemas_that_cannot_be_written_are_refused(
    data: JsonData,
    i: int,
    j: int,
    name: Seq<char>,
)
    requires
        data is Object,
    ensures
        is_kind(data, "record"@) && i != j && (part(data, "fields"@) matches Some(
            JsonData::Array(fields),
        ) && 0 <= i < fields.len() && 0 <= j < fields.len() && has_alias(fields[i], name) && part(
            fields[j],
            "name"@,
        ) == Some(JsonData::Text(name))) ==> !schema_fits(data, true),
        is_kind(data, "fixed"@) && part(data, "size"@) == Some(
            JsonData::Number(signed_digits(0)),
        ) && part(data, "logicalType"@) == Some(JsonData::Text("decimal"@)) ==> !schema_fits(
            data,
            true,
        ),
{
    if let Some(JsonData::Array(fields)) = part(data, "fields"@) {
        if 0 <= i < fields.len() && 0 <= j < fields.len() && i != j && has_alias(fields[i], name)
            && part(fields[j], "name"@) == Some(JsonData::Text(name)) {
            assert(!aliases_differ(fields));
        }
    }
    assert(JsonData::Number(signed_digits(0)) == JsonData::Number(signed_digits(0i64 as int)));
    assert(is_whole(JsonData::Number(signed_digits(0i64 as int)), 0, 0));
    assert(part(data, "type"@) is Some ==> data->Object_0.dom().contains("type"@));
}

/// A field whose type is defined elsewhere has no object for a default value
/// that has entries: what it is held against is not known yet.
pub proof fn default_of_a_named_type_is_refused(
    field: JsonData,
    kind: Seq<char>,
    default: JsonData,
    writing: bool,
)
    requires
        part(field, "type"@) == Some(JsonData::Text(kind)),
        !is_primitive(kind),
        kind != "fixed"@ && kind != "enum"@ && kind != "array"@ && kind != "map"@ && kind
            != "record"@,
        part(field, "default"@) == Some(default),
        default matches JsonData::Object(entries) && entries.dom().len() > 0,
    ensures
        !meets(field, Demand::Field(writing)),
{
    reveal_with_fuel(meets, 3);
    assert(default != JsonData::Object(Map::empty())) by {
        assert(Map::<Seq<char>, JsonData>::empty().dom().len() == 0);
    }
}

/// A type with a name is refused if one of its other names is none.
pub proof fn broken_aliases_are_refused(
    data: JsonData,
    aliases: Seq<JsonData>,
    i: int,
    writing: bool,
)
    requires
        is_kind(data, "record"@) || is_kind(data, "enum"@) || is_kind(data, "fixed"@),
        part(data, "aliases"@) == Some(JsonData::Array(aliases)),
        forall|j: int| 0 <= j < aliases.len() ==> (#[trigger] aliases[j]) is Text,
        0 <= i < aliases.len(),
        !is_type_name(aliases[i]->Text_0),
    ensures
        !schema_fits(data, writing),
{
    assert(aliases[i] is Text);
}

/// A record with a field that is that record again under another of its names
/// is refused too.
pub proof fn record_in_itself_by_another_name_is_refused(
    data: JsonData,
    i: int,
    k: int,
    alias: Seq<char>,
    writing: bool,
)
    requires
        is_kind(data, "record"@),
        part(data, "name"@) matches Some(JsonData::Text(_)),
        !is_primitive(alias),
        part(data, "fields"@) matches Some(JsonData::Array(items)) && 0 <= i < items.len() && part(
            items[i],
            "type"@,
        ) == Some(JsonData::Text(alias)),
        part(data, "aliases"@) matches Some(JsonData::Array(aliases)) && 0 <= k < aliases.len()
            && aliases[k] == JsonData::Text(alias),
    ensures
        !schema_fits(data, writing),
{
    let items = part(data, "fields"@)->0->Array_0;
    let aliases = part(data, "aliases"@)->0->Array_0;
    let own = record_name(data);
    let other = after_last(alias, '.');
    assert(holds(items[i]).contains(other)) by {
        assert(part(items[i], "type"@)->0 == items[i]->Object_0["type"@]);
        assert(holds(JsonData::Text(alias)) == seq![other]);
        assert(holds(items[i]).last() == other);
    }
    lemma_field_links(own, items, i, other);
    let fields = field_links(own, items);
    let a = choose|a: int| 0 <= a < fields.len() && fields[a] == (own, other);
    assert(own_links(data)[a] == (own, other));
    assert(links(data)[a] == (own, other));
    if own == other {
        let way = seq![own, own];
        assert forall|j: int| 0 <= j < way.len() - 1 implies links(data).contains(
            (#[trigger] way[j], way[j + 1]),
        ) by {
            assert(links(data)[a] == (way[j], way[j + 1]));
        }
        circles_have_no_end(links(data), way);
    } else {
        lemma_alias_links(own, aliases, k, alias);
        let names = alias_links(own, aliases);
        let b = choose|b: int| 0 <= b < names.len() && names[b] == (other, own);
        assert(own_links(data)[fields.len() + b] == (other, own));
        assert(links(data)[fields.len() + b] == (other, own));
        let way = seq![own, other, own];
        assert forall|j: int| 0 <= j < way.len() - 1 implies links(data).contains(
            (#[trigger] way[j], way[j + 1]),
        ) by {
            if j == 0 {
                assert(links(data)[a] == (way[j], way[j + 1]));
            } else {
                assert(links(data)[fields.len() + b] == (way[j], way[j + 1]));
            }
        }
        circles_have_no_end(links(data), way);
    }
}

proof fn lemma_alias_links(name: Seq<char>, aliases: Seq<JsonData>, k: int, alias: Seq<char>)
    requires
        0 <= k < aliases.len(),
        aliases[k] == JsonData::Text(alias),
        after_last(alias, '.') != name,
    ensures
        alias_links(name, aliases).contains((after_last(alias, '.'), name)),
    decreases aliases.len(),
{
    let pair = (after_last(alias, '.'), name);
    let before = alias_links(name, aliases.drop_last());
    let all = alias_links(name, aliases);
    if k < aliases.len() - 1 {
        assert(aliases.drop_last()[k] == aliases[k]);
        lemma_alias_links(name, aliases.drop_last(), k, alias);
        let b = choose|b: int| 0 <= b < before.len() && before[b] == pair;
        assert(all[b] == pair);
    } else {
        assert(all[before.len() as int] == pair);
    }
}

/// The letters of names are those of ASCII, in either case, and the
/// underscore.
pub proof fn letters_are_those_of_ascii(c: char)
    ensures
        is_letter(c) <==> 0x41 <= c as int <= 0x5a || 0x61 <= c as int <= 0x7a || c as int == 0x5f,
{
}

/// A part that is not there does no harm to a schema, but no value can be held
/// against it.
pub proof fn missing_parts_do_no_harm(data: JsonData, key: Seq<char>, writing: bool, named: bool)
    requires
        part(data, key) is None,
    ensures
        meets_under(data, key, Demand::Fits(writing)),
        meets_under(data, key, Demand::Canonical),
        !meets_under(data, key, Demand::Plain(named)),
        !meets_under(data, key, Demand::Keyless),
{
}

} // verus!
