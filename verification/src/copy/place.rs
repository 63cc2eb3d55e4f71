//! Places inside a value: what a rewrite changes there, and what it leaves.
use vstd::prelude::*;

use crate::copy::file::{all_relocated, relocated_at};
use crate::iceberg::avro::AvroData;
use crate::text::replaced;

verus! {

/// One step from a value to a part of it.
pub enum Step {
    /// To the value inside a union.
    Variant,
    /// To an item of an array.
    Item(int),
    /// To an entry of a dictionary.
    Entry(Seq<char>),
    /// To a field of a record.
    Field(int),
}

/// The part of the value that one step leads to.
pub open spec fn part_at(data: AvroData, step: Step) -> Option<AvroData> {
    match (data, step) {
        (AvroData::Union(_, inner), Step::Variant) => Some(*inner),
        (AvroData::Array(items), Step::Item(i)) => if 0 <= i < items.len() {
            Some(items[i])
        } else {
            None
        },
        (AvroData::Dictionary(entries), Step::Entry(key)) => if entries.contains_key(key) {
            Some(entries[key])
        } else {
            None
        },
        (AvroData::Record(fields), Step::Field(i)) => if 0 <= i < fields.len() {
            Some(fields[i].1)
        } else {
            None
        },
        _ => None,
    }
}

/// What stands in the value at the end of the steps.
pub open spec fn found_at(data: AvroData, steps: Seq<Step>) -> Option<AvroData>
    decreases steps.len(),
{
    if steps.len() == 0 {
        Some(data)
    } else {
        match part_at(data, steps[0]) {
            Some(part) => found_at(part, steps.skip(1)),
            None => None,
        }
    }
}

/// The name of the field in which the end of the steps stands, plain or
/// wrapped as optional; `outer` if no step is left but into unions.
pub open spec fn field_at(
    data: AvroData,
    steps: Seq<Step>,
    outer: Option<Seq<char>>,
) -> Option<Seq<char>>
    decreases steps.len(),
{
    if steps.len() == 0 {
        outer
    } else {
        match part_at(data, steps[0]) {
            Some(part) => field_at(
                part,
                steps.skip(1),
                match steps[0] {
                    Step::Variant => outer,
                    Step::Field(i) => Some(data->Record_0[i].0),
                    _ => None,
                },
            ),
            None => None,
        }
    }
}

/// What is found at a place of a rewritten value, from any field on.
proof fn lemma_found_after(
    data: AvroData,
    is_path: bool,
    outer: Option<Seq<char>>,
    from: Seq<char>,
    to: Seq<char>,
    steps: Seq<Step>,
)
    requires
        is_path <==> outer == Some("manifest_path"@) || outer == Some("file_path"@),
    ensures
        match found_at(data, steps) {
            None => found_at(relocated_at(data, is_path, from, to), steps) is None,
            Some(AvroData::Text(s)) => found_at(relocated_at(data, is_path, from, to), steps)
                == Some(
                AvroData::Text(
                    if field_at(data, steps, outer) == Some("manifest_path"@) || field_at(
                        data,
                        steps,
                        outer,
                    ) == Some("file_path"@) {
                        replaced(s, from, to)
                    } else {
                        s
                    },
                ),
            ),
            Some(AvroData::Union(i, _)) => {
                &&& found_at(relocated_at(data, is_path, from, to), steps) matches Some(
                    AvroData::Union(j, _),
                )
                &&& i == j
            },
            Some(AvroData::Array(x)) => {
                &&& found_at(relocated_at(data, is_path, from, to), steps) matches Some(
                    AvroData::Array(y),
                )
                &&& x.len() == y.len()
            },
            Some(AvroData::Dictionary(x)) => {
                &&& found_at(relocated_at(data, is_path, from, to), steps) matches Some(
                    AvroData::Dictionary(y),
                )
                &&& x.dom() == y.dom()
            },
            Some(AvroData::Record(x)) => {
                &&& found_at(relocated_at(data, is_path, from, to), steps) matches Some(
                    AvroData::Record(y),
                )
                &&& x.len() == y.len()
                &&& forall|i: int| 0 <= i < x.len() ==> (#[trigger] x[i]).0 == y[i].0
            },
            Some(other) => found_at(relocated_at(data, is_path, from, to), steps) == Some(other),
        },
    decreases steps.len(),
{
    let out = relocated_at(data, is_path, from, to);
    if steps.len() > 0 {
        let rest = steps.skip(1);
        match (data, steps[0]) {
            (AvroData::Union(_, inner), Step::Variant) => {
                lemma_found_after(*inner, is_path, outer, from, to, rest);
            },
            (AvroData::Array(items), Step::Item(i)) => if 0 <= i < items.len() {
                lemma_found_after(items[i], false, None, from, to, rest);
            },
            (AvroData::Dictionary(entries), Step::Entry(key)) => if entries.contains_key(key) {
                lemma_found_after(entries[key], false, None, from, to, rest);
            },
            (AvroData::Record(fields), Step::Field(i)) => if 0 <= i < fields.len() {
                let name = fields[i].0;
                lemma_found_after(
                    fields[i].1,
                    name == "manifest_path"@ || name == "file_path"@,
                    Some(name),
                    from,
                    to,
                    rest,
                );
            },
            _ => {},
        }
    } else if data is Dictionary {
        assert(out->Dictionary_0.dom() =~= data->Dictionary_0.dom());
    }
}

/// A text that does not stand in a field named `manifest_path` or `file_path`
/// is the same text after a rewrite, wherever it stands in the records.
pub proof fn texts_outside_path_fields_are_kept(
    records: Seq<AvroData>,
    from: Seq<char>,
    to: Seq<char>,
    n: int,
    steps: Seq<Step>,
    text: Seq<char>,
)
    requires
        0 <= n < records.len(),
        found_at(records[n], steps) == Some(AvroData::Text(text)),
        field_at(records[n], steps, None) != Some("manifest_path"@),
        field_at(records[n], steps, None) != Some("file_path"@),
    ensures
        all_relocated(records, from, to).len() == records.len(),
        found_at(all_relocated(records, from, to)[n], steps) == Some(AvroData::Text(text)),
{
    lemma_found_after(records[n], false, None, from, to, steps);
}

/// A text that stands in a field named `manifest_path` or `file_path`, plain
/// or wrapped as optional, has every `from` replaced after a rewrite.
pub proof fn texts_in_path_fields_are_replaced(
    records: Seq<AvroData>,
    from: Seq<char>,
    to: Seq<char>,
    n: int,
    steps: Seq<Step>,
    text: Seq<char>,
)
    requires
        0 <= n < records.len(),
        found_at(records[n], steps) == Some(AvroData::Text(text)),
        field_at(records[n], steps, None) == Some("manifest_path"@) || field_at(
            records[n],
            steps,
            None,
        ) == Some("file_path"@),
    ensures
        found_at(all_relocated(records, from, to)[n], steps) == Some(
            AvroData::Text(replaced(text, from, to)),
        ),
{
    lemma_found_after(records[n], false, None, from, to, steps);
}

/// What is no text and has no parts is the same after a rewrite, wherever it
/// stands in the records, and nothing comes to stand where nothing was.
pub proof fn all_but_texts_is_kept(
    records: Seq<AvroData>,
    from: Seq<char>,
    to: Seq<char>,
    n: int,
    steps: Seq<Step>,
)
    requires
        0 <= n < records.len(),
    ensures
        found_at(records[n], steps) is None ==> found_at(
            all_relocated(records, from, to)[n],
            steps,
        ) is None,
        found_at(records[n], steps) matches Some(found) ==> !(found is Text || found is Union
            || found is Array || found is Dictionary || found is Record) ==> found_at(
            all_relocated(records, from, to)[n],
            steps,
        ) == Some(found),
        found_at(records[n], steps) matches Some(AvroData::Record(before)) ==> (found_at(
            all_relocated(records, from, to)[n],
            steps,
        ) matches Some(AvroData::Record(after)) && after.len() == before.len() && forall|i: int|
            0 <= i < before.len() ==> (#[trigger] before[i]).0 == after[i].0),
        found_at(records[n], steps) matches Some(AvroData::Union(before, _)) ==> (found_at(
            all_relocated(records, from, to)[n],
            steps,
        ) matches Some(AvroData::Union(after, _)) && after == before),
{
    lemma_found_after(records[n], false, None, from, to, steps);
}

/// Does a field with one of the names stand in the value, at any depth?
pub open spec fn has_field(data: AvroData, names: Seq<Seq<char>>) -> bool
    decreases data,
{
    match data {
        AvroData::Union(_, inner) => has_field(*inner, names),
        AvroData::Array(items) => exists|i: int|
            0 <= i < items.len() && has_field(#[trigger] items[i], names),
        AvroData::Dictionary(entries) => exists|key: Seq<char>| #[trigger]
            entries.contains_key(key) && has_field(entries[key], names),
        AvroData::Record(fields) => exists|i: int|
            0 <= i < fields.len() && (names.contains((#[trigger] fields[i]).0) || has_field(
                fields[i].1,
                names,
            )),
        _ => false,
    }
}

/// A value without a field named `manifest_path` or `file_path` is the same
/// after a rewrite.
pub proof fn value_without_path_fields_is_kept(data: AvroData, from: Seq<char>, to: Seq<char>)
    requires
        !has_field(data, seq!["manifest_path"@, "file_path"@]),
    ensures
        relocated_at(data, false, from, to) == data,
    decreases data,
{
    let names = seq!["manifest_path"@, "file_path"@];
    let out = relocated_at(data, false, from, to);
    assert(names[0] == "manifest_path"@ && names[1] == "file_path"@);
    match data {
        AvroData::Union(_, inner) => {
            value_without_path_fields_is_kept(*inner, from, to);
        },
        AvroData::Array(items) => {
            assert forall|i: int| 0 <= i < items.len() implies out->Array_0[i] == items[i] by {
                assert(!has_field(items[i], names));
                value_without_path_fields_is_kept(items[i], from, to);
            }
            assert(out->Array_0 =~= items);
        },
        AvroData::Dictionary(entries) => {
            assert forall|key: Seq<char>| entries.contains_key(key) implies out->Dictionary_0[key]
                == entries[key] by {
                assert(!has_field(entries[key], names));
                value_without_path_fields_is_kept(entries[key], from, to);
            }
            assert(out->Dictionary_0 =~= entries);
        },
        AvroData::Record(fields) => {
            assert forall|i: int| 0 <= i < fields.len() implies out->Record_0[i] == fields[i] by {
                let field = fields[i];
                assert(!names.contains(field.0));
                assert(!has_field(field.1, names));
                value_without_path_fields_is_kept(field.1, from, to);
            }
            assert(out->Record_0 =~= fields);
        },
        _ => {},
    }
}

} // verus!
