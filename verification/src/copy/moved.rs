//! What the walk finds in a manifest that was rewritten: the old paths, moved.
use vstd::prelude::*;

use crate::copy::file::{all_relocated, is_path_field, relocated_at};
use crate::iceberg::avro::{
    all_data, all_named_data, all_named_well_keyed, all_well_keyed, avro_reading, dictionary_of,
    distinct_keys, well_keyed, AvroData, AvroReading, AvroValue,
};
use crate::iceberg::manifest::{
    field_text, named_texts, texts_in_fields, texts_in_items, texts_in_pairs, texts_of_file,
};
use crate::text::replaced;

verus! {

/// Does the field say the text, as it is or wrapped as optional?
pub open spec fn says_text(field: AvroData, text: Seq<char>) -> bool {
    ||| field == AvroData::Text(text)
    ||| field matches AvroData::Union(_, inner) && *inner == AvroData::Text(text)
}

/// Does a field with the name, at any depth, say the text?
pub open spec fn has_text(data: AvroData, name: Seq<char>, text: Seq<char>) -> bool
    decreases data,
{
    match data {
        AvroData::Union(_, inner) => has_text(*inner, name, text),
        AvroData::Array(items) => exists|i: int|
            0 <= i < items.len() && has_text(#[trigger] items[i], name, text),
        AvroData::Dictionary(table) => exists|k: Seq<char>|
            table.contains_key(k) && has_text(#[trigger] table[k], name, text),
        AvroData::Record(fields) => exists|i: int|
            0 <= i < fields.len() && if (#[trigger] fields[i]).0 == name {
                says_text(fields[i].1, text)
            } else {
                has_text(fields[i].1, name, text)
            },
        _ => false,
    }
}

/// Does one of the records say the text in a field with the name?
pub open spec fn any_has_text(records: Seq<AvroData>, name: Seq<char>, text: Seq<char>) -> bool {
    exists|i: int| 0 <= i < records.len() && has_text(#[trigger] records[i], name, text)
}

// ---------------------------------------------------------------------------
// The walk finds exactly these texts
// ---------------------------------------------------------------------------

proof fn lemma_dictionary_is_pairs(pairs: Seq<(String, AvroValue)>, k: Seq<char>)
    requires
        distinct_keys(pairs),
    ensures
        dictionary_of(all_named_data(pairs)).contains_key(k) <==> exists|i: int|
            0 <= i < pairs.len() && (#[trigger] pairs[i]).0@ == k,
        forall|i: int|
            0 <= i < pairs.len() ==> dictionary_of(all_named_data(pairs))[(
            #[trigger] pairs[i]).0@] == pairs[i].1.data(),
    decreases pairs.len(),
{
    let named = all_named_data(pairs);
    if pairs.len() > 0 {
        let init = pairs.drop_last();
        assert(named.drop_last() =~= all_named_data(init));
        lemma_dictionary_is_pairs(init, k);
        let last = pairs.len() - 1;
        assert(named.last() == (pairs[last].0@, pairs[last].1.data()));
        assert forall|i: int| 0 <= i < pairs.len() implies dictionary_of(named)[(
        #[trigger] pairs[i]).0@] == pairs[i].1.data() by {
            if i < last {
                assert(init[i] == pairs[i]);
                assert(pairs[i].0@ != pairs[last].0@);
            }
        }
        if exists|i: int| 0 <= i < init.len() && (#[trigger] init[i]).0@ == k {
            let i = choose|i: int| 0 <= i < init.len() && (#[trigger] init[i]).0@ == k;
            assert(pairs[i].0@ == k);
        }
        if exists|i: int| 0 <= i < pairs.len() && (#[trigger] pairs[i]).0@ == k {
            let i = choose|i: int| 0 <= i < pairs.len() && (#[trigger] pairs[i]).0@ == k;
            if i < last {
                assert(init[i].0@ == k);
            }
        }
    }
}

proof fn lemma_field(value: AvroValue, text: Seq<char>)
    ensures
        field_text(value).contains(text) <==> says_text(value.data(), text),
{
    reveal_with_fuel(AvroValue::data, 2);
    match value {
        AvroValue::Text(s) => {
            assert(field_text(value)[0] == s@);
        },
        AvroValue::Union(_, inner) => match *inner {
            AvroValue::Text(s) => {
                assert(field_text(value)[0] == s@);
            },
            _ => {},
        },
        _ => {},
    }
}

proof fn lemma_sum_contains(a: Seq<Seq<char>>, b: Seq<Seq<char>>, text: Seq<char>)
    ensures
        (a + b).contains(text) <==> a.contains(text) || b.contains(text),
{
    let all = a + b;
    if a.contains(text) {
        let i = choose|i: int| 0 <= i < a.len() && a[i] == text;
        assert(all[i] == text);
    }
    if b.contains(text) {
        let i = choose|i: int| 0 <= i < b.len() && b[i] == text;
        assert(all[a.len() + i] == text);
    }
    if all.contains(text) {
        let i = choose|i: int| 0 <= i < all.len() && all[i] == text;
        if i < a.len() {
            assert(a[i] == text);
        } else {
            assert(b[i - a.len()] == text);
        }
    }
}

proof fn lemma_array_has(items: Seq<AvroData>, name: Seq<char>, text: Seq<char>)
    ensures
        has_text(AvroData::Array(items), name, text) == any_has_text(items, name, text),
{
    let data = AvroData::Array(items);
    if any_has_text(items, name, text) {
        let i = choose|i: int| 0 <= i < items.len() && has_text(#[trigger] items[i], name, text);
        assert(data->Array_0[i] == items[i]);
    }
}

proof fn lemma_dictionary_has(
    table: Map<Seq<char>, AvroData>,
    k: Seq<char>,
    name: Seq<char>,
    text: Seq<char>,
)
    requires
        table.contains_key(k),
        has_text(table[k], name, text),
    ensures
        has_text(AvroData::Dictionary(table), name, text),
{
    let data = AvroData::Dictionary(table);
    assert(data->Dictionary_0[k] == table[k]);
}

proof fn lemma_record_has(
    fields: Seq<(Seq<char>, AvroData)>,
    i: int,
    name: Seq<char>,
    text: Seq<char>,
)
    requires
        0 <= i < fields.len(),
        if fields[i].0 == name {
            says_text(fields[i].1, text)
        } else {
            has_text(fields[i].1, name, text)
        },
    ensures
        has_text(AvroData::Record(fields), name, text),
{
    let data = AvroData::Record(fields);
    assert(data->Record_0[i] == fields[i]);
}

/// The texts that are collected from a value are those that its fields say.
pub proof fn collected_texts_are_said(value: AvroValue, name: Seq<char>, text: Seq<char>)
    requires
        well_keyed(value),
    ensures
        named_texts(value, name).contains(text) <==> has_text(value.data(), name, text),
    decreases value,
{
    match value {
        AvroValue::Union(i, inner) => {
            collected_texts_are_said(*inner, name, text);
            assert(value.data() == AvroData::Union(i, Box::new(inner.data())));
        },
        AvroValue::Array(items) => {
            assert(decreases_to!(value => value->Array_0));
            assert(decreases_to!(value->Array_0 => value->Array_0@));
            lemma_items(items@, name, text);
            lemma_array_has(all_data(items@), name, text);
        },
        AvroValue::Dictionary(pairs) => {
            assert(decreases_to!(value => value->Dictionary_0));
            assert(decreases_to!(value->Dictionary_0 => value->Dictionary_0@));
            lemma_pairs(pairs@, name, text);
            let table = dictionary_of(all_named_data(pairs@));
            if has_text(value.data(), name, text) {
                let k = choose|k: Seq<char>|
                    table.contains_key(k) && has_text(#[trigger] table[k], name, text);
                lemma_dictionary_is_pairs(pairs@, k);
                let i = choose|i: int| 0 <= i < pairs@.len() && (#[trigger] pairs@[i]).0@ == k;
                assert(has_text(pairs@[i].1.data(), name, text));
            }
            if exists|i: int|
                0 <= i < pairs@.len() && has_text((#[trigger] pairs@[i]).1.data(), name, text) {
                let i = choose|i: int|
                    0 <= i < pairs@.len() && has_text((#[trigger] pairs@[i]).1.data(), name, text);
                lemma_dictionary_is_pairs(pairs@, pairs@[i].0@);
                lemma_dictionary_has(table, pairs@[i].0@, name, text);
            }
        },
        AvroValue::Record(fields) => {
            assert(decreases_to!(value => value->Record_0));
            assert(decreases_to!(value->Record_0 => value->Record_0@));
            lemma_fields(fields@, name, text);
            let data = all_named_data(fields@);
            if has_text(value.data(), name, text) {
                let i = choose|i: int|
                    0 <= i < data.len() && if (#[trigger] data[i]).0 == name {
                        says_text(data[i].1, text)
                    } else {
                        has_text(data[i].1, name, text)
                    };
                assert(field_says(fields@[i], name, text));
            }
            if exists|i: int| 0 <= i < fields@.len() && field_says(#[trigger] fields@[i], name, text) {
                let i = choose|i: int|
                    0 <= i < fields@.len() && field_says(#[trigger] fields@[i], name, text);
                lemma_record_has(data, i, name, text);
            }
        },
        _ => {},
    }
}

spec fn field_says(field: (String, AvroValue), name: Seq<char>, text: Seq<char>) -> bool {
    if field.0@ == name {
        says_text(field.1.data(), text)
    } else {
        has_text(field.1.data(), name, text)
    }
}

proof fn lemma_items(items: Seq<AvroValue>, name: Seq<char>, text: Seq<char>)
    requires
        all_well_keyed(items),
    ensures
        texts_in_items(items, name).contains(text) <==> any_has_text(
            all_data(items),
            name,
            text,
        ),
    decreases items,
{
    let data = all_data(items);
    if items.len() > 0 {
        let last = items.len() - 1;
        let init = items.subrange(0, last);
        assert(decreases_to!(items => items[last]));
        assert(forall|i: int| 0 <= i < init.len() ==> init[i] == items[i]);
        assert(all_well_keyed(init));
        lemma_items(init, name, text);
        collected_texts_are_said(items[last], name, text);
        lemma_sum_contains(texts_in_items(init, name), named_texts(items[last], name), text);
        let before = all_data(init);
        assert(forall|i: int| 0 <= i < init.len() ==> before[i] == data[i]);
        assert(data[last] == items[last].data());
        if any_has_text(before, name, text) {
            let i = choose|i: int| 0 <= i < before.len() && has_text(#[trigger] before[i], name, text);
            assert(has_text(data[i], name, text));
        }
        if any_has_text(data, name, text) {
            let i = choose|i: int| 0 <= i < data.len() && has_text(#[trigger] data[i], name, text);
            if i < last {
                assert(has_text(before[i], name, text));
            }
        }
    }
}

proof fn lemma_pairs(pairs: Seq<(String, AvroValue)>, name: Seq<char>, text: Seq<char>)
    requires
        all_named_well_keyed(pairs),
    ensures
        texts_in_pairs(pairs, name).contains(text) <==> exists|i: int|
            0 <= i < pairs.len() && has_text((#[trigger] pairs[i]).1.data(), name, text),
    decreases pairs,
{
    if pairs.len() > 0 {
        let last = pairs.len() - 1;
        let init = pairs.subrange(0, last);
        assert(decreases_to!(pairs => pairs[last]));
        assert(decreases_to!(pairs[last] => pairs[last].1));
        assert(forall|i: int| 0 <= i < init.len() ==> init[i] == pairs[i]);
        assert(all_named_well_keyed(init));
        lemma_pairs(init, name, text);
        collected_texts_are_said(pairs[last].1, name, text);
        lemma_sum_contains(texts_in_pairs(init, name), named_texts(pairs[last].1, name), text);
        if exists|i: int|
            0 <= i < pairs.len() && has_text((#[trigger] pairs[i]).1.data(), name, text) {
            let i = choose|i: int|
                0 <= i < pairs.len() && has_text((#[trigger] pairs[i]).1.data(), name, text);
            if i < last {
                assert(has_text(init[i].1.data(), name, text));
            }
        }
        if exists|i: int| 0 <= i < init.len() && has_text((#[trigger] init[i]).1.data(), name, text) {
            let i = choose|i: int|
                0 <= i < init.len() && has_text((#[trigger] init[i]).1.data(), name, text);
            assert(has_text(pairs[i].1.data(), name, text));
        }
    }
}

proof fn lemma_fields(fields: Seq<(String, AvroValue)>, name: Seq<char>, text: Seq<char>)
    requires
        all_named_well_keyed(fields),
    ensures
        texts_in_fields(fields, name).contains(text) <==> exists|i: int|
            0 <= i < fields.len() && field_says(#[trigger] fields[i], name, text),
    decreases fields,
{
    if fields.len() > 0 {
        let last = fields.len() - 1;
        let init = fields.subrange(0, last);
        assert(decreases_to!(fields => fields[last]));
        assert(decreases_to!(fields[last] => fields[last].1));
        assert(forall|i: int| 0 <= i < init.len() ==> init[i] == fields[i]);
        assert(all_named_well_keyed(init));
        lemma_fields(init, name, text);
        let own = if fields[last].0@ == name {
            field_text(fields[last].1)
        } else {
            named_texts(fields[last].1, name)
        };
        if fields[last].0@ == name {
            lemma_field(fields[last].1, text);
        } else {
            collected_texts_are_said(fields[last].1, name, text);
        }
        lemma_sum_contains(texts_in_fields(init, name), own, text);
        if exists|i: int| 0 <= i < fields.len() && field_says(#[trigger] fields[i], name, text) {
            let i = choose|i: int|
                0 <= i < fields.len() && field_says(#[trigger] fields[i], name, text);
            if i < last {
                assert(field_says(init[i], name, text));
            }
        }
        if exists|i: int| 0 <= i < init.len() && field_says(#[trigger] init[i], name, text) {
            let i = choose|i: int| 0 <= i < init.len() && field_says(#[trigger] init[i], name, text);
            assert(field_says(fields[i], name, text));
        }
    }
}

// ---------------------------------------------------------------------------
// Rewriting moves these texts
// ---------------------------------------------------------------------------

/// Is `text` what the fields say, moved?
pub open spec fn has_moved_text(
    data: AvroData,
    name: Seq<char>,
    from: Seq<char>,
    to: Seq<char>,
    text: Seq<char>,
) -> bool {
    exists|old_text: Seq<char>| #[trigger]
        has_text(data, name, old_text) && text == replaced(old_text, from, to)
}

/// What a path field says once it is rewritten: what it said, moved.
proof fn lemma_said_path_is_moved(
    field: AvroData,
    from: Seq<char>,
    to: Seq<char>,
    text: Seq<char>,
)
    ensures
        says_text(relocated_at(field, true, from, to), text) <==> exists|s: Seq<char>| #[trigger]
            says_text(field, s) && text == replaced(s, from, to),
{
    reveal_with_fuel(relocated_at, 2);
    match field {
        AvroData::Text(s) => {
            assert(says_text(field, s));
        },
        AvroData::Union(_, inner) => match *inner {
            AvroData::Text(s) => {
                assert(says_text(field, s));
            },
            _ => {},
        },
        _ => {},
    }
}

/// The path fields of a rewritten value say the old paths, moved, and nothing
/// else.
pub proof fn rewritten_paths_are_moved(
    data: AvroData,
    is_path: bool,
    name: Seq<char>,
    from: Seq<char>,
    to: Seq<char>,
    text: Seq<char>,
)
    requires
        is_path_field(name),
    ensures
        has_text(relocated_at(data, is_path, from, to), name, text) <==> has_moved_text(
            data,
            name,
            from,
            to,
            text,
        ),
    decreases data,
{
    let out = relocated_at(data, is_path, from, to);
    match data {
        AvroData::Union(_, inner) => {
            rewritten_paths_are_moved(*inner, is_path, name, from, to, text);
            if has_moved_text(data, name, from, to, text) {
                let s = choose|s: Seq<char>| #[trigger]
                    has_text(data, name, s) && text == replaced(s, from, to);
                assert(has_text(*inner, name, s));
            }
            if has_moved_text(*inner, name, from, to, text) {
                let s = choose|s: Seq<char>| #[trigger]
                    has_text(*inner, name, s) && text == replaced(s, from, to);
                assert(has_text(data, name, s));
            }
        },
        AvroData::Array(items) => {
            let moved = out->Array_0;
            if has_text(out, name, text) {
                let i = choose|i: int| 0 <= i < moved.len() && has_text(#[trigger] moved[i], name, text);
                rewritten_paths_are_moved(items[i], false, name, from, to, text);
                let s = choose|s: Seq<char>| #[trigger]
                    has_text(items[i], name, s) && text == replaced(s, from, to);
                assert(has_text(data, name, s));
            }
            if has_moved_text(data, name, from, to, text) {
                let s = choose|s: Seq<char>| #[trigger]
                    has_text(data, name, s) && text == replaced(s, from, to);
                let i = choose|i: int| 0 <= i < items.len() && has_text(#[trigger] items[i], name, s);
                rewritten_paths_are_moved(items[i], false, name, from, to, text);
                assert(has_moved_text(items[i], name, from, to, text));
                assert(has_text(moved[i], name, text));
            }
        },
        AvroData::Dictionary(table) => {
            let moved = out->Dictionary_0;
            if has_text(out, name, text) {
                let k = choose|k: Seq<char>|
                    moved.contains_key(k) && has_text(#[trigger] moved[k], name, text);
                rewritten_paths_are_moved(table[k], false, name, from, to, text);
                let s = choose|s: Seq<char>| #[trigger]
                    has_text(table[k], name, s) && text == replaced(s, from, to);
                assert(has_text(data, name, s));
            }
            if has_moved_text(data, name, from, to, text) {
                let s = choose|s: Seq<char>| #[trigger]
                    has_text(data, name, s) && text == replaced(s, from, to);
                let k = choose|k: Seq<char>|
                    table.contains_key(k) && has_text(#[trigger] table[k], name, s);
                rewritten_paths_are_moved(table[k], false, name, from, to, text);
                assert(has_moved_text(table[k], name, from, to, text));
                assert(has_text(moved[k], name, text));
            }
        },
        AvroData::Record(fields) => {
            let moved = out->Record_0;
            if has_text(out, name, text) {
                let i = choose|i: int|
                    0 <= i < moved.len() && if (#[trigger] moved[i]).0 == name {
                        says_text(moved[i].1, text)
                    } else {
                        has_text(moved[i].1, name, text)
                    };
                if fields[i].0 == name {
                    lemma_said_path_is_moved(fields[i].1, from, to, text);
                    let s = choose|s: Seq<char>| #[trigger]
                        says_text(fields[i].1, s) && text == replaced(s, from, to);
                    lemma_record_has(fields, i, name, s);
                } else {
                    rewritten_paths_are_moved(
                        fields[i].1,
                        is_path_field(fields[i].0),
                        name,
                        from,
                        to,
                        text,
                    );
                    let s = choose|s: Seq<char>| #[trigger]
                        has_text(fields[i].1, name, s) && text == replaced(s, from, to);
                    lemma_record_has(fields, i, name, s);
                }
            }
            if has_moved_text(data, name, from, to, text) {
                let s = choose|s: Seq<char>| #[trigger]
                    has_text(data, name, s) && text == replaced(s, from, to);
                let i = choose|i: int|
                    0 <= i < fields.len() && if (#[trigger] fields[i]).0 == name {
                        says_text(fields[i].1, s)
                    } else {
                        has_text(fields[i].1, name, s)
                    };
                if fields[i].0 == name {
                    lemma_said_path_is_moved(fields[i].1, from, to, text);
                    assert(says_text(moved[i].1, text));
                } else {
                    rewritten_paths_are_moved(
                        fields[i].1,
                        is_path_field(fields[i].0),
                        name,
                        from,
                        to,
                        text,
                    );
                    assert(has_moved_text(fields[i].1, name, from, to, text));
                    assert(has_text(moved[i].1, name, text));
                }
                lemma_record_has(moved, i, name, text);
            }
        },
        _ => {},
    }
}

/// A manifest that was rewritten names the paths that it named before, moved,
/// and no others.
pub proof fn rewritten_file_names_moved_paths(
    source: Seq<u8>,
    out: Seq<u8>,
    name: Seq<char>,
    from: Seq<char>,
    to: Seq<char>,
    found: Seq<Seq<char>>,
    found_after: Seq<Seq<char>>,
    text: Seq<char>,
)
    requires
        is_path_field(name),
        avro_reading(source) matches AvroReading::Records(records) && avro_reading(out)
            == AvroReading::Records(all_relocated(records, from, to)),
        texts_of_file(source, name, found),
        texts_of_file(out, name, found_after),
    ensures
        found_after.contains(text) <==> exists|s: Seq<char>| #[trigger]
            found.contains(s) && text == replaced(s, from, to),
{
    let records = avro_reading(source)->Records_0;
    let moved = all_relocated(records, from, to);
    let values = choose|values: Seq<AvroValue>|
        avro_reading(source) == AvroReading::Records(#[trigger] all_data(values))
            && all_well_keyed(values) && found == texts_in_items(values, name);
    let values_after = choose|values: Seq<AvroValue>|
        avro_reading(out) == AvroReading::Records(#[trigger] all_data(values)) && all_well_keyed(
            values,
        ) && found_after == texts_in_items(values, name);
    lemma_items(values_after, name, text);
    assert forall|s: Seq<char>| found.contains(s) <==> #[trigger] any_has_text(
        records,
        name,
        s,
    ) by {
        lemma_items(values, name, s);
    }
    if any_has_text(moved, name, text) {
        let i = choose|i: int| 0 <= i < moved.len() && has_text(#[trigger] moved[i], name, text);
        rewritten_paths_are_moved(records[i], false, name, from, to, text);
        let s = choose|s: Seq<char>| #[trigger]
            has_text(records[i], name, s) && text == replaced(s, from, to);
        assert(any_has_text(records, name, s));
        assert(found.contains(s));
    }
    if exists|s: Seq<char>| #[trigger] found.contains(s) && text == replaced(s, from, to) {
        let s = choose|s: Seq<char>| #[trigger] found.contains(s) && text == replaced(s, from, to);
        assert(any_has_text(records, name, s));
        let i = choose|i: int| 0 <= i < records.len() && has_text(#[trigger] records[i], name, s);
        assert(has_moved_text(records[i], name, from, to, text));
        rewritten_paths_are_moved(records[i], false, name, from, to, text);
        assert(has_text(moved[i], name, text));
    }
}

} // verus!
