//! The columns of a table's current schema.
use vstd::prelude::*;

use crate::iceberg::model::{Metadata, SchemaField};
use crate::json::{json_data, json_display, json_entry, json_text, JsonData};
use crate::number::{push_decimal, signed_decimal, signed_digits};
use crate::order::texts;
use crate::show::grid::{grid_lines, grid_text, row_texts};
use crate::text::same_text;

verus! {

/// The text under a key of an object.
pub open spec fn text_under(entries: Map<Seq<char>, JsonData>, key: Seq<char>) -> Option<
    Seq<char>,
> {
    if entries.dom().contains(key) {
        match entries[key] {
            JsonData::Text(s) => Some(s),
            _ => None,
        }
    } else {
        None
    }
}

/// How many items there are under a key of an object; none if that is no
/// array.
pub open spec fn items_under(entries: Map<Seq<char>, JsonData>, key: Seq<char>) -> nat {
    if entries.dom().contains(key) {
        match entries[key] {
            JsonData::Array(items) => items.len(),
            _ => 0,
        }
    } else {
        0
    }
}

/// The type under a key of an object as text; a question mark if there is
/// none.
pub open spec fn rendered_under(data: JsonData, key: Seq<char>) -> Seq<char>
    decreases data, 0nat,
{
    if data is Object && data->Object_0.dom().contains(key) {
        proof {
            assert(decreases_to!(data => data->Object_0[key]));
        }
        rendered(data->Object_0[key])
    } else {
        "?"@
    }
}

/// A column type as text. A name is shown as it is; a struct, a list or a map
/// in short, so that a row stays readable.
pub open spec fn rendered(data: JsonData) -> Seq<char>
    decreases data, 1nat,
{
    match data {
        JsonData::Text(s) => s,
        JsonData::Object(entries) => match text_under(entries, "type"@) {
            None => json_text(data),
            Some(kind) => if kind == "struct"@ {
                "struct<"@ + crate::number::digits(items_under(entries, "fields"@)) + " fields>"@
            } else if kind == "list"@ {
                "list<"@ + rendered_under(data, "element"@) + ">"@
            } else if kind == "map"@ {
                "map<"@ + rendered_under(data, "key"@) + ", "@ + rendered_under(data, "value"@)
                    + ">"@
            } else {
                kind
            },
        },
        _ => json_text(data),
    }
}

fn render_under(t: &serde_json::Value, key: &str) -> (r: String)
    ensures
        r@ == rendered_under(json_data(*t), key@),
    decreases json_data(*t), 0nat,
{
    match json_entry(t, key) {
        Some(entry) => {
            proof {
                let data = json_data(*t);
                assert(decreases_to!(data => data->Object_0[key@]));
            }
            render_type(entry)
        },
        None => "?".to_owned(),
    }
}

/// A column type as text.
pub fn render_type(t: &serde_json::Value) -> (r: String)
    ensures
        r@ == rendered(json_data(*t)),
    decreases json_data(*t), 1nat,
{
    if let Some(s) = t.as_str() {
        return s.to_owned();
    }
    if !t.is_object() {
        return json_display(t);
    }
    let named = match json_entry(t, "type") {
        Some(kind) => kind.as_str(),
        None => None,
    };
    let kind = match named {
        Some(kind) => kind,
        None => return json_display(t),
    };
    if same_text(kind, "struct") {
        let n: u64 = match json_entry(t, "fields") {
            Some(fields) => match fields.as_array() {
                Some(items) => items.len() as u64,
                None => 0,
            },
            None => 0,
        };
        let mut out: String = "struct<".to_owned();
        push_decimal(&mut out, n);
        out.append(" fields>");
        out
    } else if same_text(kind, "list") {
        let mut out: String = "list<".to_owned();
        out.append(render_under(t, "element").as_str());
        out.append(">");
        out
    } else if same_text(kind, "map") {
        let mut out: String = "map<".to_owned();
        out.append(render_under(t, "key").as_str());
        out.append(", ");
        out.append(render_under(t, "value").as_str());
        out.append(">");
        out
    } else {
        kind.to_owned()
    }
}

/// The cells of a column's row.
pub open spec fn field_cells(field: SchemaField) -> Seq<Seq<char>> {
    seq![
        signed_digits(field.id as int),
        field.name@,
        rendered(json_data(field.field_type)),
        if field.required {
            "yes"@
        } else {
            "no"@
        },
    ]
}

/// The headers of the columns' table.
pub open spec fn field_headers() -> Seq<Seq<char>> {
    seq!["id"@, "name"@, "type"@, "required"@]
}

/// The columns of a schema as lines.
pub open spec fn fields_text(fields: Seq<SchemaField>) -> Seq<Seq<char>> {
    if fields.len() == 0 {
        seq!["(schema has no columns)"@]
    } else {
        grid_text(field_headers(), fields.map_values(|f: SchemaField| field_cells(f)))
    }
}

fn cells_of(field: &SchemaField) -> (r: Vec<String>)
    ensures
        texts(r@) == field_cells(*field),
{
    let mut out: Vec<String> = Vec::new();
    out.push(signed_decimal(field.id as i64));
    out.push(field.name.clone());
    out.push(render_type(&field.field_type));
    out.push(
        if field.required {
            "yes".to_owned()
        } else {
            "no".to_owned()
        },
    );
    proof {
        assert(texts(out@) =~= field_cells(*field));
    }
    out
}

/// The columns of a schema as lines.
pub fn field_lines(fields: &Vec<SchemaField>) -> (r: Vec<String>)
    ensures
        texts(r@) == fields_text(fields@),
{
    if fields.len() == 0 {
        let mut out: Vec<String> = Vec::new();
        out.push("(schema has no columns)".to_owned());
        proof {
            assert(texts(out@) =~= seq!["(schema has no columns)"@]);
        }
        return out;
    }
    let mut headers: Vec<String> = Vec::new();
    headers.push("id".to_owned());
    headers.push("name".to_owned());
    headers.push("type".to_owned());
    headers.push("required".to_owned());
    proof {
        assert(texts(headers@) =~= field_headers());
    }
    let mut rows: Vec<Vec<String>> = Vec::new();
    let mut i: usize = 0;
    while i < fields.len()
        invariant
            i <= fields@.len(),
            rows@.len() == i,
            forall|j: int|
                0 <= j < i ==> texts((#[trigger] rows@[j])@) == field_cells(fields@[j]),
        decreases fields@.len() - i,
    {
        rows.push(cells_of(&fields[i]));
        i += 1;
    }
    proof {
        assert forall|j: int| 0 <= j < rows@.len() implies (#[trigger] rows@[j])@.len()
            == headers@.len() by {
            assert(texts(rows@[j]@).len() == 4);
        }
        assert(row_texts(rows@) =~= fields@.map_values(|f: SchemaField| field_cells(f)));
    }
    grid_lines(&headers, &rows)
}

/// What is printed of the current schema.
pub fn schema_lines(meta: &Metadata) -> (r: Vec<String>)
    ensures
        texts(r@) == match meta.current_schema_at() {
            None => seq!["No current schema found in metadata."@],
            Some(i) => seq![
                "Schema id: "@ + signed_digits(meta.schemas@[i].schema_id as int),
                ""@,
            ] + fields_text(meta.schemas@[i].fields@),
        },
{
    let mut out: Vec<String> = Vec::new();
    let schema = match meta.current_schema() {
        Some(schema) => schema,
        None => {
            out.push("No current schema found in metadata.".to_owned());
            proof {
                assert(texts(out@) =~= seq!["No current schema found in metadata."@]);
            }
            return out;
        },
    };
    let mut head: String = "Schema id: ".to_owned();
    head.append(signed_decimal(schema.schema_id as i64).as_str());
    out.push(head);
    out.push("".to_owned());
    let mut lines = field_lines(&schema.fields);
    let ghost rest = texts(lines@);
    let ghost first = texts(out@);
    out.append(&mut lines);
    proof {
        assert(first =~= seq!["Schema id: "@ + signed_digits(schema.schema_id as int), ""@]);
        assert(texts(out@) =~= first + rest);
    }
    out
}

// ---------------------------------------------------------------------------
// What the lines say
// ---------------------------------------------------------------------------

/// A type with a name is shown by its name; a struct by the number of its
/// fields, a list by its element, a map by its key and its value, and each of
/// these by its own type.
pub proof fn types_are_shown_in_short(
    entries: Map<Seq<char>, JsonData>,
    name: Seq<char>,
    a: JsonData,
    b: JsonData,
    fields: Seq<JsonData>,
)
    ensures
        rendered(JsonData::Text(name)) == name,
        entries.contains_key("type"@) && entries["type"@] == JsonData::Text("list"@)
            && entries.contains_key("element"@) && entries["element"@] == a ==> rendered(
            JsonData::Object(entries),
        ) == "list<"@ + rendered(a) + ">"@,
        entries.contains_key("type"@) && entries["type"@] == JsonData::Text("map"@)
            && entries.contains_key("key"@) && entries["key"@] == a && entries.contains_key(
            "value"@,
        ) && entries["value"@] == b ==> rendered(JsonData::Object(entries)) == "map<"@ + rendered(a)
            + ", "@ + rendered(b) + ">"@,
        entries.contains_key("type"@) && entries["type"@] == JsonData::Text("struct"@)
            && entries.contains_key("fields"@) && entries["fields"@] == JsonData::Array(fields)
            ==> rendered(JsonData::Object(entries)) == "struct<"@ + crate::number::digits(
            fields.len(),
        ) + " fields>"@,
        entries.contains_key("type"@) && entries["type"@] == JsonData::Text(name) && name
            != "list"@ && name != "map"@ && name != "struct"@ ==> rendered(
            JsonData::Object(entries),
        ) == name,
        !entries.contains_key("type"@) ==> rendered(JsonData::Object(entries)) == json_text(
            JsonData::Object(entries),
        ),
        entries.contains_key("type"@) && entries["type"@] == JsonData::Text("list"@)
            && !entries.contains_key("element"@) ==> rendered(JsonData::Object(entries))
            == "list<?>"@,
{
    reveal_strlit("list");
    reveal_strlit("map");
    reveal_strlit("struct");
    assert("list"@.len() == 4 && "map"@.len() == 3 && "struct"@.len() == 6);
    let data = JsonData::Object(entries);
    assert(data->Object_0 == entries);
    reveal_strlit("list<");
    reveal_strlit("?");
    reveal_strlit(">");
    reveal_strlit("list<?>");
    assert("list<"@ + "?"@ + ">"@ =~= "list<?>"@);
}

/// A schema is shown as a table with a row for each column, in order: its id,
/// its name, its type, and whether it is required, each under its header.
pub proof fn every_column_has_its_row(fields: Seq<SchemaField>, i: int)
    requires
        0 <= i < fields.len(),
    ensures
        ({
            let rows = fields.map_values(|f: SchemaField| field_cells(f));
            let headers = seq!["id"@, "name"@, "type"@, "required"@];
            let widths = Seq::new(
                4,
                |c: int| crate::show::grid::column_width(headers, rows, c),
            );
            let lines = fields_text(fields);
            &&& lines.len() == fields.len() + 2
            &&& lines[0] == crate::show::grid::row_line(headers, widths)
            &&& lines[i + 2] == crate::show::grid::row_line(
                seq![
                    signed_digits(fields[i].id as int),
                    fields[i].name@,
                    rendered(json_data(fields[i].field_type)),
                    if fields[i].required {
                        "yes"@
                    } else {
                        "no"@
                    },
                ],
                widths,
            )
        }),
        fields_text(Seq::empty()) == seq!["(schema has no columns)"@],
{
    let rows = fields.map_values(|f: SchemaField| field_cells(f));
    let headers = seq!["id"@, "name"@, "type"@, "required"@];
    assert(field_headers() =~= headers);
    crate::show::grid::table_has_a_line_for_each_row(headers, rows);
    let widths = Seq::new(4, |c: int| crate::show::grid::column_width(headers, rows, c));
    assert(widths =~= Seq::new(
        headers.len(),
        |c: int| crate::show::grid::column_width(headers, rows, c),
    ));
    assert(rows[i] == field_cells(fields[i]));
}

/// A struct whose fields are missing, or are no list, is shown as one without
/// fields.
pub proof fn struct_without_fields_has_none(entries: Map<Seq<char>, JsonData>)
    requires
        entries.contains_key("type"@),
        entries["type"@] == JsonData::Text("struct"@),
        entries.contains_key("fields"@) ==> !(entries["fields"@] is Array),
    ensures
        rendered(JsonData::Object(entries)) == "struct<"@ + crate::number::digits(0) + " fields>"@,
{
    reveal_strlit("list");
    reveal_strlit("map");
    reveal_strlit("struct");
    assert("list"@.len() == 4 && "map"@.len() == 3 && "struct"@.len() == 6);
    let data = JsonData::Object(entries);
    assert(data->Object_0 == entries);
}

} // verus!
