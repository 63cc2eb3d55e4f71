//! Rows and columns of text.
use vstd::prelude::*;
use vstd::utf8::encode_utf8;

use crate::order::texts;
use crate::text::{flush_left, push_column, push_repeated, repeated};

verus! {

/// The texts of all rows.
pub open spec fn row_texts(rows: Seq<Vec<String>>) -> Seq<Seq<Seq<char>>> {
    rows.map_values(|row: Vec<String>| texts(row@))
}

/// The width of a column: the most bytes that its header or one of its cells
/// has.
pub open spec fn column_width(
    headers: Seq<Seq<char>>,
    rows: Seq<Seq<Seq<char>>>,
    column: int,
) -> nat
    decreases rows.len(),
{
    if rows.len() == 0 {
        encode_utf8(headers[column]).len()
    } else {
        let rest = column_width(headers, rows.drop_last(), column);
        let own = encode_utf8(rows.last()[column]).len();
        if own > rest {
            own
        } else {
            rest
        }
    }
}

/// The widths of all columns.
pub open spec fn column_widths(headers: Seq<Seq<char>>, rows: Seq<Seq<Seq<char>>>) -> Seq<nat> {
    Seq::new(headers.len(), |i: int| column_width(headers, rows, i))
}

/// One row: its cells, filled up with blanks, with bars in between.
pub open spec fn row_line(cells: Seq<Seq<char>>, widths: Seq<nat>) -> Seq<char>
    decreases cells.len(),
{
    if cells.len() == 0 {
        Seq::empty()
    } else {
        let last = flush_left(cells.last(), ' ', widths[cells.len() - 1]);
        if cells.len() == 1 {
            last
        } else {
            row_line(cells.drop_last(), widths) + " | "@ + last
        }
    }
}

/// The rule under the header, with crosses where the bars are.
pub open spec fn rule_line(widths: Seq<nat>) -> Seq<char>
    decreases widths.len(),
{
    if widths.len() == 0 {
        Seq::empty()
    } else {
        let last = repeated('-', widths.last());
        if widths.len() == 1 {
            last
        } else {
            rule_line(widths.drop_last()) + "-+-"@ + last
        }
    }
}

/// The header, the rule and the rows.
pub open spec fn grid_text(headers: Seq<Seq<char>>, rows: Seq<Seq<Seq<char>>>) -> Seq<Seq<char>> {
    let widths = column_widths(headers, rows);
    seq![row_line(headers, widths), rule_line(widths)] + rows.map_values(
        |row: Seq<Seq<char>>| row_line(row, widths),
    )
}

/// The widths as numbers of the machine.
spec fn counts(widths: Seq<usize>) -> Seq<nat> {
    widths.map_values(|w: usize| w as nat)
}

fn byte_len(s: &str) -> (r: usize)
    ensures
        r == encode_utf8(s@).len(),
{
    s.as_bytes().len()
}

fn width_of(headers: &Vec<String>, rows: &Vec<Vec<String>>, column: usize) -> (r: usize)
    requires
        column < headers@.len(),
        forall|i: int| 0 <= i < rows@.len() ==> (#[trigger] rows@[i])@.len() == headers@.len(),
    ensures
        r == column_width(texts(headers@), row_texts(rows@), column as int),
{
    let ghost hs = texts(headers@);
    let ghost all = row_texts(rows@);
    let mut width: usize = byte_len(headers[column].as_str());
    let mut i: usize = 0;
    proof {
        assert(all.take(0) =~= Seq::<Seq<Seq<char>>>::empty());
    }
    while i < rows.len()
        invariant
            column < headers@.len(),
            forall|i: int| 0 <= i < rows@.len() ==> (#[trigger] rows@[i])@.len() == headers@.len(),
            i <= rows@.len(),
            hs == texts(headers@),
            all == row_texts(rows@),
            width == column_width(hs, all.take(i as int), column as int),
        decreases rows@.len() - i,
    {
        proof {
            assert(all.take(i + 1).drop_last() =~= all.take(i as int));
            assert(rows@[i as int]@.len() == headers@.len());
        }
        let own: usize = byte_len(rows[i][column].as_str());
        if own > width {
            width = own;
        }
        i += 1;
    }
    proof {
        assert(all.take(all.len() as int) =~= all);
    }
    width
}

fn write_row(cells: &Vec<String>, widths: &Vec<usize>) -> (r: String)
    requires
        cells@.len() == widths@.len(),
    ensures
        r@ == row_line(texts(cells@), counts(widths@)),
{
    let ghost all = texts(cells@);
    let ghost ws = counts(widths@);
    let mut out: String = String::new();
    let mut i: usize = 0;
    proof {
        assert(all.take(0) =~= Seq::<Seq<char>>::empty());
        assert(out@ =~= Seq::<char>::empty());
    }
    while i < cells.len()
        invariant
            i <= cells@.len(),
            cells@.len() == widths@.len(),
            all == texts(cells@),
            ws == counts(widths@),
            out@ == row_line(all.take(i as int), ws),
        decreases cells@.len() - i,
    {
        let ghost before = out@;
        proof {
            assert(all.take(i + 1).drop_last() =~= all.take(i as int));
            assert(all.take(i + 1).last() == cells@[i as int]@);
        }
        if i > 0 {
            out.append(" | ");
        }
        push_column(&mut out, cells[i].as_str(), ' ', widths[i]);
        i += 1;
        proof {
            let last = flush_left(cells@[i - 1]@, ' ', ws[i - 1]);
            if i == 1 {
                assert(before =~= Seq::<char>::empty());
                assert(out@ =~= last);
            } else {
                assert(out@ =~= before + " | "@ + last);
            }
        }
    }
    proof {
        assert(all.take(all.len() as int) =~= all);
    }
    out
}

fn write_rule(widths: &Vec<usize>) -> (r: String)
    ensures
        r@ == rule_line(counts(widths@)),
{
    let ghost ws = counts(widths@);
    let mut out: String = String::new();
    let mut i: usize = 0;
    proof {
        assert(ws.take(0) =~= Seq::<nat>::empty());
        assert(out@ =~= Seq::<char>::empty());
    }
    while i < widths.len()
        invariant
            i <= widths@.len(),
            ws == counts(widths@),
            out@ == rule_line(ws.take(i as int)),
        decreases widths@.len() - i,
    {
        let ghost before = out@;
        proof {
            assert(ws.take(i + 1).drop_last() =~= ws.take(i as int));
        }
        if i > 0 {
            out.append("-+-");
        }
        push_repeated(&mut out, '-', widths[i]);
        i += 1;
        proof {
            let last = repeated('-', ws[i - 1]);
            if i == 1 {
                assert(before =~= Seq::<char>::empty());
                assert(out@ =~= last);
            } else {
                assert(out@ =~= before + "-+-"@ + last);
            }
        }
    }
    proof {
        assert(ws.take(ws.len() as int) =~= ws);
    }
    out
}

/// Writes headers and rows as lines.
pub fn grid_lines(headers: &Vec<String>, rows: &Vec<Vec<String>>) -> (r: Vec<String>)
    requires
        forall|i: int| 0 <= i < rows@.len() ==> (#[trigger] rows@[i])@.len() == headers@.len(),
    ensures
        texts(r@) == grid_text(texts(headers@), row_texts(rows@)),
{
    let ghost hs = texts(headers@);
    let ghost all = row_texts(rows@);
    let ghost expected = column_widths(hs, all);
    let mut widths: Vec<usize> = Vec::new();
    let mut c: usize = 0;
    while c < headers.len()
        invariant
            forall|i: int| 0 <= i < rows@.len() ==> (#[trigger] rows@[i])@.len() == headers@.len(),
            hs == texts(headers@),
            all == row_texts(rows@),
            c <= headers@.len(),
            widths@.len() == c,
            forall|j: int| 0 <= j < c ==> #[trigger] widths@[j] == column_width(hs, all, j),
        decreases headers@.len() - c,
    {
        widths.push(width_of(headers, rows, c));
        c += 1;
    }
    proof {
        assert(counts(widths@) =~= expected);
    }
    let mut out: Vec<String> = Vec::new();
    out.push(write_row(headers, &widths));
    out.push(write_rule(&widths));
    let mut i: usize = 0;
    while i < rows.len()
        invariant
            forall|i: int| 0 <= i < rows@.len() ==> (#[trigger] rows@[i])@.len() == headers@.len(),
            hs == texts(headers@),
            all == row_texts(rows@),
            counts(widths@) == expected,
            widths@.len() == headers@.len(),
            i <= rows@.len(),
            out@.len() == i + 2,
            out@[0]@ == row_line(hs, expected),
            out@[1]@ == rule_line(expected),
            forall|j: int| 0 <= j < i ==> (#[trigger] out@[j + 2])@ == row_line(all[j], expected),
        decreases rows@.len() - i,
    {
        proof {
            assert(rows@[i as int]@.len() == headers@.len());
        }
        out.push(write_row(&rows[i], &widths));
        i += 1;
    }
    proof {
        let text = grid_text(hs, all);
        assert forall|j: int| 0 <= j < text.len() implies texts(out@)[j] == #[trigger] text[j] by {
            if j >= 2 {
                assert(out@[(j - 2) + 2]@ == row_line(all[j - 2], expected));
            }
        }
        assert(texts(out@) =~= text);
    }
    out
}

/// A column is as wide as the longest of its cells and its header, in bytes.
pub proof fn column_is_as_wide_as_its_longest_cell(
    headers: Seq<Seq<char>>,
    rows: Seq<Seq<Seq<char>>>,
    column: int,
)
    ensures
        column_width(headers, rows, column) >= encode_utf8(headers[column]).len(),
        forall|i: int|
            0 <= i < rows.len() ==> column_width(headers, rows, column) >= encode_utf8(
                (#[trigger] rows[i])[column],
            ).len(),
        column_width(headers, rows, column) == encode_utf8(headers[column]).len() || exists|i: int|
            0 <= i < rows.len() && column_width(headers, rows, column) == encode_utf8(
                (#[trigger] rows[i])[column],
            ).len(),
    decreases rows.len(),
{
    if rows.len() > 0 {
        let init = rows.drop_last();
        column_is_as_wide_as_its_longest_cell(headers, init, column);
        assert(rows[rows.len() - 1] == rows.last());
        assert forall|i: int| 0 <= i < rows.len() implies column_width(headers, rows, column)
            >= encode_utf8((#[trigger] rows[i])[column]).len() by {
            if i < init.len() {
                assert(init[i] == rows[i]);
            }
        }
        let rest = column_width(headers, init, column);
        if column_width(headers, rows, column) == rest && rest != encode_utf8(
            headers[column],
        ).len() {
            let i = choose|i: int|
                0 <= i < init.len() && rest == encode_utf8((#[trigger] init[i])[column]).len();
            assert(rows[i] == init[i]);
        }
    }
}

/// A line of a table holds its cells in order, each filled up to the width of
/// its column, with a bar between one and the next.
pub proof fn cells_stand_in_their_columns(
    cells: Seq<Seq<char>>,
    cell: Seq<char>,
    widths: Seq<nat>,
)
    requires
        cells.len() < widths.len(),
    ensures
        ({
            let filled = if cell.len() < widths[cells.len() as int] {
                cell + Seq::new((widths[cells.len() as int] - cell.len()) as nat, |i: int| ' ')
            } else {
                cell
            };
            &&& cells.len() == 0 ==> row_line(cells.push(cell), widths) == filled
            &&& cells.len() > 0 ==> row_line(cells.push(cell), widths) == row_line(cells, widths)
                + " | "@ + filled
        }),
{
    let n = widths[cells.len() as int];
    assert(cells.push(cell).drop_last() =~= cells);
    if cell.len() < n {
        assert(repeated(' ', (n - cell.len()) as nat) =~= Seq::new(
            (n - cell.len()) as nat,
            |i: int| ' ',
        ));
    }
}

/// The rule has a dash for every character of a column, and a cross between
/// one and the next.
pub proof fn rule_runs_under_all_columns(widths: Seq<nat>, width: nat)
    ensures
        widths.len() == 0 ==> rule_line(widths.push(width)) == Seq::new(width, |i: int| '-'),
        widths.len() > 0 ==> rule_line(widths.push(width)) == rule_line(widths) + "-+-"@ + Seq::new(
            width,
            |i: int| '-',
        ),
{
    assert(widths.push(width).drop_last() =~= widths);
    assert(repeated('-', width) =~= Seq::new(width, |i: int| '-'));
}

/// A table has its header, a rule and then a line for each row, in order, all
/// with the same widths.
pub proof fn table_has_a_line_for_each_row(headers: Seq<Seq<char>>, rows: Seq<Seq<Seq<char>>>)
    ensures
        ({
            let lines = grid_text(headers, rows);
            let widths = Seq::new(headers.len(), |c: int| column_width(headers, rows, c));
            &&& lines.len() == rows.len() + 2
            &&& lines[0] == row_line(headers, widths)
            &&& lines[1] == rule_line(widths)
            &&& forall|i: int|
                0 <= i < rows.len() ==> lines[i + 2] == row_line(#[trigger] rows[i], widths)
        }),
{
    let widths = Seq::new(headers.len(), |c: int| column_width(headers, rows, c));
    assert(widths =~= column_widths(headers, rows));
}

} // verus!
