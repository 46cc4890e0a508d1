use vstd::prelude::*;

use crate::output::{format_value, is_numeric_value, value_text, Alignment, Value};
use crate::table::{render_table, table_text};
use crate::text::{chars_of, decimal, push_char, push_decimal, string_views};

verus! {

/// `s` with every double quote written twice, as SQL wants it inside a
/// quoted name.
pub open spec fn double_quotes(s: Seq<char>) -> Seq<char>
    decreases s.len(),
{
    if s.len() == 0 {
        Seq::empty()
    } else {
        double_quotes(s.drop_last()) + if s.last() == '"' {
            seq!['"', '"']
        } else {
            seq![s.last()]
        }
    }
}

/// The query that reads every row of the table `name`: the name goes
/// between double quotes, with each double quote in it written twice.
pub fn dump_query(name: &str) -> (q: String)
    ensures
        q@ == "SELECT * FROM "@ + seq!['"'] + double_quotes(name@) + seq!['"'],
{
    let v = chars_of(name);
    let mut q = String::from_str("SELECT * FROM ");
    push_char(&mut q, '"');
    let ghost head = q@;
    let mut i: usize = 0;
    while i < v.len()
        invariant
            i <= v@.len(),
            v@ == name@,
            q@ == head + double_quotes(v@.subrange(0, i as int)),
        decreases v@.len() - i,
    {
        let c = v[i];
        push_char(&mut q, c);
        if c == '"' {
            push_char(&mut q, '"');
        }
        proof {
            let pre = v@.subrange(0, i as int);
            let post = v@.subrange(0, i + 1);
            assert(post.drop_last() == pre);
            assert(post.last() == c);
        }
        i = i + 1;
    }
    assert(v@.subrange(0, v@.len() as int) == v@);
    push_char(&mut q, '"');
    q
}

/// The values of a sequence of rows.
pub open spec fn value_rows(rows: Seq<Vec<Value>>) -> Seq<Seq<Value>> {
    rows.map_values(|r: Vec<Value>| r@)
}

/// Whether column `i` holds only numbers, nulls left aside.
pub open spec fn numeric_column(rows: Seq<Seq<Value>>, i: int) -> bool {
    forall|r: int|
        0 <= r < rows.len() && i < rows[r].len() && !(rows[r][i] is Null) ==> (#[trigger] rows[r][i]
            is Integer || rows[r][i] is Real)
}

/// How the dump aligns each of `count` columns: right where every value that
/// is not null is a number, left otherwise.
pub open spec fn dump_alignments(rows: Seq<Seq<Value>>, count: nat) -> Seq<Alignment> {
    Seq::new(
        count,
        |i: int|
            if numeric_column(rows, i) {
                Alignment::Right
            } else {
                Alignment::Left
            },
    )
}

/// The alignment of each of `count` columns in the dump: right where every
/// value that is not null is a number, left otherwise.
pub fn column_alignments(rows: &[Vec<Value>], count: usize) -> (a: Vec<Alignment>)
    ensures
        a@ == dump_alignments(value_rows(rows@), count as nat),
{
    let ghost vr = value_rows(rows@);
    let mut a: Vec<Alignment> = Vec::new();
    let mut i: usize = 0;
    while i < count
        invariant
            i <= count,
            vr == value_rows(rows@),
            a@.len() == i,
            forall|j: int|
                0 <= j < i ==> (#[trigger] a@[j] == Alignment::Right) == numeric_column(vr, j),
        decreases count - i,
    {
        let mut numeric = true;
        let mut r: usize = 0;
        while r < rows.len()
            invariant
                i < count,
                r <= rows@.len(),
                vr == value_rows(rows@),
                numeric == forall|k: int|
                    0 <= k < r && i < vr[k].len() && !(vr[k][i as int] is Null) ==> (
                    #[trigger] vr[k][i as int] is Integer || vr[k][i as int] is Real),
            decreases rows@.len() - r,
        {
            let row = &rows[r];
            assert(row@ == vr[r as int]);
            if i < row.len() {
                let value = &row[i];
                if !(matches!(value, Value::Null)) {
                    numeric = numeric && is_numeric_value(value);
                }
            }
            r = r + 1;
        }
        a.push(
            if numeric {
                Alignment::Right
            } else {
                Alignment::Left
            },
        );
        i = i + 1;
    }
    assert(a@ == dump_alignments(vr, count as nat));
    a
}

/// The shown texts of a sequence of rows of values.
pub open spec fn shown_rows(rows: Seq<Seq<Value>>) -> Seq<Seq<Seq<char>>> {
    rows.map_values(|r: Seq<Value>| r.map_values(|v: Value| value_text(v)))
}

/// Each value of each row as the table shows it.
pub fn format_rows(rows: &[Vec<Value>]) -> (cells: Vec<Vec<String>>)
    ensures
        cells@.len() == rows@.len(),
        forall|r: int|
            0 <= r < rows@.len() ==> string_views((#[trigger] cells@[r])@) == shown_rows(
                value_rows(rows@),
            )[r],
{
    let mut cells: Vec<Vec<String>> = Vec::new();
    let mut r: usize = 0;
    while r < rows.len()
        invariant
            r <= rows@.len(),
            cells@.len() == r,
            forall|k: int|
                0 <= k < r ==> string_views((#[trigger] cells@[k])@) == shown_rows(
                    value_rows(rows@),
                )[k],
        decreases rows@.len() - r,
    {
        let row = &rows[r];
        let mut line: Vec<String> = Vec::new();
        let mut i: usize = 0;
        while i < row.len()
            invariant
                i <= row@.len(),
                line@.len() == i,
                forall|j: int| 0 <= j < i ==> (#[trigger] line@[j])@ == value_text(row@[j]),
            decreases row@.len() - i,
        {
            line.push(format_value(&row[i]));
            i = i + 1;
        }
        assert(string_views(line@) == shown_rows(value_rows(rows@))[r as int]);
        cells.push(line);
        r = r + 1;
    }
    cells
}

/// The whole dump of one table: a blank line, `=== name ===`, the table with
/// numeric columns aligned right, and the number of rows.
pub open spec fn dump_section_text(
    name: Seq<char>,
    columns: Seq<Seq<char>>,
    rows: Seq<Seq<Value>>,
) -> Seq<char> {
    "\n=== "@ + name + " ===\n"@ + table_text(
        columns,
        shown_rows(rows),
        dump_alignments(rows, columns.len()),
    ) + "-- "@ + decimal(
        rows.len(),
    ) + " row(s)\n"@
}

/// Renders the dump of the table `name` from its column names and rows.
pub fn dump_section(name: &str, columns: &[String], rows: &[Vec<Value>]) -> (r: String)
    ensures
        r@ == dump_section_text(name@, string_views(columns@), value_rows(rows@)),
{
    let alignments = column_alignments(rows, columns.len());
    let cells = format_rows(rows);
    proof {
        assert(crate::table::rows_view(cells@) == shown_rows(value_rows(rows@)));
    }
    let mut out = String::from_str("\n=== ");
    out.append(name);
    out.append(" ===\n");
    out.append(render_table(columns, cells.as_slice(), alignments.as_slice()).as_str());
    out.append("-- ");
    push_decimal(&mut out, rows.len() as u128);
    out.append(" row(s)\n");
    assert(value_rows(rows@).len() == rows@.len());
    out
}

/// The last line of a dump section counts the rows given, whatever the
/// number of columns: the section ends with `-- N row(s)` and a newline,
/// where `N` is the number of rows in decimal.
pub proof fn lemma_section_ends_with_row_count(
    name: Seq<char>,
    columns: Seq<Seq<char>>,
    rows: Seq<Seq<Value>>,
)
    ensures
        ({
            let t = dump_section_text(name, columns, rows);
            let tail = "-- "@ + decimal(rows.len()) + " row(s)\n"@;
            &&& t.len() >= tail.len()
            &&& t.skip(t.len() - tail.len()) == tail
        }),
{
    let t = dump_section_text(name, columns, rows);
    let tail = "-- "@ + decimal(rows.len()) + " row(s)\n"@;
    let head = "\n=== "@ + name + " ===\n"@ + table_text(
        columns,
        shown_rows(rows),
        dump_alignments(rows, columns.len()),
    );
    assert(t =~= head + tail);
    assert((head + tail).skip(head.len() as int) =~= tail);
}

} // verus!
