use vstd::prelude::*;

use crate::output::{display_width, escape, escape_cell, escape_char, Alignment};
use crate::text::{push_char, push_repeated, string_views};

verus! {

pub open spec fn spaces(n: nat) -> Seq<char> {
    Seq::new(n, |_i: int| ' ')
}

pub open spec fn dashes(n: nat) -> Seq<char> {
    Seq::new(n, |_i: int| '─')
}

/// The `i`-th cell of a row, or nothing where the row is shorter.
pub open spec fn cell_at(cells: Seq<Seq<char>>, i: int) -> Seq<char> {
    if 0 <= i < cells.len() {
        cells[i]
    } else {
        Seq::empty()
    }
}

/// The alignment of column `i`: left where none is given.
pub open spec fn alignment_at(a: Seq<Alignment>, i: int) -> Alignment {
    if 0 <= i < a.len() {
        a[i]
    } else {
        Alignment::Left
    }
}

/// A cell padded with spaces to `width` on the side its alignment says, with
/// one space on either side.
pub open spec fn field(cell: Seq<char>, width: nat, a: Alignment) -> Seq<char> {
    let pad = spaces(
        if width > cell.len() {
            (width - cell.len()) as nat
        } else {
            0
        },
    );
    seq![' '] + (match a {
        Alignment::Right => pad + cell,
        Alignment::Left => cell + pad,
    }) + seq![' ']
}

/// The first `k` fields of a row, separated by `│`.
pub open spec fn fields(
    cells: Seq<Seq<char>>,
    widths: Seq<nat>,
    a: Seq<Alignment>,
    k: nat,
) -> Seq<char>
    decreases k,
{
    if k == 0 {
        Seq::empty()
    } else {
        fields(cells, widths, a, (k - 1) as nat) + (if k > 1 {
            seq!['│']
        } else {
            Seq::empty()
        }) + field(cell_at(cells, k - 1), widths[k - 1], alignment_at(a, k - 1))
    }
}

/// One line of the table: a field for each column between vertical bars,
/// then a newline.
pub open spec fn row_line(cells: Seq<Seq<char>>, widths: Seq<nat>, a: Seq<Alignment>) -> Seq<
    char,
> {
    (seq!['│'] + fields(cells, widths, a, widths.len()) + seq!['│']).push('\n')
}

/// The first `k` segments of a horizontal rule, each as wide as its field
/// and joined by `joint`.
pub open spec fn rule_segments(widths: Seq<nat>, k: nat, joint: char) -> Seq<char>
    decreases k,
{
    if k == 0 {
        Seq::empty()
    } else {
        rule_segments(widths, (k - 1) as nat, joint) + (if k > 1 {
            seq![joint]
        } else {
            Seq::empty()
        }) + dashes(widths[k - 1] + 2)
    }
}

/// A horizontal rule between the corner or edge pieces `left` and `right`,
/// then a newline.
pub open spec fn rule_line(widths: Seq<nat>, left: char, joint: char, right: char) -> Seq<char> {
    (seq![left] + rule_segments(widths, widths.len(), joint) + seq![right]).push('\n')
}

/// The widths of exec columns, as numbers.
pub open spec fn widths_view(widths: Seq<usize>) -> Seq<nat> {
    widths.map_values(|w: usize| w as nat)
}

/// A horizontal rule for columns of the given widths, from `left` to
/// `right`, with `joint` where two columns meet.
pub fn rule(widths: &[usize], left: char, joint: char, right: char) -> (r: String)
    ensures
        r@ == rule_line(widths_view(widths@), left, joint, right),
{
    let mut out = String::new();
    push_char(&mut out, left);
    let mut index: usize = 0;
    while index < widths.len()
        invariant
            index <= widths@.len(),
            out@ == seq![left] + rule_segments(widths_view(widths@), index as nat, joint),
        decreases widths@.len() - index,
    {
        if index > 0 {
            push_char(&mut out, joint);
        }
        let width = widths[index];
        let ghost before = out@;
        push_repeated(&mut out, '─', width);
        push_char(&mut out, '─');
        push_char(&mut out, '─');
        assert(out@ == before + dashes(width as nat + 2));
        index = index + 1;
    }
    push_char(&mut out, right);
    push_char(&mut out, '\n');
    out
}

/// The rule under the header, for columns of the given widths.
pub fn separator(widths: &[usize]) -> (r: String)
    ensures
        r@ == rule_line(widths_view(widths@), '├', '┼', '┤'),
{
    rule(widths, '├', '┼', '┤')
}

/// Appends the field of one cell: `cell` padded to `width` on the side that
/// `alignment` says, between two spaces.
fn push_field(out: &mut String, cell: &String, width: usize, alignment: Alignment)
    ensures
        final(out)@ == old(out)@ + field(cell@, width as nat, alignment),
{
    let padding = width.saturating_sub(display_width(cell.as_str()));
    push_char(out, ' ');
    match alignment {
        Alignment::Right => {
            push_repeated(out, ' ', padding);
            out.append(cell.as_str());
        },
        Alignment::Left => {
            out.append(cell.as_str());
            push_repeated(out, ' ', padding);
        },
    }
    push_char(out, ' ');
}

/// The line for one row: each cell padded to its column's width, missing
/// cells empty, cells beyond the last width left out.
pub fn data_row(cells: &[String], widths: &[usize], alignments: &[Alignment]) -> (r: String)
    ensures
        r@ == row_line(string_views(cells@), widths_view(widths@), alignments@),
{
    let ghost cv = string_views(cells@);
    let mut out = String::new();
    push_char(&mut out, '│');
    let empty = String::new();
    let mut index: usize = 0;
    while index < widths.len()
        invariant
            index <= widths@.len(),
            cv == string_views(cells@),
            empty@ == Seq::<char>::empty(),
            out@ == seq!['│'] + fields(cv, widths_view(widths@), alignments@, index as nat),
        decreases widths@.len() - index,
    {
        if index > 0 {
            push_char(&mut out, '│');
        }
        let width = widths[index];
        let cell: &String = if index < cells.len() {
            &cells[index]
        } else {
            &empty
        };
        assert(cell@ == cell_at(cv, index as int));
        let alignment = if index < alignments.len() {
            alignments[index]
        } else {
            Alignment::Left
        };
        push_field(&mut out, cell, width, alignment);
        index = index + 1;
    }
    push_char(&mut out, '│');
    push_char(&mut out, '\n');
    out
}

/// The texts of the rows of a table.
pub open spec fn rows_view(rows: Seq<Vec<String>>) -> Seq<Seq<Seq<char>>> {
    rows.map_values(|r: Vec<String>| string_views(r@))
}

/// Every cell of every row escaped.
pub open spec fn escape_rows(rows: Seq<Seq<Seq<char>>>) -> Seq<Seq<Seq<char>>> {
    rows.map_values(|r: Seq<Seq<char>>| r.map_values(|c: Seq<char>| escape(c)))
}

/// The width of column `i` over the header and the first `r` rows: the
/// widest of them, rows too short to reach the column left aside.
pub open spec fn column_width(
    headers: Seq<Seq<char>>,
    body: Seq<Seq<Seq<char>>>,
    i: int,
    r: nat,
) -> nat
    decreases r,
{
    if r == 0 {
        headers[i].len()
    } else {
        let w = column_width(headers, body, i, (r - 1) as nat);
        let row = body[r - 1];
        if i < row.len() && row[i].len() > w {
            row[i].len()
        } else {
            w
        }
    }
}

/// The widths of all columns over the whole table.
pub open spec fn column_widths(headers: Seq<Seq<char>>, body: Seq<Seq<Seq<char>>>) -> Seq<
    nat,
> {
    Seq::new(headers.len(), |i: int| column_width(headers, body, i, body.len()))
}

/// The lines of the first `r` rows.
pub open spec fn body_lines(
    body: Seq<Seq<Seq<char>>>,
    widths: Seq<nat>,
    a: Seq<Alignment>,
    r: nat,
) -> Seq<char>
    decreases r,
{
    if r == 0 {
        Seq::empty()
    } else {
        body_lines(body, widths, a, (r - 1) as nat) + row_line(body[r - 1], widths, a)
    }
}

/// The table for the given column names, rows and alignments: nothing when
/// there are no columns; else a top border, the header line, a rule, a line
/// for each row and a bottom border, every cell escaped and each column as
/// wide as its widest cell.
pub open spec fn table_text(
    columns: Seq<Seq<char>>,
    rows: Seq<Seq<Seq<char>>>,
    a: Seq<Alignment>,
) -> Seq<char> {
    if columns.len() == 0 {
        Seq::empty()
    } else {
        let headers = columns.map_values(|c: Seq<char>| escape(c));
        let body = escape_rows(rows);
        let widths = column_widths(headers, body);
        rule_line(widths, '┌', '┬', '┐') + row_line(headers, widths, Seq::empty()) + rule_line(
            widths,
            '├',
            '┼',
            '┤',
        ) + body_lines(body, widths, a, rows.len()) + rule_line(widths, '└', '┴', '┘')
    }
}

/// Escapes every string of `v`.
fn escape_all(v: &[String]) -> (r: Vec<String>)
    ensures
        string_views(r@) == string_views(v@).map_values(|c: Seq<char>| escape(c)),
{
    let mut out: Vec<String> = Vec::new();
    let mut i: usize = 0;
    while i < v.len()
        invariant
            i <= v@.len(),
            out@.len() == i,
            forall|j: int| 0 <= j < i ==> (#[trigger] out@[j])@ == escape(v@[j]@),
        decreases v@.len() - i,
    {
        out.push(escape_cell(v[i].as_str()));
        i = i + 1;
    }
    assert(string_views(out@) == string_views(v@).map_values(|c: Seq<char>| escape(c)));
    out
}

/// Renders a table between borders: the header line of the escaped column
/// names, a rule, and a line for each row, each column padded to its widest
/// escaped cell and aligned as `alignments` says (left where it says
/// nothing). Nothing at all when there are no columns.
pub fn render_table(columns: &[String], rows: &[Vec<String>], alignments: &[Alignment]) -> (r:
    String)
    ensures
        r@ == table_text(string_views(columns@), rows_view(rows@), alignments@),
{
    let ghost cols = string_views(columns@);
    let ghost rv = rows_view(rows@);
    if columns.len() == 0 {
        return String::new();
    }
    let headers = escape_all(columns);
    let ghost hv = string_views(headers@);
    let mut body: Vec<Vec<String>> = Vec::new();
    let mut r: usize = 0;
    while r < rows.len()
        invariant
            r <= rows@.len(),
            rv == rows_view(rows@),
            body@.len() == r,
            forall|k: int| 0 <= k < r ==> string_views((#[trigger] body@[k])@) == escape_rows(rv)[k],
        decreases rows@.len() - r,
    {
        body.push(escape_all(rows[r].as_slice()));
        r = r + 1;
    }
    let ghost bv = rows_view(body@);
    assert(bv == escape_rows(rv));
    let mut widths: Vec<usize> = Vec::new();
    let mut i: usize = 0;
    while i < headers.len()
        invariant
            i <= headers@.len(),
            hv == string_views(headers@),
            widths@.len() == i,
            forall|j: int| 0 <= j < i ==> (#[trigger] widths@[j]) == column_width(hv, bv, j, 0),
        decreases headers@.len() - i,
    {
        widths.push(display_width(headers[i].as_str()));
        i = i + 1;
    }
    let n = widths.len();
    let mut k: usize = 0;
    while k < body.len()
        invariant
            k <= body@.len(),
            n == widths@.len(),
            n == hv.len(),
            bv == rows_view(body@),
            forall|j: int| 0 <= j < n ==> (#[trigger] widths@[j]) == column_width(hv, bv, j, k as nat),
        decreases body@.len() - k,
    {
        let row = &body[k];
        let ghost rowv = bv[k as int];
        assert(rowv == string_views(row@));
        let mut index: usize = 0;
        while index < row.len()
            invariant
                k < body@.len(),
                index <= row@.len(),
                n == widths@.len(),
                n == hv.len(),
                bv == rows_view(body@),
                rowv == bv[k as int],
                rowv == string_views(row@),
                forall|j: int|
                    0 <= j < n ==> (#[trigger] widths@[j]) == if j < index {
                        column_width(hv, bv, j, (k + 1) as nat)
                    } else {
                        column_width(hv, bv, j, k as nat)
                    },
            decreases row@.len() - index,
        {
            if index < widths.len() {
                let w = display_width(row[index].as_str());
                if w > widths[index] {
                    widths.set(index, w);
                }
            }
            index = index + 1;
        }
        k = k + 1;
    }
    assert(widths_view(widths@) == column_widths(hv, bv));
    let none: Vec<Alignment> = Vec::new();
    let mut out = rule(widths.as_slice(), '┌', '┬', '┐');
    out.append(data_row(headers.as_slice(), widths.as_slice(), none.as_slice()).as_str());
    out.append(separator(widths.as_slice()).as_str());
    let ghost head = out@;
    assert(body_lines(bv, widths_view(widths@), alignments@, 0) == Seq::<char>::empty());
    let mut k: usize = 0;
    while k < body.len()
        invariant
            k <= body@.len(),
            bv == rows_view(body@),
            out@ == head + body_lines(bv, widths_view(widths@), alignments@, k as nat),
        decreases body@.len() - k,
    {
        out.append(data_row(body[k].as_slice(), widths.as_slice(), alignments).as_str());
        k = k + 1;
    }
    out.append(rule(widths.as_slice(), '└', '┴', '┘').as_str());
    out
}

/// One line of `w` characters, none a newline, and then a newline.
pub open spec fn is_line(l: Seq<char>, w: nat) -> bool {
    &&& l.len() == w + 1
    &&& l[w as int] == '\n'
    &&& forall|j: int| 0 <= j < w ==> l[j] != '\n'
}

/// `t` is made of `n` lines of `w` characters each, every one ended by a
/// newline.
pub open spec fn all_lines(t: Seq<char>, w: nat, n: nat) -> bool
    decreases n,
{
    if n == 0 {
        t.len() == 0
    } else {
        &&& t.len() >= w + 1
        &&& is_line(t.take(w as int + 1), w)
        &&& all_lines(t.skip(w as int + 1), w, (n - 1) as nat)
    }
}

/// How wide the first `k` fields of a line are, with the bars between them.
pub open spec fn line_width(widths: Seq<nat>, k: nat) -> nat
    decreases k,
{
    if k == 0 {
        0
    } else {
        line_width(widths, (k - 1) as nat) + (if k > 1 {
            1nat
        } else {
            0nat
        }) + (widths[k - 1]) + 2
    }
}

/// The widths of the columns of the table for `columns` and `rows`.
pub open spec fn table_widths(columns: Seq<Seq<char>>, rows: Seq<Seq<Seq<char>>>) -> Seq<nat> {
    column_widths(columns.map_values(|c: Seq<char>| escape(c)), escape_rows(rows))
}

/// How wide each line of the table for `columns` and `rows` is, before its
/// newline.
pub open spec fn table_line_width(columns: Seq<Seq<char>>, rows: Seq<Seq<Seq<char>>>) -> nat {
    line_width(table_widths(columns, rows), columns.len()) + 2
}

proof fn lemma_framed(body: Seq<char>, left: char, right: char)
    requires
        has_no_newline(body),
        left != '\n',
        right != '\n',
    ensures
        has_no_newline(seq![left] + body + seq![right]),
        (seq![left] + body + seq![right]).len() == body.len() + 2,
{
    let f = seq![left] + body + seq![right];
    assert forall|j: int| 0 <= j < f.len() implies f[j] != '\n' by {
        if 1 <= j <= body.len() {
            assert(f[j] == body[j - 1]);
        }
    }
}

proof fn lemma_rule_is_line(widths: Seq<nat>, left: char, joint: char, right: char)
    requires
        left != '\n',
        joint != '\n',
        right != '\n',
    ensures
        all_lines(rule_line(widths, left, joint, right), line_width(widths, widths.len()) + 2, 1),
{
    lemma_rule_shape(widths, widths.len(), joint);
    lemma_framed(rule_segments(widths, widths.len(), joint), left, right);
    lemma_line_is_line(
        seq![left] + rule_segments(widths, widths.len(), joint) + seq![right],
        line_width(widths, widths.len()) + 2,
    );
}

proof fn lemma_row_is_line(cells: Seq<Seq<char>>, widths: Seq<nat>, a: Seq<Alignment>)
    requires
        forall|i: int|
            0 <= i < widths.len() ==> (#[trigger] cell_at(cells, i)).len() <= widths[i]
                && has_no_newline(cell_at(cells, i)),
    ensures
        all_lines(row_line(cells, widths, a), line_width(widths, widths.len()) + 2, 1),
{
    lemma_fields_shape(cells, widths, a, widths.len());
    lemma_framed(fields(cells, widths, a, widths.len()), '│', '│');
    lemma_line_is_line(
        seq!['│'] + fields(cells, widths, a, widths.len()) + seq!['│'],
        line_width(widths, widths.len()) + 2,
    );
}

pub open spec fn has_no_newline(s: Seq<char>) -> bool {
    forall|j: int| 0 <= j < s.len() ==> s[j] != '\n'
}

proof fn lemma_escape_no_newline(s: Seq<char>)
    ensures
        has_no_newline(escape(s)),
    decreases s.len(),
{
    if s.len() > 0 {
        lemma_escape_no_newline(s.drop_last());
        let e = escape(s);
        let p = escape(s.drop_last());
        assert forall|j: int| 0 <= j < e.len() implies e[j] != '\n' by {
            if j >= p.len() {
                assert(e[j] == escape_char(s.last())[j - p.len()]);
            }
        }
    }
}

proof fn lemma_fields_shape(cells: Seq<Seq<char>>, widths: Seq<nat>, a: Seq<Alignment>, k: nat)
    requires
        k <= widths.len(),
        forall|i: int|
            0 <= i < k ==> (#[trigger] cell_at(cells, i)).len() <= widths[i] && has_no_newline(
                cell_at(cells, i),
            ),
    ensures
        fields(cells, widths, a, k).len() == line_width(widths, k),
        has_no_newline(fields(cells, widths, a, k)),
    decreases k,
{
    if k > 0 {
        lemma_fields_shape(cells, widths, a, (k - 1) as nat);
        let c = cell_at(cells, k - 1);
        assert(c.len() <= widths[k - 1] && has_no_newline(c));
        let f = field(c, widths[k - 1], alignment_at(a, k - 1));
        let pad = spaces((widths[k - 1] - c.len()) as nat);
        assert(f.len() == widths[k - 1] + 2);
        assert(has_no_newline(f)) by {
            assert forall|j: int| 0 <= j < f.len() implies f[j] != '\n' by {
                if 1 <= j < f.len() - 1 {
                    match alignment_at(a, k - 1) {
                        Alignment::Right => {
                            assert(f[j] == (pad + c)[j - 1]);
                        },
                        Alignment::Left => {
                            assert(f[j] == (c + pad)[j - 1]);
                        },
                    }
                }
            }
        }
        let p = fields(cells, widths, a, (k - 1) as nat);
        let bar: Seq<char> = if k > 1 {
            seq!['│']
        } else {
            Seq::empty()
        };
        let all = fields(cells, widths, a, k);
        assert(all == p + bar + f);
        assert forall|j: int| 0 <= j < all.len() implies all[j] != '\n' by {
            if j < p.len() {
                assert(all[j] == p[j]);
            } else if j < p.len() + bar.len() {
                assert(all[j] == bar[j - p.len()]);
            } else {
                assert(all[j] == f[j - p.len() - bar.len()]);
            }
        }
    }
}

proof fn lemma_rule_shape(widths: Seq<nat>, k: nat, joint: char)
    requires
        k <= widths.len(),
        joint != '\n',
    ensures
        rule_segments(widths, k, joint).len() == line_width(widths, k),
        has_no_newline(rule_segments(widths, k, joint)),
        forall|j: int|
            0 <= j < rule_segments(widths, k, joint).len() ==> (#[trigger] rule_segments(
                widths,
                k,
                joint,
            )[j] == joint || rule_segments(widths, k, joint)[j] == '─'),
    decreases k,
{
    if k > 0 {
        lemma_rule_shape(widths, (k - 1) as nat, joint);
        let p = rule_segments(widths, (k - 1) as nat, joint);
        let bar: Seq<char> = if k > 1 {
            seq![joint]
        } else {
            Seq::empty()
        };
        let d = dashes(widths[k - 1] + 2);
        let all = rule_segments(widths, k, joint);
        assert(all == p + bar + d);
        assert forall|j: int| 0 <= j < all.len() implies all[j] != '\n' && (all[j] == joint
            || all[j] == '─') by {
            if j < p.len() {
                assert(all[j] == p[j]);
            } else if j < p.len() + bar.len() {
                assert(all[j] == bar[j - p.len()]);
            } else {
                assert(all[j] == d[j - p.len() - bar.len()]);
            }
        }
    }
}

proof fn lemma_line_is_line(body: Seq<char>, w: nat)
    requires
        body.len() == w,
        has_no_newline(body),
    ensures
        is_line(body.push('\n'), w),
        all_lines(body.push('\n'), w, 1),
{
    let l = body.push('\n');
    assert(l.take(w as int + 1) == l);
    assert(l.skip(w as int + 1).len() == 0);
    assert(all_lines(l.skip(w as int + 1), w, 0));
    assert forall|j: int| 0 <= j < w implies l[j] != '\n' by {
        assert(l[j] == body[j]);
    }
}

proof fn lemma_all_lines_concat(x: Seq<char>, y: Seq<char>, w: nat, n: nat, m: nat)
    requires
        all_lines(x, w, n),
        all_lines(y, w, m),
    ensures
        all_lines(x + y, w, n + m),
    decreases n,
{
    if n == 0 {
        assert(x + y == y);
    } else {
        lemma_all_lines_concat(x.skip(w as int + 1), y, w, (n - 1) as nat, m);
        assert((x + y).take(w as int + 1) == x.take(w as int + 1));
        assert((x + y).skip(w as int + 1) == x.skip(w as int + 1) + y);
    }
}

proof fn lemma_column_width_bounds(
    headers: Seq<Seq<char>>,
    body: Seq<Seq<Seq<char>>>,
    i: int,
    r: nat,
)
    requires
        0 <= i < headers.len(),
        r <= body.len(),
    ensures
        headers[i].len() <= column_width(headers, body, i, r),
        forall|k: int|
            0 <= k < r && i < body[k].len() ==> (#[trigger] body[k][i]).len() <= column_width(
                headers,
                body,
                i,
                r,
            ),
    decreases r,
{
    if r > 0 {
        lemma_column_width_bounds(headers, body, i, (r - 1) as nat);
    }
}

proof fn lemma_body_lines(
    cols: Seq<Seq<char>>,
    rows: Seq<Seq<Seq<char>>>,
    a: Seq<Alignment>,
    r: nat,
)
    requires
        cols.len() > 0,
        r <= rows.len(),
    ensures
        all_lines(
            body_lines(escape_rows(rows), table_widths(cols, rows), a, r),
            table_line_width(cols, rows),
            r,
        ),
    decreases r,
{
    let headers = cols.map_values(|c: Seq<char>| escape(c));
    let body = escape_rows(rows);
    let widths = table_widths(cols, rows);
    let w = table_line_width(cols, rows);
    if r > 0 {
        lemma_body_lines(cols, rows, a, (r - 1) as nat);
        let row = body[r - 1];
        assert forall|i: int|
            0 <= i < widths.len() implies (#[trigger] cell_at(row, i)).len() <= widths[i]
            && has_no_newline(cell_at(row, i)) by {
            lemma_column_width_bounds(headers, body, i, body.len());
            if i < row.len() {
                assert(row[i] == escape(rows[r - 1][i]));
                lemma_escape_no_newline(rows[r - 1][i]);
            }
        }
        lemma_row_is_line(row, widths, a);
        lemma_all_lines_concat(
            body_lines(body, widths, a, (r - 1) as nat),
            row_line(row, widths, a),
            w,
            (r - 1) as nat,
            1,
        );
    }
}

/// A table with columns is a grid: its top border, the header line, the
/// rule, one line per row and the bottom border, all equally wide, whatever
/// the cells and the alignments, since escaping keeps every cell on one line
/// and each column is as wide as its widest cell.
pub proof fn lemma_table_is_grid(
    columns: Seq<Seq<char>>,
    rows: Seq<Seq<Seq<char>>>,
    a: Seq<Alignment>,
)
    requires
        columns.len() > 0,
    ensures
        all_lines(table_text(columns, rows, a), table_line_width(columns, rows), rows.len() + 4),
{
    let headers = columns.map_values(|c: Seq<char>| escape(c));
    let body = escape_rows(rows);
    let widths = table_widths(columns, rows);
    let w = table_line_width(columns, rows);
    let none = Seq::<Alignment>::empty();
    assert forall|i: int|
        0 <= i < widths.len() implies (#[trigger] cell_at(headers, i)).len() <= widths[i]
        && has_no_newline(cell_at(headers, i)) by {
        lemma_column_width_bounds(headers, body, i, body.len());
        lemma_escape_no_newline(columns[i]);
    }
    let top = rule_line(widths, '┌', '┬', '┐');
    let head = row_line(headers, widths, none);
    let mid = rule_line(widths, '├', '┼', '┤');
    let rest = body_lines(body, widths, a, rows.len());
    let bottom = rule_line(widths, '└', '┴', '┘');
    lemma_rule_is_line(widths, '┌', '┬', '┐');
    lemma_row_is_line(headers, widths, none);
    lemma_rule_is_line(widths, '├', '┼', '┤');
    lemma_body_lines(columns, rows, a, rows.len());
    lemma_rule_is_line(widths, '└', '┴', '┘');
    lemma_all_lines_concat(top, head, w, 1, 1);
    lemma_all_lines_concat(top + head, mid, w, 2, 1);
    lemma_all_lines_concat(top + head + mid, rest, w, 3, rows.len());
    lemma_all_lines_concat(top + head + mid + rest, bottom, w, 3 + rows.len(), 1);
}

/// The parts of a table that do not depend on the alignments: the top
/// border, the header line and the rule under it.
pub open spec fn table_head(columns: Seq<Seq<char>>, rows: Seq<Seq<Seq<char>>>) -> Seq<char> {
    let widths = table_widths(columns, rows);
    rule_line(widths, '┌', '┬', '┐') + row_line(
        columns.map_values(|c: Seq<char>| escape(c)),
        widths,
        Seq::empty(),
    ) + rule_line(widths, '├', '┼', '┤')
}

/// The bottom border of a table.
pub open spec fn table_foot(columns: Seq<Seq<char>>, rows: Seq<Seq<Seq<char>>>) -> Seq<char> {
    rule_line(table_widths(columns, rows), '└', '┴', '┘')
}

/// Only the lines of the rows depend on the alignments: the borders, the
/// header line (always aligned left) and the rule are the same whatever they
/// say.
pub proof fn lemma_only_rows_are_aligned(
    columns: Seq<Seq<char>>,
    rows: Seq<Seq<Seq<char>>>,
    a: Seq<Alignment>,
)
    requires
        columns.len() > 0,
    ensures
        table_text(columns, rows, a) == table_head(columns, rows) + body_lines(
            escape_rows(rows),
            table_widths(columns, rows),
            a,
            rows.len(),
        ) + table_foot(columns, rows),
{
}

proof fn lemma_fields_same_alignment(
    cells: Seq<Seq<char>>,
    widths: Seq<nat>,
    a1: Seq<Alignment>,
    a2: Seq<Alignment>,
    k: nat,
)
    requires
        k <= widths.len(),
        forall|i: int| 0 <= i < widths.len() ==> alignment_at(a1, i) == alignment_at(a2, i),
    ensures
        fields(cells, widths, a1, k) == fields(cells, widths, a2, k),
    decreases k,
{
    if k > 0 {
        lemma_fields_same_alignment(cells, widths, a1, a2, (k - 1) as nat);
        assert(alignment_at(a1, k - 1) == alignment_at(a2, k - 1));
    }
}

proof fn lemma_body_same_alignment(
    body: Seq<Seq<Seq<char>>>,
    widths: Seq<nat>,
    a1: Seq<Alignment>,
    a2: Seq<Alignment>,
    r: nat,
)
    requires
        r <= body.len(),
        forall|i: int| 0 <= i < widths.len() ==> alignment_at(a1, i) == alignment_at(a2, i),
    ensures
        body_lines(body, widths, a1, r) == body_lines(body, widths, a2, r),
    decreases r,
{
    if r > 0 {
        lemma_body_same_alignment(body, widths, a1, a2, (r - 1) as nat);
        lemma_fields_same_alignment(body[r - 1], widths, a1, a2, widths.len());
    }
}

/// Alignments that agree on every column give the same table; in particular
/// no alignments at all are the same as every column aligned left.
pub proof fn lemma_same_alignments_same_table(
    columns: Seq<Seq<char>>,
    rows: Seq<Seq<Seq<char>>>,
    a1: Seq<Alignment>,
    a2: Seq<Alignment>,
)
    requires
        forall|i: int| 0 <= i < columns.len() ==> alignment_at(a1, i) == alignment_at(a2, i),
    ensures
        table_text(columns, rows, a1) == table_text(columns, rows, a2),
{
    if columns.len() > 0 {
        lemma_body_same_alignment(
            escape_rows(rows),
            table_widths(columns, rows),
            a1,
            a2,
            rows.len(),
        );
    }
}

/// No alignments at all are the same as every column aligned left.
pub proof fn lemma_no_alignments_align_left(columns: Seq<Seq<char>>, rows: Seq<Seq<Seq<char>>>)
    ensures
        table_text(columns, rows, Seq::empty()) == table_text(
            columns,
            rows,
            Seq::new(columns.len(), |_i: int| Alignment::Left),
        ),
{
    lemma_same_alignments_same_table(
        columns,
        rows,
        Seq::empty(),
        Seq::new(columns.len(), |_i: int| Alignment::Left),
    );
}

proof fn lemma_fields_len(cells: Seq<Seq<char>>, widths: Seq<nat>, a: Seq<Alignment>, k: nat)
    requires
        k <= widths.len(),
        forall|i: int| 0 <= i < k ==> (#[trigger] cell_at(cells, i)).len() <= widths[i],
    ensures
        fields(cells, widths, a, k).len() == line_width(widths, k),
    decreases k,
{
    if k > 0 {
        lemma_fields_len(cells, widths, a, (k - 1) as nat);
        assert(cell_at(cells, k - 1).len() <= widths[k - 1]);
    }
}

/// A rule is exactly as wide as every row whose cells fit their columns.
pub proof fn lemma_rule_as_wide_as_row(
    cells: Seq<Seq<char>>,
    widths: Seq<nat>,
    a: Seq<Alignment>,
    left: char,
    joint: char,
    right: char,
)
    requires
        forall|i: int| 0 <= i < widths.len() ==> (#[trigger] cell_at(cells, i)).len() <= widths[i],
    ensures
        rule_line(widths, left, joint, right).len() == row_line(cells, widths, a).len(),
        row_line(cells, widths, a).len() == line_width(widths, widths.len()) + 3,
{
    lemma_fields_len(cells, widths, a, widths.len());
    lemma_rule_len(widths, widths.len(), joint);
}

proof fn lemma_rule_len(widths: Seq<nat>, k: nat, joint: char)
    requires
        k <= widths.len(),
    ensures
        rule_segments(widths, k, joint).len() == line_width(widths, k),
    decreases k,
{
    if k > 0 {
        lemma_rule_len(widths, (k - 1) as nat, joint);
    }
}

proof fn lemma_line_width_grows(widths: Seq<nat>, i: int, grown: Seq<nat>, k: nat, n: nat)
    requires
        0 <= i < widths.len(),
        grown == widths.update(i, widths[i] + n),
        k <= widths.len(),
    ensures
        line_width(grown, k) == line_width(widths, k) + if i < k {
            n
        } else {
            0
        },
    decreases k,
{
    if k > 0 {
        lemma_line_width_grows(widths, i, grown, (k - 1) as nat, n);
    }
}

/// A rule is one line: its pieces and `─`, never a space, and a newline at
/// its end only. Each unit added to a column's width adds one `─`.
pub proof fn lemma_rule_shape_and_growth(
    widths: Seq<nat>,
    left: char,
    joint: char,
    right: char,
    i: int,
    n: nat,
)
    requires
        left != '\n' && left != ' ',
        joint != '\n' && joint != ' ',
        right != '\n' && right != ' ',
        0 <= i < widths.len(),
    ensures
        ({
            let r = rule_line(widths, left, joint, right);
            &&& r.len() == line_width(widths, widths.len()) + 3
            &&& r.last() == '\n'
            &&& forall|j: int| 0 <= j < r.len() ==> #[trigger] r[j] != ' '
            &&& forall|j: int| 0 <= j < r.len() - 1 ==> r[j] != '\n'
        }),
        rule_line(widths.update(i, widths[i] + n), left, joint, right).len()
            == rule_line(widths, left, joint, right).len() + n,
{
    let grown = widths.update(i, widths[i] + n);
    lemma_rule_shape(widths, widths.len(), joint);
    lemma_rule_len(grown, grown.len(), joint);
    lemma_line_width_grows(widths, i, grown, widths.len(), n);
    let seg = rule_segments(widths, widths.len(), joint);
    let r = rule_line(widths, left, joint, right);
    assert forall|j: int| 0 <= j < r.len() implies #[trigger] r[j] != ' ' && (j < r.len() - 1
        ==> r[j] != '\n') by {
        if 1 <= j <= seg.len() {
            assert(r[j] == seg[j - 1]);
        }
    }
}

/// A row cut or padded with empty cells to exactly `n` cells.
pub open spec fn fit_row(row: Seq<Seq<char>>, n: nat) -> Seq<Seq<char>> {
    Seq::new(n, |i: int| cell_at(row, i))
}

/// Every row cut or padded with empty cells to exactly `n` cells.
pub open spec fn fit_rows(rows: Seq<Seq<Seq<char>>>, n: nat) -> Seq<Seq<Seq<char>>> {
    rows.map_values(|row: Seq<Seq<char>>| fit_row(row, n))
}

proof fn lemma_escape_empty()
    ensures
        escape(Seq::<char>::empty()) == Seq::<char>::empty(),
{
}

proof fn lemma_fit_column_width(
    headers: Seq<Seq<char>>,
    columns: nat,
    rows: Seq<Seq<Seq<char>>>,
    i: int,
    r: nat,
)
    requires
        headers.len() == columns,
        0 <= i < columns,
        r <= rows.len(),
    ensures
        column_width(headers, escape_rows(fit_rows(rows, columns)), i, r) == column_width(
            headers,
            escape_rows(rows),
            i,
            r,
        ),
    decreases r,
{
    if r > 0 {
        lemma_fit_column_width(headers, columns, rows, i, (r - 1) as nat);
        lemma_escape_empty();
        let row = rows[r - 1];
        assert(fit_rows(rows, columns)[r - 1] == fit_row(row, columns));
        assert(escape_rows(fit_rows(rows, columns))[r - 1][i] == escape(cell_at(row, i)));
        if i < row.len() {
            assert(escape_rows(rows)[r - 1][i] == escape(row[i]));
        }
    }
}

proof fn lemma_fields_same_cells(
    c1: Seq<Seq<char>>,
    c2: Seq<Seq<char>>,
    widths: Seq<nat>,
    a: Seq<Alignment>,
    k: nat,
)
    requires
        k <= widths.len(),
        forall|i: int| 0 <= i < widths.len() ==> cell_at(c1, i) == cell_at(c2, i),
    ensures
        fields(c1, widths, a, k) == fields(c2, widths, a, k),
    decreases k,
{
    if k > 0 {
        lemma_fields_same_cells(c1, c2, widths, a, (k - 1) as nat);
        assert(cell_at(c1, k - 1) == cell_at(c2, k - 1));
    }
}

proof fn lemma_fit_body(
    rows: Seq<Seq<Seq<char>>>,
    widths: Seq<nat>,
    a: Seq<Alignment>,
    r: nat,
)
    requires
        r <= rows.len(),
    ensures
        body_lines(escape_rows(fit_rows(rows, widths.len())), widths, a, r) == body_lines(
            escape_rows(rows),
            widths,
            a,
            r,
        ),
    decreases r,
{
    if r > 0 {
        lemma_fit_body(rows, widths, a, (r - 1) as nat);
        lemma_escape_empty();
        let n = widths.len();
        let row = rows[r - 1];
        let c1 = escape_rows(fit_rows(rows, n))[r - 1];
        let c2 = escape_rows(rows)[r - 1];
        assert(fit_rows(rows, n)[r - 1] == fit_row(row, n));
        assert forall|i: int| 0 <= i < n implies cell_at(c1, i) == cell_at(c2, i) by {
            assert(c1[i] == escape(cell_at(row, i)));
            if i < row.len() {
                assert(c2[i] == escape(row[i]));
            }
        }
        lemma_fields_same_cells(c1, c2, widths, a, n);
    }
}

/// Cells beyond the last column are left out and missing cells are shown
/// empty: cutting or padding every row to the number of columns gives the
/// same table. (How many lines a table has never depends on what its cells
/// hold: `lemma_table_is_grid`.)
pub proof fn lemma_rows_fit_columns(
    columns: Seq<Seq<char>>,
    rows: Seq<Seq<Seq<char>>>,
    a: Seq<Alignment>,
)
    ensures
        table_text(columns, fit_rows(rows, columns.len()), a) == table_text(columns, rows, a),
{
    if columns.len() > 0 {
        let n = columns.len();
        let headers = columns.map_values(|c: Seq<char>| escape(c));
        let fitted = fit_rows(rows, n);
        assert forall|i: int| 0 <= i < n implies column_width(
            headers,
            escape_rows(fitted),
            i,
            fitted.len(),
        ) == column_width(headers, escape_rows(rows), i, rows.len()) by {
            lemma_fit_column_width(headers, n, rows, i, rows.len());
        }
        assert(table_widths(columns, fitted) == table_widths(columns, rows));
        lemma_fit_body(rows, table_widths(columns, rows), a, rows.len());
    }
}

} // verus!
