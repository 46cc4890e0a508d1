use vstd::prelude::*;

use crate::text::{chars_of, decimal, push_char, push_decimal, push_signed_decimal, signed_decimal};

verus! {

/// Blobs longer than this many bytes are summarised by their size.
pub const BLOB_HEX_LIMIT: usize = 24;

/// A value of a result column, as the table shows it. A real number is held
/// by the text that stands for it on screen.
pub enum Value {
    Null,
    Integer(i64),
    Real(String),
    Text(String),
    Blob(Vec<u8>),
}

/// Which side of its column a cell is pushed to.
#[derive(Debug, Clone, Copy, PartialEq, Eq, Structural)]
pub enum Alignment {
    Left,
    Right,
}

/// The characters that stand for `c` in a table cell.
pub open spec fn escape_char(c: char) -> Seq<char> {
    if c == '\\' {
        seq!['\\', '\\']
    } else if c == '\n' {
        seq!['\\', 'n']
    } else if c == '\r' {
        seq!['\\', 'r']
    } else if c == '\t' {
        seq!['\\', 't']
    } else {
        seq![c]
    }
}

/// `s` with backslashes doubled and newlines, carriage returns and tabs
/// written as `\n`, `\r` and `\t`.
pub open spec fn escape(s: Seq<char>) -> Seq<char>
    decreases s.len(),
{
    if s.len() == 0 {
        Seq::empty()
    } else {
        escape(s.drop_last()) + escape_char(s.last())
    }
}

/// The character that an escape sequence `\x` stands for.
pub open spec fn unescape_char(x: char) -> char {
    if x == 'n' {
        '\n'
    } else if x == 'r' {
        '\r'
    } else if x == 't' {
        '\t'
    } else {
        x
    }
}

/// Reads escaped text back, from the front: a backslash and the character
/// after it stand for one character, anything else for itself.
pub open spec fn unescape(t: Seq<char>) -> Seq<char>
    decreases t.len(),
{
    if t.len() == 0 {
        Seq::empty()
    } else if t[0] == '\\' && t.len() >= 2 {
        seq![unescape_char(t[1])] + unescape(t.skip(2))
    } else {
        seq![t[0]] + unescape(t.skip(1))
    }
}

proof fn lemma_escape_concat(a: Seq<char>, b: Seq<char>)
    ensures
        escape(a + b) == escape(a) + escape(b),
    decreases b.len(),
{
    if b.len() == 0 {
        assert(a + b == a);
    } else {
        lemma_escape_concat(a, b.drop_last());
        assert((a + b).drop_last() == a + b.drop_last());
        assert((a + b).last() == b.last());
    }
}

proof fn lemma_unescape_escape(s: Seq<char>)
    ensures
        unescape(escape(s)) == s,
    decreases s.len(),
{
    if s.len() > 0 {
        let c = s[0];
        let rest = s.drop_first();
        assert(s == seq![c] + rest);
        lemma_escape_concat(seq![c], rest);
        assert(escape(seq![c]) == escape_char(c)) by {
            assert(seq![c].drop_last() == Seq::<char>::empty());
            assert(escape(Seq::<char>::empty()) + escape_char(c) == escape_char(c));
        }
        lemma_unescape_escape(rest);
        let t = escape_char(c) + escape(rest);
        if c == '\\' || c == '\n' || c == '\r' || c == '\t' {
            assert(t.skip(2) == escape(rest));
        } else {
            assert(t.skip(1) == escape(rest));
        }
    }
}

/// Escaping loses nothing: texts that escape alike are the same text, so a
/// cell can always be read back.
pub proof fn lemma_escape_injective(a: Seq<char>, b: Seq<char>)
    requires
        escape(a) == escape(b),
    ensures
        a == b,
{
    lemma_unescape_escape(a);
    lemma_unescape_escape(b);
}

/// Escapes `text` for a table cell, so that it stays on one line.
pub fn escape_cell(text: &str) -> (r: String)
    ensures
        r@ == escape(text@),
{
    let v = chars_of(text);
    let mut out = String::new();
    let mut i: usize = 0;
    while i < v.len()
        invariant
            i <= v@.len(),
            v@ == text@,
            out@ == escape(v@.subrange(0, i as int)),
        decreases v@.len() - i,
    {
        let c = v[i];
        if c == '\\' {
            push_char(&mut out, '\\');
            push_char(&mut out, '\\');
        } else if c == '\n' {
            push_char(&mut out, '\\');
            push_char(&mut out, 'n');
        } else if c == '\r' {
            push_char(&mut out, '\\');
            push_char(&mut out, 'r');
        } else if c == '\t' {
            push_char(&mut out, '\\');
            push_char(&mut out, 't');
        } else {
            push_char(&mut out, c);
        }
        proof {
            let pre = v@.subrange(0, i as int);
            let post = v@.subrange(0, i + 1);
            assert(post.drop_last() == pre);
            assert(post.last() == c);
            assert(escape(post) == escape(pre) + escape_char(c));
        }
        i = i + 1;
    }
    assert(v@.subrange(0, v@.len() as int) == v@);
    out
}

/// How many columns `text` takes on screen: its number of characters.
pub fn display_width(text: &str) -> (w: usize)
    ensures
        w == text@.len(),
{
    text.unicode_len()
}

/// The lower-case hexadecimal digit for `d`.
pub open spec fn hex_digit(d: nat) -> char {
    if d < 10 {
        (d + 48) as char
    } else {
        (d + 87) as char
    }
}

/// The two lower-case hexadecimal digits of each byte of `b`, in order.
pub open spec fn hex(b: Seq<u8>) -> Seq<char>
    decreases b.len(),
{
    if b.len() == 0 {
        Seq::empty()
    } else {
        hex(b.drop_last()) + seq![hex_digit(b.last() as nat / 16), hex_digit(b.last() as nat % 16)]
    }
}

/// How a blob is shown: `x'..'` in hexadecimal, or its size when it is longer
/// than `BLOB_HEX_LIMIT` bytes.
pub open spec fn blob_text(b: Seq<u8>) -> Seq<char> {
    if b.len() > BLOB_HEX_LIMIT {
        "<blob "@ + decimal(b.len()) + " bytes>"@
    } else {
        "x'"@ + hex(b) + "'"@
    }
}

fn hex_char(d: u8) -> (c: char)
    requires
        d < 16,
    ensures
        c == hex_digit(d as nat),
{
    if d < 10 {
        (48u8 + d) as char
    } else {
        (87u8 + d) as char
    }
}

/// Shows a blob: its bytes in hexadecimal between `x'` and `'`, or
/// `<blob N bytes>` when there are more than `BLOB_HEX_LIMIT` of them.
pub fn format_blob(bytes: &[u8]) -> (r: String)
    ensures
        r@ == blob_text(bytes@),
{
    let mut out = String::new();
    if bytes.len() > BLOB_HEX_LIMIT {
        out.append("<blob ");
        push_decimal(&mut out, bytes.len() as u128);
        out.append(" bytes>");
        return out;
    }
    out.append("x'");
    let mut i: usize = 0;
    while i < bytes.len()
        invariant
            i <= bytes@.len(),
            out@ == "x'"@ + hex(bytes@.subrange(0, i as int)),
        decreases bytes@.len() - i,
    {
        let b = bytes[i];
        push_char(&mut out, hex_char(b / 16));
        push_char(&mut out, hex_char(b % 16));
        proof {
            let pre = bytes@.subrange(0, i as int);
            let post = bytes@.subrange(0, i + 1);
            assert(post.drop_last() == pre);
            assert(post.last() == b);
        }
        i = i + 1;
    }
    assert(bytes@.subrange(0, bytes@.len() as int) == bytes@);
    out.append("'");
    out
}

/// How a value is shown in a table.
pub open spec fn value_text(v: Value) -> Seq<char> {
    match v {
        Value::Null => "NULL"@,
        Value::Integer(n) => signed_decimal(n as int),
        Value::Real(t) => t@,
        Value::Text(t) => t@,
        Value::Blob(b) => blob_text(b@),
    }
}

/// Shows a value: `NULL`, an integer in decimal, a real or a text as it
/// stands, a blob as `format_blob` shows it.
pub fn format_value(value: &Value) -> (r: String)
    ensures
        r@ == value_text(*value),
{
    match value {
        Value::Null => String::from_str("NULL"),
        Value::Integer(n) => {
            let mut out = String::new();
            push_signed_decimal(&mut out, *n);
            out
        },
        Value::Real(t) => t.clone(),
        Value::Text(t) => t.clone(),
        Value::Blob(b) => format_blob(b.as_slice()),
    }
}

/// Whether the value is a number, integer or real.
pub fn is_numeric_value(value: &Value) -> (b: bool)
    ensures
        b == (value is Integer || value is Real),
{
    match value {
        Value::Integer(_) | Value::Real(_) => true,
        _ => false,
    }
}

/// The line after a statement that returns no columns: how many rows it
/// changed and how long it took, the time as the caller shows it.
pub open spec fn affected_text(affected: nat, elapsed: Seq<char>) -> Seq<char> {
    "-- "@ + decimal(affected) + " row(s) affected in "@ + elapsed + "\n"@
}

/// The line after a query: how many rows it gave and how long it took.
pub open spec fn rows_text(count: nat, elapsed: Seq<char>) -> Seq<char> {
    "-- "@ + decimal(count) + " row(s) in "@ + elapsed + "\n"@
}

/// `-- N row(s) affected in T`, with its newline, where `T` is the elapsed
/// time as shown.
pub fn affected_report(affected: u64, elapsed: &str) -> (r: String)
    ensures
        r@ == affected_text(affected as nat, elapsed@),
{
    let mut out = String::from_str("-- ");
    push_decimal(&mut out, affected as u128);
    out.append(" row(s) affected in ");
    out.append(elapsed);
    out.append("\n");
    out
}

/// `-- N row(s) in T`, with its newline, where `T` is the elapsed time as
/// shown.
pub fn rows_report(count: usize, elapsed: &str) -> (r: String)
    ensures
        r@ == rows_text(count as nat, elapsed@),
{
    let mut out = String::from_str("-- ");
    push_decimal(&mut out, count as u128);
    out.append(" row(s) in ");
    out.append(elapsed);
    out.append("\n");
    out
}

/// A text value is shown exactly as it stands, the empty text included.
pub proof fn lemma_text_shown_as_is(t: String)
    ensures
        value_text(Value::Text(t)) == t@,
{
}

/// The first character of a decimal numeral is a digit.
proof fn lemma_decimal_starts_with_digit(n: nat)
    ensures
        decimal(n).len() > 0,
        '0' <= decimal(n)[0] <= '9',
    decreases n,
{
    if n >= 10 {
        lemma_decimal_starts_with_digit(n / 10);
    }
}

/// Only a null, or a text or real whose own text is `NULL`, is shown as
/// `NULL`: an empty text, an integer or a blob never is.
pub proof fn lemma_only_null_shows_null(v: Value)
    ensures
        value_text(v) == "NULL"@ ==> match v {
            Value::Null => true,
            Value::Text(t) => t@ == "NULL"@,
            Value::Real(t) => t@ == "NULL"@,
            _ => false,
        },
{
    reveal_strlit("NULL");
    reveal_strlit("<blob ");
    reveal_strlit("x'");
    match v {
        Value::Integer(n) => {
            if n < 0 {
                assert(value_text(v)[0] == '-');
            } else {
                lemma_decimal_starts_with_digit(n as nat);
                assert(value_text(v)[0] == decimal(n as nat)[0]);
            }
        },
        Value::Blob(b) => {
            if b@.len() > BLOB_HEX_LIMIT {
                assert(value_text(v)[0] == '<');
            } else {
                assert(value_text(v)[0] == 'x');
            }
        },
        _ => {},
    }
}

} // verus!
