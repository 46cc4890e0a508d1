use vstd::prelude::*;

use crate::output::Value;
use crate::text::string_views;

verus! {

/// The texts among `values`, in order; values of other kinds are passed over.
pub open spec fn texts_of(values: Seq<Value>) -> Seq<Seq<char>>
    decreases values.len(),
{
    if values.len() == 0 {
        Seq::empty()
    } else {
        let rest = texts_of(values.drop_last());
        match values.last() {
            Value::Text(t) => rest.push(t@),
            _ => rest,
        }
    }
}

/// Keeps the text values of a catalog column (the names or definitions it
/// lists) and passes over the others.
pub fn text_entries(values: Vec<Value>) -> (entries: Vec<String>)
    ensures
        string_views(entries@) == texts_of(values@),
{
    let mut entries: Vec<String> = Vec::new();
    let mut i: usize = 0;
    while i < values.len()
        invariant
            i <= values@.len(),
            string_views(entries@) == texts_of(values@.subrange(0, i as int)),
        decreases values@.len() - i,
    {
        let ghost before = entries@;
        match &values[i] {
            Value::Text(t) => {
                entries.push(t.clone());
            },
            _ => {},
        }
        proof {
            let post = values@.subrange(0, i + 1);
            assert(post.drop_last() == values@.subrange(0, i as int));
            assert(string_views(entries@) == texts_of(post));
        }
        i = i + 1;
    }
    assert(values@.subrange(0, values@.len() as int) == values@);
    entries
}

/// Each entry followed by `suffix` and a newline, or `empty_note` and a
/// newline when there is none.
pub open spec fn listing_text(entries: Seq<Seq<char>>, suffix: Seq<char>, empty_note: Seq<char>) -> Seq<
    char,
> {
    if entries.len() == 0 {
        empty_note + "\n"@
    } else {
        lines_with(entries, suffix, entries.len())
    }
}

/// The first `k` entries, each followed by `suffix` and a newline.
pub open spec fn lines_with(entries: Seq<Seq<char>>, suffix: Seq<char>, k: nat) -> Seq<char>
    decreases k,
{
    if k == 0 {
        Seq::empty()
    } else {
        lines_with(entries, suffix, (k - 1) as nat) + entries[k - 1] + suffix + "\n"@
    }
}

fn listing(entries: &[String], suffix: &str, empty_note: &str) -> (r: String)
    ensures
        r@ == listing_text(string_views(entries@), suffix@, empty_note@),
{
    let mut out = String::new();
    if entries.len() == 0 {
        out.append(empty_note);
        out.append("\n");
        return out;
    }
    let ghost ev = string_views(entries@);
    let mut i: usize = 0;
    while i < entries.len()
        invariant
            i <= entries@.len(),
            ev == string_views(entries@),
            out@ == lines_with(ev, suffix@, i as nat),
        decreases entries@.len() - i,
    {
        out.append(entries[i].as_str());
        out.append(suffix);
        out.append("\n");
        i = i + 1;
    }
    out
}

/// What `.tables` prints: a table name on each line, or `-- no tables`.
pub fn table_listing(names: &[String]) -> (r: String)
    ensures
        r@ == listing_text(string_views(names@), ""@, "-- no tables"@),
{
    listing(names, "", "-- no tables")
}

/// What `.schema` prints: each definition followed by `;` on its line, or
/// `-- no matching schema`.
pub fn schema_listing(definitions: &[String]) -> (r: String)
    ensures
        r@ == listing_text(string_views(definitions@), ";"@, "-- no matching schema"@),
{
    listing(definitions, ";", "-- no matching schema")
}

/// Where line `j` of a listing starts: after the first `j` entries, each with
/// its suffix and a newline.
pub open spec fn line_start(entries: Seq<Seq<char>>, suffix: Seq<char>, j: nat) -> nat
    decreases j,
{
    if j == 0 || j > entries.len() {
        0
    } else {
        line_start(entries, suffix, (j - 1) as nat) + entries[j - 1].len() + suffix.len() + 1
    }
}

proof fn lemma_lines_with_lines(entries: Seq<Seq<char>>, suffix: Seq<char>, k: nat)
    requires
        k <= entries.len(),
    ensures
        lines_with(entries, suffix, k).len() == line_start(entries, suffix, k),
        forall|j: nat|
            j < k ==> lines_with(entries, suffix, k).subrange(
                line_start(entries, suffix, j) as int,
                line_start(entries, suffix, j + 1) as int,
            ) == entries[j as int] + suffix + "\n"@,
    decreases k,
{
    reveal_strlit("\n");
    if k > 0 {
        let m = (k - 1) as nat;
        lemma_lines_with_lines(entries, suffix, m);
        let before = lines_with(entries, suffix, m);
        let line = entries[m as int] + suffix + "\n"@;
        assert(lines_with(entries, suffix, k) =~= before + line);
        assert forall|j: nat| j < k implies lines_with(entries, suffix, k).subrange(
            line_start(entries, suffix, j) as int,
            line_start(entries, suffix, j + 1) as int,
        ) == entries[j as int] + suffix + "\n"@ by {
            if j < m {
                lemma_line_start_grows(entries, suffix, j + 1, m);
                assert((before + line).subrange(
                    line_start(entries, suffix, j) as int,
                    line_start(entries, suffix, j + 1) as int,
                ) =~= before.subrange(
                    line_start(entries, suffix, j) as int,
                    line_start(entries, suffix, j + 1) as int,
                ));
            } else {
                assert((before + line).subrange(before.len() as int, (before + line).len() as int)
                    =~= line);
            }
        }
    }
}

proof fn lemma_line_start_grows(entries: Seq<Seq<char>>, suffix: Seq<char>, j: nat, k: nat)
    requires
        j <= k <= entries.len(),
    ensures
        line_start(entries, suffix, j) <= line_start(entries, suffix, k),
    decreases k,
{
    if j < k {
        lemma_line_start_grows(entries, suffix, j, (k - 1) as nat);
    }
}

/// A listing has one line per entry, in order, each the entry itself
/// followed by the suffix (so every schema definition ends with `;`), and
/// nothing else; with no entries it is the note alone on its line.
pub proof fn lemma_listing_lines(entries: Seq<Seq<char>>, suffix: Seq<char>, empty_note: Seq<char>)
    ensures
        entries.len() == 0 ==> listing_text(entries, suffix, empty_note) == empty_note + "\n"@,
        entries.len() > 0 ==> listing_text(entries, suffix, empty_note).len() == line_start(
            entries,
            suffix,
            entries.len(),
        ),
        forall|j: nat|
            j < entries.len() ==> listing_text(entries, suffix, empty_note).subrange(
                line_start(entries, suffix, j) as int,
                line_start(entries, suffix, j + 1) as int,
            ) == entries[j as int] + suffix + "\n"@,
{
    lemma_lines_with_lines(entries, suffix, entries.len());
}

} // verus!
