use vstd::prelude::*;

use crate::text::{
    chars_of, is_trimmed, is_white_space, lemma_trim_bounds, lemma_trim_is_trimmed,
    lemma_trim_of_trimmed, string_of_range, string_views, trim, trim_bounds,
};

verus! {

/// What an input splits into: the complete statements, in order; the text
/// after the last `;`, kept to be read again with the next line; and whether
/// that text leaves a statement, quote or comment unfinished.
pub struct Split {
    pub statements: Vec<String>,
    pub remainder: String,
    pub open: bool,
}

/// Where the scanner stands in the input.
#[derive(Debug, Clone, Copy, PartialEq, Eq, Structural)]
pub enum Scan {
    Normal,
    SingleQuote,
    DoubleQuote,
    Backtick,
    Bracket,
    LineComment,
    BlockComment,
}

/// One move of the scanner at position `i` of `s` in state `scan`: how many
/// characters it consumes, the state it moves to, the character it keeps (if
/// any), and whether the move ends a statement (a `;` outside quotes and
/// comments).
pub struct Step {
    pub width: nat,
    pub next: Scan,
    pub keep: Option<char>,
    pub ends_statement: bool,
}

/// The character after position `i` of `s` is `d`.
pub open spec fn followed_by(s: Seq<char>, i: int, d: char) -> bool {
    i + 1 < s.len() && s[i + 1] == d
}

/// A move over one character.
pub open spec fn plain(next: Scan, keep: Option<char>) -> Step {
    Step { width: 1, next, keep, ends_statement: false }
}

/// Inside a quoted region: every character is kept, and `close` ends it.
pub open spec fn quoted(c: char, close: char, scan: Scan) -> Step {
    plain(if c == close { Scan::Normal } else { scan }, Some(c))
}

/// The scanner's move at position `i` of `s` in state `scan`: quotes,
/// backticks and brackets keep everything up to their closing character; `--`
/// starts a comment up to the newline, which is kept; `/*` starts one up to
/// `*/`, which stands as a space; a `;` outside all of them ends a statement.
pub open spec fn step(s: Seq<char>, i: int, scan: Scan) -> Step {
    let c = s[i];
    match scan {
        Scan::Normal => {
            if c == '\'' {
                plain(Scan::SingleQuote, Some(c))
            } else if c == '"' {
                plain(Scan::DoubleQuote, Some(c))
            } else if c == '`' {
                plain(Scan::Backtick, Some(c))
            } else if c == '[' {
                plain(Scan::Bracket, Some(c))
            } else if c == '-' && followed_by(s, i, '-') {
                Step { width: 2, next: Scan::LineComment, keep: None, ends_statement: false }
            } else if c == '/' && followed_by(s, i, '*') {
                Step { width: 2, next: Scan::BlockComment, keep: None, ends_statement: false }
            } else if c == ';' {
                Step { width: 1, next: Scan::Normal, keep: None, ends_statement: true }
            } else {
                plain(Scan::Normal, Some(c))
            }
        },
        Scan::SingleQuote => quoted(c, '\'', scan),
        Scan::DoubleQuote => quoted(c, '"', scan),
        Scan::Backtick => quoted(c, '`', scan),
        Scan::Bracket => quoted(c, ']', scan),
        Scan::LineComment => {
            if c == '\n' {
                plain(Scan::Normal, Some(c))
            } else {
                plain(Scan::LineComment, None)
            }
        },
        Scan::BlockComment => {
            if c == '*' && followed_by(s, i, '/') {
                Step { width: 2, next: Scan::Normal, keep: Some(' '), ends_statement: false }
            } else {
                plain(Scan::BlockComment, None)
            }
        },
    }
}

/// The statements to which finishing `current` at a `;` leads.
pub open spec fn close_statement(done: Seq<Seq<char>>, current: Seq<char>) -> Seq<Seq<char>> {
    if trim(current).len() > 0 {
        done.push(trim(current))
    } else {
        done
    }
}

/// The result of scanning `s` from position `i` in state `scan`, having kept
/// `current` since the last statement and found the statements `done`: the
/// statements, the text kept since the last of them, and the state in which
/// the scanner reaches the end.
pub open spec fn scan_from(
    s: Seq<char>,
    i: int,
    scan: Scan,
    current: Seq<char>,
    done: Seq<Seq<char>>,
) -> (Seq<Seq<char>>, Seq<char>, Scan)
    decreases s.len() - i,
{
    if i < 0 || i >= s.len() {
        (done, current, scan)
    } else {
        let st = step(s, i, scan);
        if st.ends_statement {
            scan_from(s, i + st.width, st.next, Seq::empty(), close_statement(done, current))
        } else {
            let kept = match st.keep {
                Some(k) => current.push(k),
                None => current,
            };
            scan_from(s, i + st.width, st.next, kept, done)
        }
    }
}

/// The position just after the last `;` that ended a statement, scanning
/// `s` from position `i` in state `scan`; `end` if there is none from there.
pub open spec fn last_end(s: Seq<char>, i: int, scan: Scan, end: int) -> int
    decreases s.len() - i,
{
    if i < 0 || i >= s.len() {
        end
    } else {
        let st = step(s, i, scan);
        if st.ends_statement {
            last_end(s, i + st.width, st.next, i + st.width)
        } else {
            last_end(s, i + st.width, st.next, end)
        }
    }
}

/// The statements, the text kept since the last of them and the final state,
/// scanning all of `s`.
pub open spec fn scan_all(s: Seq<char>) -> (Seq<Seq<char>>, Seq<char>, Scan) {
    scan_from(s, 0, Scan::Normal, Seq::empty(), Seq::empty())
}

/// The statements that `s` splits into.
pub open spec fn statements_of(s: Seq<char>) -> Seq<Seq<char>> {
    scan_all(s).0
}

/// What the scanner keeps of `s` after its last statement: the text with its
/// comments taken out.
pub open spec fn kept_of(s: Seq<char>) -> Seq<char> {
    scan_all(s).1
}

/// The text of `s` after the last `;` that ended a statement, as it stands,
/// comments and all: what has to be read again with the next line.
pub open spec fn remainder_of(s: Seq<char>) -> Seq<char> {
    s.skip(last_end(s, 0, Scan::Normal, 0))
}

/// Where the scanner stands at the end of `s`.
pub open spec fn final_scan(s: Seq<char>) -> Scan {
    scan_all(s).2
}

/// Whether `s` leaves something unfinished: text that no `;` has ended yet,
/// or an open quote or comment.
pub open spec fn is_open(s: Seq<char>) -> bool {
    trim(kept_of(s)).len() > 0 || final_scan(s) != Scan::Normal
}

impl Split {
    pub open spec fn statements_view(&self) -> Seq<Seq<char>> {
        string_views(self.statements@)
    }
}

/// Splits `input` into the statements that a `;` outside quotes, brackets and
/// comments ends, each with its comments taken out (a line comment up to, not
/// including, its newline; a block comment in favour of one space), its white
/// space at both ends taken away, and only if something is left. The
/// remainder is the text after the last such `;` as it stands, so that a
/// quote or comment left open is still open when it is read again with more
/// text; `open` tells whether the input leaves anything unfinished.
pub fn split_statements(input: &str) -> (r: Split)
    ensures
        r.statements_view() == statements_of(input@),
        r.remainder@ == remainder_of(input@),
        r.open == is_open(input@),
{
    let s = chars_of(input);
    let n = s.len();
    let mut statements: Vec<String> = Vec::new();
    let mut current: Vec<char> = Vec::new();
    let mut scan = Scan::Normal;
    let mut start: usize = 0;
    let mut i: usize = 0;
    assert(string_views(statements@) == Seq::<Seq<char>>::empty());
    assert(current@ == Seq::<char>::empty());
    while i < n
        invariant
            n == s@.len(),
            s@ == input@,
            start <= i <= n,
            scan_from(s@, i as int, scan, current@, string_views(statements@)) == scan_all(s@),
            last_end(s@, i as int, scan, start as int) == last_end(s@, 0, Scan::Normal, 0),
        decreases n - i,
    {
        let c = s[i];
        let next_is_dash = i + 1 < n && s[i + 1] == '-';
        let next_is_star = i + 1 < n && s[i + 1] == '*';
        let next_is_slash = i + 1 < n && s[i + 1] == '/';
        let ghost st = step(s@, i as int, scan);
        let ghost before = (current@, string_views(statements@));
        let mut width: usize = 1;
        let mut ended = false;
        match scan {
            Scan::Normal => {
                if c == '\'' {
                    scan = Scan::SingleQuote;
                    current.push(c);
                } else if c == '"' {
                    scan = Scan::DoubleQuote;
                    current.push(c);
                } else if c == '`' {
                    scan = Scan::Backtick;
                    current.push(c);
                } else if c == '[' {
                    scan = Scan::Bracket;
                    current.push(c);
                } else if c == '-' && next_is_dash {
                    width = 2;
                    scan = Scan::LineComment;
                } else if c == '/' && next_is_star {
                    width = 2;
                    scan = Scan::BlockComment;
                } else if c == ';' {
                    let (a, b) = trim_bounds(&current, 0, current.len());
                    proof {
                        assert(current@.subrange(0, current@.len() as int) == current@);
                    }
                    if a < b {
                        let statement = string_of_range(&current, a, b);
                        statements.push(statement);
                    }
                    current = Vec::new();
                    ended = true;
                } else {
                    current.push(c);
                }
            },
            Scan::SingleQuote => {
                current.push(c);
                if c == '\'' {
                    scan = Scan::Normal;
                }
            },
            Scan::DoubleQuote => {
                current.push(c);
                if c == '"' {
                    scan = Scan::Normal;
                }
            },
            Scan::Backtick => {
                current.push(c);
                if c == '`' {
                    scan = Scan::Normal;
                }
            },
            Scan::Bracket => {
                current.push(c);
                if c == ']' {
                    scan = Scan::Normal;
                }
            },
            Scan::LineComment => {
                if c == '\n' {
                    scan = Scan::Normal;
                    current.push(c);
                }
            },
            Scan::BlockComment => {
                if c == '*' && next_is_slash {
                    width = 2;
                    scan = Scan::Normal;
                    current.push(' ');
                }
            },
        }
        proof {
            assert(string_views(statements@) == if st.ends_statement {
                close_statement(before.1, before.0)
            } else {
                before.1
            });
            assert(width == st.width);
            assert(scan == st.next);
            assert(ended == st.ends_statement);
        }
        i = i + width;
        if ended {
            start = i;
        }
    }
    let (a, b) = trim_bounds(&current, 0, current.len());
    proof {
        assert(current@.subrange(0, current@.len() as int) == current@);
        assert(s@.subrange(start as int, n as int) == s@.skip(start as int));
    }
    let remainder = string_of_range(&s, start, n);
    let open = a < b || scan != Scan::Normal;
    Split { statements, remainder, open }
}

/// Statements found before a position stay in front of those found after it.
proof fn lemma_scan_done(s: Seq<char>, i: int, q: Scan, k: Seq<char>, d: Seq<Seq<char>>)
    ensures
        scan_from(s, i, q, k, d) == (
            d + scan_from(s, i, q, k, Seq::empty()).0,
            scan_from(s, i, q, k, Seq::empty()).1,
            scan_from(s, i, q, k, Seq::empty()).2,
        ),
    decreases s.len() - i,
{
    if 0 <= i < s.len() {
        let st = step(s, i, q);
        if st.ends_statement {
            let e = Seq::<Seq<char>>::empty();
            lemma_scan_done(s, i + st.width, st.next, Seq::empty(), close_statement(d, k));
            lemma_scan_done(s, i + st.width, st.next, Seq::empty(), close_statement(e, k));
            let rest = scan_from(s, i + st.width, st.next, Seq::empty(), Seq::empty()).0;
            if trim(k).len() > 0 {
                assert(d.push(trim(k)) + rest == d + (e.push(trim(k)) + rest));
            } else {
                assert(d + rest == d + (e + rest));
            }
        } else {
            let kept = match st.keep {
                Some(kc) => k.push(kc),
                None => k,
            };
            lemma_scan_done(s, i + st.width, st.next, kept, d);
            lemma_scan_done(s, i + st.width, st.next, kept, Seq::empty());
        }
    } else {
        assert(d + Seq::<Seq<char>>::empty() == d);
    }
}


proof fn lemma_last_end_bounds(s: Seq<char>, i: int, q: Scan, e: int)
    requires
        0 <= i,
    ensures
        last_end(s, i, q, e) == e || i < last_end(s, i, q, e) <= s.len(),
    decreases s.len() - i,
{
    if i < s.len() {
        let st = step(s, i, q);
        if st.ends_statement {
            lemma_last_end_bounds(s, i + st.width, st.next, i + st.width);
        } else {
            lemma_last_end_bounds(s, i + st.width, st.next, e);
        }
    }
}

/// Where no `;` ends a statement from position `i` on, no statement is added.
proof fn lemma_no_end(s: Seq<char>, i: int, q: Scan, k: Seq<char>, d: Seq<Seq<char>>, e: int)
    requires
        0 <= i,
        e <= i,
        last_end(s, i, q, e) == e,
    ensures
        scan_from(s, i, q, k, d).0 == d,
    decreases s.len() - i,
{
    if i < s.len() {
        let st = step(s, i, q);
        if st.ends_statement {
            lemma_last_end_bounds(s, i + st.width, st.next, i + st.width);
        } else {
            let kept = match st.keep {
                Some(kc) => k.push(kc),
                None => k,
            };
            lemma_no_end(s, i + st.width, st.next, kept, d, e);
        }
    }
}

/// Continuing a scan needs only what is left of the input.
proof fn lemma_scan_shift(
    x: Seq<char>,
    i: int,
    y: Seq<char>,
    j: int,
    q: Scan,
    k: Seq<char>,
    d: Seq<Seq<char>>,
    e: int,
)
    requires
        0 <= i <= x.len(),
        0 <= j <= y.len(),
        x.skip(i) == y.skip(j),
    ensures
        scan_from(x, i, q, k, d) == scan_from(y, j, q, k, d),
        last_end(x, i, q, e) == last_end(y, j, q, e + j - i) + (i - j),
    decreases x.len() - i,
{
    if i < x.len() {
        assert(x.skip(i).len() == x.len() - i);
        assert(y.skip(j).len() == y.len() - j);
        assert(j < y.len());
        assert(x[i] == x.skip(i)[0]);
        assert(y[j] == y.skip(j)[0]);
        if i + 1 < x.len() {
            assert(x[i + 1] == x.skip(i)[1]);
            assert(y[j + 1] == y.skip(j)[1]);
        }
        assert(step(x, i, q) == step(y, j, q));
        let st = step(x, i, q);
        if st.width == 2 {
            assert(x.skip(i + 2) == x.skip(i).skip(2));
            assert(y.skip(j + 2) == y.skip(j).skip(2));
        } else {
            assert(x.skip(i + 1) == x.skip(i).skip(1));
            assert(y.skip(j + 1) == y.skip(j).skip(1));
        }
        if st.ends_statement {
            lemma_scan_shift(
                x,
                i + st.width,
                y,
                j + st.width,
                st.next,
                Seq::empty(),
                close_statement(d, k),
                i + st.width,
            );
        } else {
            let kept = match st.keep {
                Some(kc) => k.push(kc),
                None => k,
            };
            lemma_scan_shift(x, i + st.width, y, j + st.width, st.next, kept, d, e);
        }
    } else {
        assert(y.skip(j).len() == 0);
    }
}

/// Scanning `a + b` goes as scanning `a` alone up to the last statement that
/// `a` ends: every move before it looks no further than `a`.
proof fn lemma_scan_prefix(
    a: Seq<char>,
    b: Seq<char>,
    i: int,
    q: Scan,
    k: Seq<char>,
    d: Seq<Seq<char>>,
    e: int,
)
    requires
        0 <= i <= a.len(),
        e <= i,
    ensures
        ({
            let p = last_end(a, i, q, e);
            p == e || (scan_from(a + b, i, q, k, d) == scan_from(
                a + b,
                p,
                Scan::Normal,
                Seq::empty(),
                scan_from(a, i, q, k, d).0,
            ) && last_end(a + b, i, q, e) == last_end(a + b, p, Scan::Normal, p))
        }),
    decreases a.len() - i,
{
    if i < a.len() {
        let s = a + b;
        let st = step(a, i, q);
        assert(s[i] == a[i]);
        if i + 1 < a.len() {
            assert(s[i + 1] == a[i + 1]);
            assert(step(s, i, q) == st);
        }
        if st.ends_statement {
            assert(step(s, i, q) == st);
            let d2 = close_statement(d, k);
            lemma_scan_prefix(a, b, i + 1, Scan::Normal, Seq::empty(), d2, i + 1);
            lemma_last_end_bounds(a, i + 1, Scan::Normal, i + 1);
            if last_end(a, i + 1, Scan::Normal, i + 1) == i + 1 {
                lemma_no_end(a, i + 1, Scan::Normal, Seq::empty(), d2, i + 1);
            }
        } else {
            let kept = match st.keep {
                Some(kc) => k.push(kc),
                None => k,
            };
            lemma_scan_prefix(a, b, i + st.width, st.next, kept, d, e);
            if i + 1 >= a.len() {
                assert(last_end(a, i + st.width, st.next, e) == e);
            }
        }
    }
}

/// Input given in two parts splits as a whole into the statements of the
/// first part followed by those of its remainder joined to the second part,
/// and leaves the same remainder. This is how a session reads a statement
/// over several lines: it keeps the remainder and splits it again with the
/// next line.
pub proof fn lemma_split_in_parts(a: Seq<char>, b: Seq<char>)
    ensures
        statements_of(a + b) == statements_of(a) + statements_of(remainder_of(a) + b),
        remainder_of(a + b) == remainder_of(remainder_of(a) + b),
{
    let e = Seq::<char>::empty();
    let ed = Seq::<Seq<char>>::empty();
    let p = last_end(a, 0, Scan::Normal, 0);
    lemma_last_end_bounds(a, 0, Scan::Normal, 0);
    if p == 0 {
        assert(a.skip(0) == a);
        lemma_no_end(a, 0, Scan::Normal, e, ed, 0);
        assert(ed + statements_of(a + b) == statements_of(a + b));
    } else {
        lemma_scan_prefix(a, b, 0, Scan::Normal, e, ed, 0);
        let sa = statements_of(a);
        let y = a.skip(p) + b;
        lemma_scan_done(a + b, p, Scan::Normal, e, sa);
        assert((a + b).skip(p) == y);
        assert(y.skip(0) == y);
        lemma_scan_shift(a + b, p, y, 0, Scan::Normal, e, ed, p);
        let l = last_end(y, 0, Scan::Normal, 0);
        lemma_last_end_bounds(y, 0, Scan::Normal, 0);
        assert((a + b).skip(l + p) == y.skip(l));
    }
}

/// Splitting again what was left over gives no statement and leaves it as it
/// was.
pub proof fn lemma_remainder_is_stable(s: Seq<char>)
    ensures
        statements_of(remainder_of(s)) == Seq::<Seq<char>>::empty(),
        remainder_of(remainder_of(s)) == remainder_of(s),
{
    let e = Seq::<char>::empty();
    lemma_split_in_parts(s, e);
    assert(s + e == s);
    assert(remainder_of(s) + e == remainder_of(s));
    assert(statements_of(s).len() + statements_of(remainder_of(s)).len() == statements_of(s).len());
}

proof fn lemma_scan_trimmed(s: Seq<char>, i: int, q: Scan, k: Seq<char>, d: Seq<Seq<char>>)
    requires
        forall|j: int| 0 <= j < d.len() ==> is_trimmed(#[trigger] d[j]),
    ensures
        forall|j: int|
            0 <= j < scan_from(s, i, q, k, d).0.len() ==> is_trimmed(
                #[trigger] scan_from(s, i, q, k, d).0[j],
            ),
    decreases s.len() - i,
{
    if 0 <= i < s.len() {
        let st = step(s, i, q);
        if st.ends_statement {
            lemma_trim_is_trimmed(k);
            let d2 = close_statement(d, k);
            assert forall|j: int| 0 <= j < d2.len() implies is_trimmed(#[trigger] d2[j]) by {
                if j < d.len() {
                    assert(d2[j] == d[j]);
                }
            }
            lemma_scan_trimmed(s, i + st.width, st.next, Seq::empty(), d2);
            assert(scan_from(s, i, q, k, d) == scan_from(s, i + st.width, st.next, Seq::empty(), d2));
        } else {
            let kept = match st.keep {
                Some(kc) => k.push(kc),
                None => k,
            };
            lemma_scan_trimmed(s, i + st.width, st.next, kept, d);
            assert(scan_from(s, i, q, k, d) == scan_from(s, i + st.width, st.next, kept, d));
        }
    } else {
        assert(scan_from(s, i, q, k, d) == (d, k, q));
    }
}

/// The quote that a kept character opens or closes: the state of the
/// scanner after `c` when it was in `q` and `c` was kept.
pub open spec fn quote_step(q: Scan, c: char) -> Scan {
    match q {
        Scan::Normal => {
            if c == '\'' {
                Scan::SingleQuote
            } else if c == '"' {
                Scan::DoubleQuote
            } else if c == '`' {
                Scan::Backtick
            } else if c == '[' {
                Scan::Bracket
            } else {
                Scan::Normal
            }
        },
        Scan::SingleQuote => if c == '\'' {
            Scan::Normal
        } else {
            q
        },
        Scan::DoubleQuote => if c == '"' {
            Scan::Normal
        } else {
            q
        },
        Scan::Backtick => if c == '`' {
            Scan::Normal
        } else {
            q
        },
        Scan::Bracket => if c == ']' {
            Scan::Normal
        } else {
            q
        },
        _ => q,
    }
}

/// The quote that `k` leaves open when read from the start, one character at
/// a time.
pub open spec fn quote_state(k: Seq<char>) -> Scan
    decreases k.len(),
{
    if k.len() == 0 {
        Scan::Normal
    } else {
        quote_step(quote_state(k.drop_last()), k.last())
    }
}

/// The state that kept text shows: comments keep no text, so inside one the
/// kept text reads as if outside any quote.
pub open spec fn visible(q: Scan) -> Scan {
    match q {
        Scan::LineComment | Scan::BlockComment => Scan::Normal,
        _ => q,
    }
}

/// At position `j` of `k`, outside any quote, there is neither a `;` nor
/// the start of a comment.
pub open spec fn plain_at(k: Seq<char>, j: int) -> bool {
    &&& k[j] != ';'
    &&& !(k[j] == '-' && followed_by(k, j, '-'))
    &&& !(k[j] == '/' && followed_by(k, j, '*'))
}

/// Outside quotes, `k` holds no `;` and no comment.
pub open spec fn clean(k: Seq<char>) -> bool {
    forall|j: int|
        0 <= j < k.len() && #[trigger] quote_state(k.take(j)) == Scan::Normal ==> plain_at(k, j)
}

/// What holds of the kept text `k` at position `i` of `s` in state `q`.
pub open spec fn kept_invariant(s: Seq<char>, i: int, q: Scan, k: Seq<char>) -> bool {
    &&& clean(k)
    &&& quote_state(k) == visible(q)
    &&& (q == Scan::Normal && k.len() > 0) ==> {
        &&& (k.last() == '-' ==> !(0 <= i < s.len() && s[i] == '-'))
        &&& (k.last() == '/' ==> !(0 <= i < s.len() && s[i] == '*'))
    }
}

proof fn lemma_push_clean(k: Seq<char>, c: char)
    requires
        clean(k),
        quote_state(k) == Scan::Normal ==> c != ';',
        k.len() > 0 && quote_state(k.drop_last()) == Scan::Normal ==> !(k.last() == '-' && c
            == '-') && !(k.last() == '/' && c == '*'),
    ensures
        clean(k.push(c)),
        quote_state(k.push(c)) == quote_step(quote_state(k), c),
{
    let k2 = k.push(c);
    assert(k2.drop_last() == k);
    assert forall|j: int|
        0 <= j < k2.len() && #[trigger] quote_state(k2.take(j)) == Scan::Normal implies plain_at(
        k2,
        j,
    ) by {
        if j < k.len() {
            assert(k2.take(j) == k.take(j));
            assert(quote_state(k.take(j)) == Scan::Normal);
            assert(plain_at(k, j));
            if j + 1 == k.len() {
                assert(k.take(j) == k.drop_last());
            }
        } else {
            assert(k2.take(j) == k);
        }
    }
}

proof fn lemma_quote_state_outside_comments(k: Seq<char>)
    ensures
        !(quote_state(k) is LineComment),
        !(quote_state(k) is BlockComment),
    decreases k.len(),
{
    if k.len() > 0 {
        lemma_quote_state_outside_comments(k.drop_last());
    }
}

/// Rescanning clean kept text in front of more input keeps it all and ends
/// no statement, provided its last character starts no comment with what
/// follows.
proof fn lemma_rescan_prefix(k: Seq<char>, b: Seq<char>, j: int, e: int)
    requires
        clean(k),
        0 <= j <= k.len(),
        k.len() > 0 && quote_state(k.drop_last()) == Scan::Normal ==> !(k.last() == '-' && b.len()
            > 0 && b[0] == '-') && !(k.last() == '/' && b.len() > 0 && b[0] == '*'),
    ensures
        scan_from(k + b, j, quote_state(k.take(j)), k.take(j), Seq::empty()) == scan_from(
            k + b,
            k.len() as int,
            quote_state(k),
            k,
            Seq::empty(),
        ),
        last_end(k + b, j, quote_state(k.take(j)), e) == last_end(
            k + b,
            k.len() as int,
            quote_state(k),
            e,
        ),
    decreases k.len() - j,
{
    if j == k.len() {
        assert(k.take(j) == k);
    } else {
        let s = k + b;
        let q = quote_state(k.take(j));
        let c = k[j];
        let next = k.take(j + 1);
        assert(next.drop_last() == k.take(j));
        assert(next == k.take(j).push(c));
        assert(s[j] == c);
        if j + 1 < k.len() {
            assert(s[j + 1] == k[j + 1]);
        } else if b.len() > 0 {
            assert(s[j + 1] == b[0]);
        }
        lemma_quote_state_outside_comments(k.take(j));
        if q == Scan::Normal {
            assert(plain_at(k, j));
            if j + 1 == k.len() {
                assert(k.take(j) == k.drop_last());
            }
        }
        let st = step(s, j, q);
        assert(st.width == 1 && st.next == quote_step(q, c) && st.keep == Some(c)
            && !st.ends_statement);
        lemma_rescan_prefix(k, b, j + 1, e);
    }
}

/// The quote that `y` leaves open when read from the state `q`.
pub open spec fn quote_state_from(q: Scan, y: Seq<char>) -> Scan
    decreases y.len(),
{
    if y.len() == 0 {
        q
    } else {
        quote_step(quote_state_from(q, y.drop_last()), y.last())
    }
}

proof fn lemma_quote_state_concat(x: Seq<char>, y: Seq<char>)
    ensures
        quote_state(x + y) == quote_state_from(quote_state(x), y),
        quote_state(y) == quote_state_from(Scan::Normal, y),
    decreases y.len(),
{
    if y.len() == 0 {
        assert(x + y == x);
    } else {
        lemma_quote_state_concat(x, y.drop_last());
        assert((x + y).drop_last() == x + y.drop_last());
        assert((x + y).last() == y.last());
    }
}

proof fn lemma_white_space_keeps_quote(q: Scan, y: Seq<char>)
    requires
        forall|j: int| 0 <= j < y.len() ==> is_white_space(#[trigger] y[j]),
    ensures
        quote_state_from(q, y) == q,
    decreases y.len(),
{
    if y.len() > 0 {
        lemma_white_space_keeps_quote(q, y.drop_last());
        assert(is_white_space(y[y.len() - 1]));
    }
}

/// A statement that reads back as itself: trimmed, with no `;` outside quotes
/// and no comment, and no quote left open.
pub open spec fn reads_back(t: Seq<char>) -> bool {
    is_trimmed(t) && clean(t) && quote_state(t) == Scan::Normal
}

proof fn lemma_trimmed_reads_back(k: Seq<char>)
    requires
        clean(k),
        quote_state(k) == Scan::Normal,
        trim(k).len() > 0,
    ensures
        reads_back(trim(k)),
{
    lemma_trim_is_trimmed(k);
    let (a, b) = lemma_trim_bounds(k);
    let t = trim(k);
    let lead = k.take(a);
    assert(forall|j: int| 0 <= j < lead.len() ==> is_white_space(#[trigger] lead[j])) by {
        assert forall|j: int| 0 <= j < lead.len() implies is_white_space(#[trigger] lead[j]) by {
            assert(lead[j] == k[j]);
        }
    }
    lemma_quote_state_concat(Seq::<char>::empty(), lead);
    lemma_white_space_keeps_quote(Scan::Normal, lead);
    assert(quote_state(lead) == Scan::Normal);
    assert forall|j: int|
        0 <= j < t.len() && #[trigger] quote_state(t.take(j)) == Scan::Normal implies plain_at(
        t,
        j,
    ) by {
        assert(k.take(a + j) == lead + t.take(j));
        lemma_quote_state_concat(lead, t.take(j));
        lemma_quote_state_concat(Seq::<char>::empty(), t.take(j));
        assert(quote_state(k.take(a + j)) == Scan::Normal);
        assert(plain_at(k, a + j));
        assert(t[j] == k[a + j]);
        if j + 1 < t.len() {
            assert(t[j + 1] == k[a + j + 1]);
        }
    }
    let trail = k.skip(b);
    assert(k == (lead + t) + trail);
    lemma_quote_state_concat(lead + t, trail);
    assert forall|j: int| 0 <= j < trail.len() implies is_white_space(#[trigger] trail[j]) by {
        assert(trail[j] == k[b + j]);
    }
    lemma_white_space_keeps_quote(quote_state(lead + t), trail);
    lemma_quote_state_concat(lead, t);
    lemma_quote_state_concat(Seq::<char>::empty(), t);
}

proof fn lemma_scan_reads_back(s: Seq<char>, i: int, q: Scan, k: Seq<char>, d: Seq<Seq<char>>)
    requires
        0 <= i,
        kept_invariant(s, i, q, k),
        forall|j: int| 0 <= j < d.len() ==> reads_back(#[trigger] d[j]),
    ensures
        forall|j: int|
            0 <= j < scan_from(s, i, q, k, d).0.len() ==> reads_back(
                #[trigger] scan_from(s, i, q, k, d).0[j],
            ),
    decreases s.len() - i,
{
    if i < s.len() {
        let st = step(s, i, q);
        if st.ends_statement {
            let d2 = close_statement(d, k);
            if trim(k).len() > 0 {
                lemma_trimmed_reads_back(k);
            }
            assert forall|j: int| 0 <= j < d2.len() implies reads_back(#[trigger] d2[j]) by {
                if j < d.len() {
                    assert(d2[j] == d[j]);
                }
            }
            assert(clean(Seq::<char>::empty()));
            lemma_scan_reads_back(s, i + st.width, st.next, Seq::empty(), d2);
            assert(scan_from(s, i, q, k, d) == scan_from(s, i + st.width, st.next, Seq::empty(), d2));
        } else {
            let kept = match st.keep {
                Some(kc) => k.push(kc),
                None => k,
            };
            match st.keep {
                Some(kc) => {
                    if k.len() > 0 && quote_state(k.drop_last()) == Scan::Normal {
                        assert(quote_state(k) == quote_step(Scan::Normal, k.last()));
                    }
                    lemma_push_clean(k, kc);
                },
                None => {},
            }
            lemma_scan_reads_back(s, i + st.width, st.next, kept, d);
            assert(scan_from(s, i, q, k, d) == scan_from(s, i + st.width, st.next, kept, d));
        }
    } else {
        assert(scan_from(s, i, q, k, d) == (d, k, q));
    }
}

/// A statement that the splitter gives splits again, followed by a `;`, into
/// itself, leaving nothing over.
pub proof fn lemma_statement_splits_again(s: Seq<char>, j: int)
    requires
        0 <= j < statements_of(s).len(),
    ensures
        statements_of(statements_of(s)[j] + seq![';']) == seq![statements_of(s)[j]],
        remainder_of(statements_of(s)[j] + seq![';']) == Seq::<char>::empty(),
{
    let e = Seq::<char>::empty();
    let ed = Seq::<Seq<char>>::empty();
    assert(clean(e));
    lemma_scan_reads_back(s, 0, Scan::Normal, e, ed);
    let t = statements_of(s)[j];
    assert(reads_back(t));
    let x = t + seq![';'];
    lemma_rescan_prefix(t, seq![';'], 0, 0);
    assert(t.take(0) == e);
    assert(quote_state(e) == Scan::Normal);
    let n = t.len() as int;
    assert(x.len() == n + 1);
    assert(x[n] == ';');
    lemma_trim_of_trimmed(t);
    assert(step(x, n, Scan::Normal).ends_statement && step(x, n, Scan::Normal).width == 1);
    assert(close_statement(ed, t) == seq![t]);
    assert(scan_from(x, n, Scan::Normal, t, ed) == scan_from(
        x,
        n + 1,
        Scan::Normal,
        e,
        close_statement(ed, t),
    ));
    assert(scan_from(x, n + 1, Scan::Normal, e, seq![t]) == (seq![t], e, Scan::Normal));
    assert(last_end(x, n, Scan::Normal, 0) == last_end(x, n + 1, Scan::Normal, n + 1));
    assert(last_end(x, n + 1, Scan::Normal, n + 1) == n + 1);
    assert(x.skip(n + 1) == e);
}

/// Every statement that a split gives is trimmed: it is not empty, and it
/// starts and ends with a character that is not white space.
pub proof fn lemma_statements_trimmed(s: Seq<char>)
    ensures
        forall|j: int|
            0 <= j < statements_of(s).len() ==> is_trimmed(#[trigger] statements_of(s)[j]),
{
    lemma_scan_trimmed(s, 0, Scan::Normal, Seq::empty(), Seq::empty());
}

} // verus!
