use vstd::prelude::*;

use crate::sql::{is_open, remainder_of, split_statements, statements_of};
use crate::text::{
    chars_of, is_white_space, is_whitespace, lemma_trim_bounds, lemma_trim_is_trimmed, push_char,
    string_of_range, string_views, trim, trim_bounds, trim_str,
};

verus! {

/// The prompt for a new statement.
pub const PROMPT: &'static str = "turso-dump > ";

/// The prompt while a statement is still open.
pub const CONTINUATION_PROMPT: &'static str = "        ... ";

/// A command of the session, given on a line of its own that starts with `.`.
pub enum DotCommand {
    /// `.help`
    Help,
    /// `.tables`
    Tables,
    /// `.schema`, with the table name when one follows.
    Schema(Option<String>),
    /// `.dump`
    Dump,
    /// `.quit` or `.exit`
    Quit,
    /// Any other word that starts with `.`.
    Unknown(String),
}

/// Where the first word of `s` ends: at its first white space, or at its end.
pub open spec fn word_end(s: Seq<char>) -> nat
    decreases s.len(),
{
    if s.len() == 0 || is_white_space(s[0]) {
        0
    } else {
        1 + word_end(s.drop_first())
    }
}

/// The command word of a line: what comes before its first white space.
pub open spec fn command_word(line: Seq<char>) -> Seq<char> {
    line.take(word_end(line) as int)
}

/// The argument of a command: what follows the first white space, trimmed.
pub open spec fn command_argument(line: Seq<char>) -> Seq<char> {
    if word_end(line) < line.len() {
        trim(line.skip(word_end(line) as int + 1))
    } else {
        Seq::empty()
    }
}

/// Whether `c` is the command that `line` gives.
pub open spec fn parses_as(c: DotCommand, line: Seq<char>) -> bool {
    let w = command_word(line);
    let a = command_argument(line);
    if w == ".help"@ {
        c is Help
    } else if w == ".tables"@ {
        c is Tables
    } else if w == ".schema"@ {
        match c {
            DotCommand::Schema(None) => a.len() == 0,
            DotCommand::Schema(Some(name)) => a.len() > 0 && name@ == a,
            _ => false,
        }
    } else if w == ".dump"@ {
        c is Dump
    } else if w == ".quit"@ || w == ".exit"@ {
        c is Quit
    } else {
        match c {
            DotCommand::Unknown(word) => word@ == w,
            _ => false,
        }
    }
}

fn word_end_exec(v: &Vec<char>) -> (e: usize)
    ensures
        e == word_end(v@),
        e <= v@.len(),
{
    let mut e: usize = 0;
    assert(v@.skip(0) == v@);
    while e < v.len() && !is_whitespace(v[e])
        invariant
            e <= v@.len(),
            word_end(v@) == e + word_end(v@.skip(e as int)),
        decreases v@.len() - e,
    {
        assert(v@.skip(e as int).drop_first() == v@.skip(e + 1));
        e = e + 1;
    }
    e
}

/// Reads a command line: its first word chooses the command, and `.schema`
/// takes the rest of the line, trimmed, as a table name when it is not empty.
pub fn parse_dot_command(line: &str) -> (c: DotCommand)
    ensures
        parses_as(c, line@),
{
    let v = chars_of(line);
    let e = word_end_exec(&v);
    let word = string_of_range(&v, 0, e);
    assert(v@.subrange(0, e as int) == command_word(line@));
    if word == String::from_str(".help") {
        DotCommand::Help
    } else if word == String::from_str(".tables") {
        DotCommand::Tables
    } else if word == String::from_str(".schema") {
        if e < v.len() {
            let (a, b) = trim_bounds(&v, e + 1, v.len());
            assert(v@.subrange(e + 1, v@.len() as int) == line@.skip(e + 1));
            if a < b {
                DotCommand::Schema(Some(string_of_range(&v, a, b)))
            } else {
                DotCommand::Schema(None)
            }
        } else {
            DotCommand::Schema(None)
        }
    } else if word == String::from_str(".dump") {
        DotCommand::Dump
    } else if word == String::from_str(".quit") || word == String::from_str(".exit") {
        DotCommand::Quit
    } else {
        DotCommand::Unknown(word)
    }
}

/// The first word of a line holds no white space, and stops at the first
/// white space or at the end of the line.
proof fn lemma_word_end_bounds(s: Seq<char>)
    ensures
        word_end(s) <= s.len(),
        forall|j: int| 0 <= j < word_end(s) ==> !is_white_space(#[trigger] s[j]),
        word_end(s) < s.len() ==> is_white_space(s[word_end(s) as int]),
    decreases s.len(),
{
    if s.len() > 0 && !is_white_space(s[0]) {
        let t = s.drop_first();
        lemma_word_end_bounds(t);
        assert forall|j: int| 0 <= j < word_end(s) implies !is_white_space(#[trigger] s[j]) by {
            if j > 0 {
                assert(s[j] == t[j - 1]);
            }
        }
        if word_end(s) < s.len() {
            assert(s[word_end(s) as int] == t[word_end(t) as int]);
        }
    }
}

/// The table name of `.schema` is the rest of the line as typed: a piece of
/// the line after the first white space that follows the command word, with
/// white space only around it, and its own first and last characters not
/// white space; nothing in it is changed.
pub proof fn lemma_schema_name_as_typed(line: Seq<char>, c: DotCommand)
    requires
        parses_as(c, line),
    ensures
        c matches DotCommand::Schema(Some(name)) ==> {
            let e = word_end(line) as int;
            exists|i: int, j: int|
                #![trigger line.subrange(i, j)]
                e < i < j <= line.len() && name@ == line.subrange(i, j) && (forall|k: int|
                    e <= k < i ==> is_white_space(#[trigger] line[k])) && (forall|k: int|
                    j <= k < line.len() ==> is_white_space(#[trigger] line[k]))
                    && !is_white_space(name@[0]) && !is_white_space(name@.last())
        },
{
    if let DotCommand::Schema(Some(name)) = c {
        reveal_strlit(".help");
        reveal_strlit(".tables");
        reveal_strlit(".schema");
        lemma_word_end_bounds(line);
        let e = word_end(line) as int;
        assert(e < line.len());
        let rest = line.skip(e + 1);
        let r = lemma_trim_bounds(rest);
        lemma_trim_is_trimmed(rest);
        let i = e + 1 + r.0;
        let j = e + 1 + r.1;
        assert(name@ == rest.subrange(r.0, r.1));
        assert(line.subrange(i, j) =~= rest.subrange(r.0, r.1));
        assert forall|k: int| e <= k < i implies is_white_space(#[trigger] line[k]) by {
            if k > e {
                assert(line[k] == rest[k - e - 1]);
            }
        }
        assert forall|k: int| j <= k < line.len() implies is_white_space(#[trigger] line[k]) by {
            assert(line[k] == rest[k - e - 1]);
        }
    }
}

/// What the session does with a line that was read.
pub enum LineAction {
    /// Nothing: the line was blank and no statement is open.
    Skip,
    /// Run a command; `entry` is the trimmed line, for the history.
    Command { entry: String, command: DotCommand },
    /// Run these statements, in order (there may be none yet).
    Statements(Vec<String>),
}

/// What the session does when the user interrupts.
pub enum InterruptAction {
    /// No statement was open: remind the user how to leave.
    Hint,
    /// The open statement was thrown away.
    Discard,
}

/// The text read so far after the last `;` that ended a statement, as it was
/// typed.
pub struct Session {
    buffer: String,
}

impl View for Session {
    type V = Seq<char>;

    closed spec fn view(&self) -> Seq<char> {
        self.buffer@
    }
}

/// Whether nothing is open: the pending text holds no statement text beyond
/// white space and comments, and no quote or comment is left open.
pub open spec fn is_idle(pending: Seq<char>) -> bool {
    !is_open(pending)
}

/// How a line read in the state `pending` leads to an action and to the next
/// state: on an idle session a blank line is skipped and a line that starts
/// with `.` is a command; everything else joins the pending text with a
/// newline, and that text is split into statements and the remainder, which
/// stays pending as it was typed.
pub open spec fn line_step(
    pending: Seq<char>,
    line: Seq<char>,
    action: LineAction,
    next: Seq<char>,
) -> bool {
    if is_idle(pending) && trim(line).len() == 0 {
        action is Skip && next == pending
    } else if is_idle(pending) && trim(line)[0] == '.' {
        &&& next == pending
        &&& match action {
            LineAction::Command { entry, command } => entry@ == trim(line) && parses_as(
                command,
                trim(line),
            ),
            _ => false,
        }
    } else {
        let text = pending + line + "\n"@;
        &&& next == remainder_of(text)
        &&& match action {
            LineAction::Statements(v) => string_views(v@) == statements_of(text),
            _ => false,
        }
    }
}

impl Session {
    /// A session with nothing pending.
    pub fn new() -> (s: Session)
        ensures
            s@ == Seq::<char>::empty(),
    {
        Session { buffer: String::new() }
    }

    /// Whether a statement, quote or comment is open.
    pub fn is_continuing(&self) -> (b: bool)
        ensures
            b == !is_idle(self@),
    {
        split_statements(self.buffer.as_str()).open
    }

    /// The prompt to show: the continuation prompt while a statement is open.
    pub fn prompt(&self) -> (p: &'static str)
        ensures
            p@ == if is_idle(self@) {
                PROMPT@
            } else {
                CONTINUATION_PROMPT@
            },
    {
        if self.is_continuing() {
            CONTINUATION_PROMPT
        } else {
            PROMPT
        }
    }

    /// Takes a line that was read.
    pub fn on_line(&mut self, line: &str) -> (action: LineAction)
        ensures
            line_step(old(self)@, line@, action, final(self)@),
    {
        if !self.is_continuing() {
            let trimmed = trim_str(line);
            if trimmed.as_str().is_empty() {
                return LineAction::Skip;
            }
            if trimmed.as_str().get_char(0) == '.' {
                let command = parse_dot_command(trimmed.as_str());
                return LineAction::Command { entry: trimmed, command };
            }
        }
        let ghost pending = self.buffer@;
        self.buffer.append(line);
        push_char(&mut self.buffer, '\n');
        proof {
            reveal_strlit("\n");
            assert(self.buffer@ == pending + line@ + "\n"@);
        }
        let split = split_statements(self.buffer.as_str());
        self.buffer = split.remainder;
        LineAction::Statements(split.statements)
    }

    /// Takes an interruption: the open statement, if any, is thrown away.
    pub fn on_interrupt(&mut self) -> (action: InterruptAction)
        ensures
            is_idle(old(self)@) ==> action is Hint && final(self)@ == old(self)@,
            !is_idle(old(self)@) ==> action is Discard && final(self)@ == Seq::<char>::empty(),
    {
        if self.is_continuing() {
            self.buffer = String::new();
            InterruptAction::Discard
        } else {
            InterruptAction::Hint
        }
    }
}

} // verus!
