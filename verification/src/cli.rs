use vstd::prelude::*;

verus! {

/// What the command line asks for.
pub enum Invocation {
    /// Show the usage text and stop.
    Help,
    /// Open the database at `database`; dump every table and stop when `dump`
    /// is set, else start a session.
    Run { database: String, dump: bool },
}

/// Why a command line is refused.
pub enum ArgError {
    /// An argument that starts with `-` and is no known option.
    UnknownOption(String),
    /// No database path was given.
    MissingDatabase,
}

/// What a command line comes to, in terms of its text.
pub enum ArgsOutcome {
    Help,
    Unknown(Seq<char>),
    Missing,
    Run(Seq<char>, bool),
}

pub open spec fn is_help_flag(a: Seq<char>) -> bool {
    a == "-h"@ || a == "--help"@
}

pub open spec fn is_dump_flag(a: Seq<char>) -> bool {
    a == "-d"@ || a == "--dump"@
}

pub open spec fn looks_like_option(a: Seq<char>) -> bool {
    a.len() > 0 && a[0] == '-'
}

/// Reading `args` from position `i`, with the dump flag and the database path
/// found so far: a help flag stops at once, as does an unknown option; a
/// later path replaces an earlier one.
pub open spec fn args_outcome(
    args: Seq<Seq<char>>,
    i: int,
    dump: bool,
    path: Option<Seq<char>>,
) -> ArgsOutcome
    decreases args.len() - i,
{
    if i < 0 || i >= args.len() {
        match path {
            Some(p) => ArgsOutcome::Run(p, dump),
            None => ArgsOutcome::Missing,
        }
    } else {
        let a = args[i];
        if is_help_flag(a) {
            ArgsOutcome::Help
        } else if is_dump_flag(a) {
            args_outcome(args, i + 1, true, path)
        } else if looks_like_option(a) {
            ArgsOutcome::Unknown(a)
        } else {
            args_outcome(args, i + 1, dump, Some(a))
        }
    }
}

/// The outcome that a result stands for.
pub open spec fn outcome_of(r: Result<Invocation, ArgError>) -> ArgsOutcome {
    match r {
        Ok(Invocation::Help) => ArgsOutcome::Help,
        Ok(Invocation::Run { database, dump }) => ArgsOutcome::Run(database@, dump),
        Err(ArgError::UnknownOption(a)) => ArgsOutcome::Unknown(a@),
        Err(ArgError::MissingDatabase) => ArgsOutcome::Missing,
    }
}

/// Reads the command line (without the program's name): `-h`/`--help`,
/// `-d`/`--dump`, and the path of the database, which is required.
pub fn parse_args(args: &[String]) -> (r: Result<Invocation, ArgError>)
    ensures
        outcome_of(r) == args_outcome(args@.map_values(|a: String| a@), 0, false, None),
{
    let ghost av = args@.map_values(|a: String| a@);
    let mut dump = false;
    let mut path: Option<String> = None;
    let mut i: usize = 0;
    while i < args.len()
        invariant
            i <= args@.len(),
            av == args@.map_values(|a: String| a@),
            args_outcome(av, i as int, dump, match path {
                Some(p) => Some(p@),
                None => None,
            }) == args_outcome(av, 0, false, None),
        decreases args@.len() - i,
    {
        let arg = &args[i];
        assert(arg@ == av[i as int]);
        if *arg == String::from_str("-h") || *arg == String::from_str("--help") {
            return Ok(Invocation::Help);
        } else if *arg == String::from_str("-d") || *arg == String::from_str("--dump") {
            dump = true;
        } else if !arg.as_str().is_empty() && arg.as_str().get_char(0) == '-' {
            return Err(ArgError::UnknownOption(arg.clone()));
        } else {
            path = Some(arg.clone());
        }
        i = i + 1;
    }
    match path {
        Some(database) => Ok(Invocation::Run { database, dump }),
        None => Err(ArgError::MissingDatabase),
    }
}

/// A dump flag is no help flag.
proof fn lemma_dump_flag_is_no_help_flag(a: Seq<char>)
    requires
        is_dump_flag(a),
    ensures
        !is_help_flag(a),
{
    reveal_strlit("-d");
    reveal_strlit("--dump");
    reveal_strlit("-h");
    reveal_strlit("--help");
    if a == "-d"@ {
        assert(a[1] != "-h"@[1]);
        assert(a.len() != "--help"@.len());
    } else {
        assert(a.len() != "-h"@.len());
        assert(a[2] != "--help"@[2]);
    }
}

/// `-d` and `--dump` are the same flag wherever they stand: writing one in
/// place of the other, at any position, never changes what the command line
/// comes to.
pub proof fn lemma_dump_flags_interchangeable(
    args: Seq<Seq<char>>,
    k: int,
    i: int,
    dump: bool,
    path: Option<Seq<char>>,
)
    requires
        0 <= k < args.len(),
        is_dump_flag(args[k]),
    ensures
        args_outcome(args.update(k, "-d"@), i, dump, path) == args_outcome(args, i, dump, path),
        args_outcome(args.update(k, "--dump"@), i, dump, path) == args_outcome(args, i, dump, path),
    decreases args.len() - i,
{
    reveal_strlit("-d");
    reveal_strlit("--dump");
    reveal_strlit("-h");
    reveal_strlit("--help");
    let short = args.update(k, "-d"@);
    let long = args.update(k, "--dump"@);
    if 0 <= i < args.len() {
        let a = args[i];
        if i == k {
            assert(short[i] == "-d"@ && long[i] == "--dump"@);
            lemma_dump_flag_is_no_help_flag(a);
            lemma_dump_flag_is_no_help_flag("-d"@);
            lemma_dump_flag_is_no_help_flag("--dump"@);
            lemma_dump_flags_interchangeable(args, k, i + 1, true, path);
        } else {
            assert(short[i] == a && long[i] == a);
            if is_help_flag(args[i]) {
            } else if is_dump_flag(args[i]) {
                lemma_dump_flags_interchangeable(args, k, i + 1, true, path);
            } else if looks_like_option(args[i]) {
            } else {
                lemma_dump_flags_interchangeable(args, k, i + 1, dump, Some(a));
            }
        }
    }
}

/// An option is refused only when it is one of the arguments, starts with
/// `-`, and is neither a help flag nor a dump flag: `-d` and `--dump` are
/// never reported as unknown, wherever they stand.
pub proof fn lemma_unknown_is_no_known_flag(
    args: Seq<Seq<char>>,
    i: int,
    dump: bool,
    path: Option<Seq<char>>,
)
    ensures
        args_outcome(args, i, dump, path) matches ArgsOutcome::Unknown(a) ==> {
            &&& exists|j: int| 0 <= i <= j < args.len() && #[trigger] args[j] == a
            &&& looks_like_option(a)
            &&& !is_dump_flag(a)
            &&& !is_help_flag(a)
        },
    decreases args.len() - i,
{
    if 0 <= i < args.len() {
        let a = args[i];
        if is_help_flag(args[i]) {
        } else if is_dump_flag(args[i]) {
            lemma_unknown_is_no_known_flag(args, i + 1, true, path);
        } else if looks_like_option(args[i]) {
            assert(args[i] == a);
        } else {
            lemma_unknown_is_no_known_flag(args, i + 1, dump, Some(a));
        }
    }
}

} // verus!
