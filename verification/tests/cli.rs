use turso_dump::cli::{parse_args, ArgError, Invocation};

fn args(v: &[&str]) -> Vec<String> {
    v.iter().map(|s| s.to_string()).collect()
}

#[test]
fn database_path_opens_a_session() {
    match parse_args(&args(&["some.db"])) {
        Ok(Invocation::Run { database, dump }) => {
            assert_eq!(database, "some.db");
            assert!(!dump);
        }
        _ => panic!("expected a session"),
    }
}

#[test]
fn dump_flag_in_either_position() {
    for a in [args(&["-d", "some.db"]), args(&["some.db", "--dump"])] {
        match parse_args(&a) {
            Ok(Invocation::Run { database, dump }) => {
                assert_eq!(database, "some.db");
                assert!(dump);
            }
            _ => panic!("expected a dump"),
        }
    }
}

#[test]
fn help_stops_at_once() {
    assert!(matches!(parse_args(&args(&["-h"])), Ok(Invocation::Help)));
    assert!(matches!(parse_args(&args(&["x.db", "--help", "-z"])), Ok(Invocation::Help)));
}

#[test]
fn unknown_option_is_refused() {
    match parse_args(&args(&["-z", "x.db"])) {
        Err(ArgError::UnknownOption(o)) => assert_eq!(o, "-z"),
        _ => panic!("expected an unknown option"),
    }
}

#[test]
fn database_path_is_required() {
    assert!(matches!(parse_args(&args(&[])), Err(ArgError::MissingDatabase)));
    assert!(matches!(parse_args(&args(&["-d"])), Err(ArgError::MissingDatabase)));
}

#[test]
fn last_path_wins() {
    match parse_args(&args(&["a.db", "b.db"])) {
        Ok(Invocation::Run { database, .. }) => assert_eq!(database, "b.db"),
        _ => panic!("expected a session"),
    }
}
