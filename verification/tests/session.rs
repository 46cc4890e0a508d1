use turso_dump::session::{
    parse_dot_command, DotCommand, InterruptAction, LineAction, Session, CONTINUATION_PROMPT,
    PROMPT,
};

fn statements(a: LineAction) -> Vec<String> {
    match a {
        LineAction::Statements(v) => v,
        _ => panic!("expected statements"),
    }
}

#[test]
fn statement_spanning_lines_uses_continuation_prompt() {
    let mut s = Session::new();
    assert_eq!(s.prompt(), PROMPT);
    assert!(statements(s.on_line("SELECT id, name")).is_empty());
    assert_eq!(s.prompt(), CONTINUATION_PROMPT);
    assert!(statements(s.on_line("FROM nodes")).is_empty());
    let done = statements(s.on_line("WHERE id > 1;"));
    assert_eq!(done, vec!["SELECT id, name\nFROM nodes\nWHERE id > 1".to_string()]);
    assert_eq!(s.prompt(), PROMPT);
    assert!(!s.is_continuing());
}

#[test]
fn blank_line_is_skipped_when_idle() {
    let mut s = Session::new();
    assert!(matches!(s.on_line("   "), LineAction::Skip));
    assert_eq!(s.prompt(), PROMPT);
}

#[test]
fn dot_command_when_idle() {
    let mut s = Session::new();
    match s.on_line("  .schema  nodes  ") {
        LineAction::Command { entry, command } => {
            assert_eq!(entry, ".schema  nodes");
            match command {
                DotCommand::Schema(Some(name)) => assert_eq!(name, "nodes"),
                _ => panic!("expected .schema with a name"),
            }
        }
        _ => panic!("expected a command"),
    }
}

#[test]
fn dot_line_inside_open_statement_is_sql() {
    let mut s = Session::new();
    statements(s.on_line("SELECT"));
    let done = statements(s.on_line(".5;"));
    assert_eq!(done, vec!["SELECT\n.5".to_string()]);
}

#[test]
fn parse_each_dot_command() {
    assert!(matches!(parse_dot_command(".help"), DotCommand::Help));
    assert!(matches!(parse_dot_command(".tables"), DotCommand::Tables));
    assert!(matches!(parse_dot_command(".schema"), DotCommand::Schema(None)));
    assert!(matches!(parse_dot_command(".schema   "), DotCommand::Schema(None)));
    assert!(matches!(parse_dot_command(".dump"), DotCommand::Dump));
    assert!(matches!(parse_dot_command(".quit"), DotCommand::Quit));
    assert!(matches!(parse_dot_command(".exit"), DotCommand::Quit));
    match parse_dot_command(".frobnicate now") {
        DotCommand::Unknown(w) => assert_eq!(w, ".frobnicate"),
        _ => panic!("expected unknown"),
    }
    match parse_dot_command(".schema\tmy table ") {
        DotCommand::Schema(Some(n)) => assert_eq!(n, "my table"),
        _ => panic!("expected schema"),
    }
}

#[test]
fn interrupt_discards_open_statement_or_hints() {
    let mut s = Session::new();
    assert!(matches!(s.on_interrupt(), InterruptAction::Hint));
    statements(s.on_line("SELECT 1"));
    assert!(matches!(s.on_interrupt(), InterruptAction::Discard));
    assert_eq!(s.prompt(), PROMPT);
    let done = statements(s.on_line("SELECT 2;"));
    assert_eq!(done, vec!["SELECT 2".to_string()]);
}

#[test]
fn block_comment_typed_over_two_lines() {
    let mut s = Session::new();
    assert!(statements(s.on_line("SELECT 1 /* a;")).is_empty());
    assert_eq!(s.prompt(), CONTINUATION_PROMPT);
    let done = statements(s.on_line("b */;"));
    assert_eq!(done, vec!["SELECT 1".to_string()]);
    assert_eq!(s.prompt(), PROMPT);
}

#[test]
fn open_comment_alone_keeps_the_continuation_prompt() {
    let mut s = Session::new();
    assert!(statements(s.on_line("/* note")).is_empty());
    assert_eq!(s.prompt(), CONTINUATION_PROMPT);
    assert!(statements(s.on_line(".tables */ SELECT 2;")) == vec!["SELECT 2".to_string()]);
}

#[test]
fn trailing_line_comment_leaves_the_session_idle() {
    let mut s = Session::new();
    let done = statements(s.on_line("SELECT 1; -- note"));
    assert_eq!(done, vec!["SELECT 1".to_string()]);
    assert_eq!(s.prompt(), PROMPT);
    assert!(matches!(s.on_line(".tables"), LineAction::Command { .. }));
    let done = statements(s.on_line("SELECT 2;"));
    assert_eq!(done, vec!["SELECT 2".to_string()]);
}
