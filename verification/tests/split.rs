use turso_dump::sql::split_statements;

fn split(input: &str) -> (Vec<String>, String) {
    let s = split_statements(input);
    (s.statements, s.remainder)
}

#[test]
fn semicolon_inside_string_literal_does_not_split() {
    let (st, rem) = split("INSERT INTO t VALUES ('a;b');");
    assert_eq!(st, vec!["INSERT INTO t VALUES ('a;b')".to_string()]);
    assert_eq!(rem, "");
}

#[test]
fn several_statements_on_one_line_in_order() {
    let (st, rem) = split("SELECT 1; SELECT 2;\n");
    assert_eq!(st, vec!["SELECT 1".to_string(), "SELECT 2".to_string()]);
    assert_eq!(rem, "\n");
}

#[test]
fn unterminated_statement_is_carried_over() {
    let (st, rem) = split("SELECT id, name\n");
    assert!(st.is_empty());
    assert_eq!(rem, "SELECT id, name\n");
}

#[test]
fn quoted_identifiers_and_brackets_keep_semicolons() {
    let (st, rem) = split("SELECT \"a;b\", `c;d`, [e;f] FROM t;");
    assert_eq!(st, vec!["SELECT \"a;b\", `c;d`, [e;f] FROM t".to_string()]);
    assert_eq!(rem, "");
}

#[test]
fn line_comment_is_dropped_up_to_its_newline() {
    let (st, rem) = split("SELECT 1; -- note; more\nSELECT 2;");
    assert_eq!(st, vec!["SELECT 1".to_string(), "SELECT 2".to_string()]);
    assert_eq!(rem, "");
}

#[test]
fn block_comment_becomes_one_space() {
    let (st, rem) = split("SELECT /* ; */ 1;");
    assert_eq!(st, vec!["SELECT   1".to_string()]);
    assert_eq!(rem, "");
}

#[test]
fn empty_statements_are_skipped() {
    let (st, rem) = split(";;  ; \n");
    assert!(st.is_empty());
    assert_eq!(rem, " \n");
}

#[test]
fn unterminated_quote_stays_open_in_remainder() {
    let (st, rem) = split("SELECT 'a;\n");
    assert!(st.is_empty());
    assert_eq!(rem, "SELECT 'a;\n");
}

#[test]
fn unterminated_block_comment_stays_in_remainder() {
    let s = split_statements("SELECT 1; SELECT 2 /* open ;");
    assert_eq!(s.statements, vec!["SELECT 1".to_string()]);
    assert_eq!(s.remainder, " SELECT 2 /* open ;");
    assert!(s.open);
}

#[test]
fn remainder_keeps_comments_as_typed() {
    let s = split_statements("SELECT 1; -- note\n");
    assert_eq!(s.statements, vec!["SELECT 1".to_string()]);
    assert_eq!(s.remainder, " -- note\n");
    assert!(!s.open);
}

#[test]
fn open_tells_what_is_unfinished() {
    assert!(!split_statements("").open);
    assert!(!split_statements("SELECT 1;  \n").open);
    assert!(split_statements("SELECT 1").open);
    assert!(split_statements("'abc").open);
    assert!(split_statements("/* abc").open);
    assert!(split_statements("-- abc").open);
    assert!(!split_statements("/* abc */").open);
}

#[test]
fn single_dash_and_slash_are_kept() {
    let (st, rem) = split("SELECT 4-2, 6/3;");
    assert_eq!(st, vec!["SELECT 4-2, 6/3".to_string()]);
    assert_eq!(rem, "");
}

#[test]
fn statements_are_trimmed_of_unicode_white_space() {
    let (st, _) = split("\u{3000}\tSELECT 1\u{a0} ;");
    assert_eq!(st, vec!["SELECT 1".to_string()]);
}

#[test]
fn remainder_splits_again_to_itself() {
    for input in ["SELECT 'a;\n", "x; -- c", "a; /* b", "[x;y", "SELECT 1 -", "\"q;", "a;b;c"] {
        let (_, rem) = split(input);
        let (st2, rem2) = split(&rem);
        assert!(st2.is_empty());
        assert_eq!(rem2, rem);
    }
}

#[test]
fn split_in_parts_matches_split_as_a_whole() {
    let a = "SELECT 1; SELECT 'x;\n";
    let b = "y'; SELECT 3 -- c\n; tail";
    let (whole_st, whole_rem) = split(&format!("{a}{b}"));
    let (st_a, rem_a) = split(a);
    let (st_b, rem_b) = split(&format!("{rem_a}{b}"));
    let mut joined = st_a.clone();
    joined.extend(st_b);
    assert_eq!(whole_st, joined);
    assert_eq!(whole_rem, rem_b);
}

#[test]
fn block_comment_across_lines_does_not_split() {
    let a = "SELECT 1 /* a;\n";
    let b = "b */;\n";
    let (whole_st, whole_rem) = split(&format!("{a}{b}"));
    assert_eq!(whole_st, vec!["SELECT 1".to_string()]);
    let (st_a, rem_a) = split(a);
    assert!(st_a.is_empty());
    let (st_b, rem_b) = split(&format!("{rem_a}{b}"));
    assert_eq!(st_b, vec!["SELECT 1".to_string()]);
    assert_eq!(rem_b, whole_rem);
}

#[test]
fn split_in_parts_inside_a_line_comment_and_at_a_dash() {
    for (a, b) in [("SELECT 1 -- x", ";y\n2;"), ("SELECT 4 -", "- c\n;"), ("SELECT 'a", ";b';")] {
        let (whole_st, whole_rem) = split(&format!("{a}{b}"));
        let (st_a, rem_a) = split(a);
        let (st_b, rem_b) = split(&format!("{rem_a}{b}"));
        let mut joined = st_a.clone();
        joined.extend(st_b);
        assert_eq!(whole_st, joined);
        assert_eq!(whole_rem, rem_b);
    }
}

#[test]
fn statements_split_again_into_themselves() {
    let input = "SELECT 'a;b', \"c\" -- x\n FROM t; /* y */ INSERT INTO t VALUES (1 - 2) ;\n  [q;r] - 3 ;";
    let (st, _) = split(input);
    assert_eq!(st.len(), 3);
    for statement in st {
        let (again, rem) = split(&format!("{statement};"));
        assert_eq!(again, vec![statement.clone()]);
        assert_eq!(rem, "");
    }
}
