use turso_dump::dump::{column_alignments, dump_query, dump_section, format_rows};
use turso_dump::output::{Alignment, Value};

#[test]
fn dump_query_quotes_the_name() {
    assert_eq!(dump_query("nodes"), "SELECT * FROM \"nodes\"");
    assert_eq!(dump_query("a\"b"), "SELECT * FROM \"a\"\"b\"");
    assert_eq!(dump_query("\"\""), "SELECT * FROM \"\"\"\"\"\"");
}

#[test]
fn numeric_columns_align_right_nulls_aside() {
    let rows = vec![
        vec![Value::Integer(1), Value::Text("a".to_string()), Value::Null],
        vec![Value::Real("2.5".to_string()), Value::Integer(3), Value::Null],
        vec![Value::Null, Value::Integer(4), Value::Null],
    ];
    assert_eq!(
        column_alignments(&rows, 3),
        vec![Alignment::Right, Alignment::Left, Alignment::Right]
    );
    assert_eq!(column_alignments(&[], 2), vec![Alignment::Right, Alignment::Right]);
}

#[test]
fn format_rows_formats_each_value() {
    let rows = vec![vec![Value::Integer(1), Value::Null, Value::Blob(vec![0xff])]];
    assert_eq!(
        format_rows(&rows),
        vec![vec!["1".to_string(), "NULL".to_string(), "x'ff'".to_string()]]
    );
}

#[test]
fn dump_section_of_a_table() {
    let columns = vec!["id".to_string(), "name".to_string()];
    let rows = vec![
        vec![Value::Integer(7), Value::Text("alice".to_string())],
        vec![Value::Integer(12), Value::Null],
    ];
    let expected = "
=== nodes ===
┌────┬───────┐
│ id │ name  │
├────┼───────┤
│  7 │ alice │
│ 12 │ NULL  │
└────┴───────┘
-- 2 row(s)
";
    assert_eq!(dump_section("nodes", &columns, &rows), expected);
}
