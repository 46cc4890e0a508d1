use turso_dump::catalog::{schema_listing, table_listing, text_entries};
use turso_dump::output::Value;

#[test]
fn text_entries_keep_only_text() {
    let values = vec![
        Value::Text("a".to_string()),
        Value::Null,
        Value::Integer(3),
        Value::Text("b".to_string()),
    ];
    assert_eq!(text_entries(values), vec!["a".to_string(), "b".to_string()]);
}

#[test]
fn table_listing_one_per_line_or_note() {
    assert_eq!(table_listing(&["nodes".to_string(), "t".to_string()]), "nodes\nt\n");
    assert_eq!(table_listing(&[]), "-- no tables\n");
}

#[test]
fn schema_listing_ends_each_with_semicolon_or_note() {
    let defs = vec!["CREATE TABLE t (x)".to_string()];
    assert_eq!(schema_listing(&defs), "CREATE TABLE t (x);\n");
    assert_eq!(schema_listing(&[]), "-- no matching schema\n");
}
