use turso_dump::output::{
    affected_report, display_width, escape_cell, format_blob, format_value,
    is_numeric_value, rows_report, Value,
};

#[test]
fn escape_cell_keeps_cells_on_one_line() {
    assert_eq!(escape_cell("a\\b\nc\rd\te"), "a\\\\b\\nc\\rd\\te");
    assert_eq!(escape_cell("plain"), "plain");
    assert_eq!(escape_cell(""), "");
}

#[test]
fn display_width_counts_characters() {
    assert_eq!(display_width("héllo"), 5);
    assert_eq!(display_width(""), 0);
    assert_eq!(display_width("│─"), 2);
}

#[test]
fn format_blob_hex_and_summary() {
    assert_eq!(format_blob(&[0xde, 0xad, 0xbe, 0xef]), "x'deadbeef'");
    assert_eq!(format_blob(&[]), "x''");
    assert_eq!(format_blob(&[0x00, 0x0f, 0xa0]), "x'000fa0'");
    let limit = vec![0xabu8; 24];
    assert_eq!(format_blob(&limit), format!("x'{}'", "ab".repeat(24)));
    let over = vec![0u8; 25];
    assert_eq!(format_blob(&over), "<blob 25 bytes>");
}

#[test]
fn format_value_each_kind() {
    assert_eq!(format_value(&Value::Null), "NULL");
    assert_eq!(format_value(&Value::Integer(42)), "42");
    assert_eq!(format_value(&Value::Integer(-7)), "-7");
    assert_eq!(format_value(&Value::Integer(0)), "0");
    assert_eq!(format_value(&Value::Integer(i64::MIN)), "-9223372036854775808");
    assert_eq!(format_value(&Value::Integer(i64::MAX)), "9223372036854775807");
    assert_eq!(format_value(&Value::Real("3.14".to_string())), "3.14");
    assert_eq!(format_value(&Value::Text("bob;with;semis".to_string())), "bob;with;semis");
    assert_eq!(format_value(&Value::Blob(vec![0xde, 0xad, 0xbe, 0xef])), "x'deadbeef'");
}

#[test]
fn numeric_values_are_integers_and_reals() {
    assert!(is_numeric_value(&Value::Integer(1)));
    assert!(is_numeric_value(&Value::Real("9.5".to_string())));
    assert!(!is_numeric_value(&Value::Null));
    assert!(!is_numeric_value(&Value::Text("1".to_string())));
    assert!(!is_numeric_value(&Value::Blob(vec![1])));
}

#[test]
fn reports_after_statements() {
    assert_eq!(affected_report(1, "0.38ms"), "-- 1 row(s) affected in 0.38ms\n");
    assert_eq!(rows_report(2, "0.22ms"), "-- 2 row(s) in 0.22ms\n");
    assert_eq!(affected_report(0, "1.500s"), "-- 0 row(s) affected in 1.500s\n");
    assert_eq!(rows_report(12345, "0.01ms"), "-- 12345 row(s) in 0.01ms\n");
}

#[test]
fn escaping_keeps_distinct_texts_distinct() {
    let texts = ["a\\nb", "a\nb", "a\\\nb", "\\", "\\\\", "\t", "\\t", "n"];
    for (i, x) in texts.iter().enumerate() {
        for (j, y) in texts.iter().enumerate() {
            assert_eq!(i == j, escape_cell(x) == escape_cell(y));
        }
    }
}
