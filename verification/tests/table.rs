use turso_dump::output::Alignment;
use turso_dump::table::{data_row, render_table, rule, separator};

fn strings(v: &[&str]) -> Vec<String> {
    v.iter().map(|s| s.to_string()).collect()
}

#[test]
fn separator_joins_dashes() {
    assert_eq!(separator(&[2, 3]), "├────┼─────┤\n");
    assert_eq!(separator(&[]), "├┤\n");
    assert_eq!(rule(&[1], '┌', '┬', '┐'), "┌───┐\n");
}

#[test]
fn data_row_pads_and_aligns() {
    let cells = strings(&["1", "x"]);
    assert_eq!(data_row(&cells, &[2, 3], &[Alignment::Right]), "│  1 │ x   │\n");
    assert_eq!(data_row(&cells, &[3], &[]), "│ 1   │\n");
    assert_eq!(data_row(&strings(&["a"]), &[1, 2], &[]), "│ a │    │\n");
}

#[test]
fn render_table_as_in_the_readme() {
    let columns = strings(&["id", "name", "score", "payload"]);
    let rows = vec![
        strings(&["1", "alice", "9.5", "x'deadbeef'"]),
        strings(&["2", "bob;with;semis", "3.14", "NULL"]),
    ];
    let expected = "\
┌────┬────────────────┬───────┬─────────────┐
│ id │ name           │ score │ payload     │
├────┼────────────────┼───────┼─────────────┤
│ 1  │ alice          │ 9.5   │ x'deadbeef' │
│ 2  │ bob;with;semis │ 3.14  │ NULL        │
└────┴────────────────┴───────┴─────────────┘
";
    assert_eq!(render_table(&columns, &rows, &[]), expected);
}

#[test]
fn render_table_without_columns_is_empty() {
    assert_eq!(render_table(&[], &[strings(&["x"])], &[]), "");
}

#[test]
fn render_table_escapes_and_right_aligns() {
    let columns = strings(&["n", "t"]);
    let rows = vec![strings(&["10", "a\nb"]), strings(&["7", "c"])];
    let expected = "\
┌────┬──────┐
│ n  │ t    │
├────┼──────┤
│ 10 │ a\\nb │
│  7 │ c    │
└────┴──────┘
";
    assert_eq!(render_table(&columns, &rows, &[Alignment::Right]), expected);
}

#[test]
fn render_table_is_a_grid() {
    let columns = strings(&["a", "bb"]);
    let rows = vec![
        strings(&["x\ty", "z", "ignored extra cell"]),
        strings(&["only one"]),
        strings(&[]),
    ];
    let out = render_table(&columns, &rows, &[Alignment::Right, Alignment::Left]);
    let lines: Vec<&str> = out.split_terminator('\n').collect();
    assert_eq!(lines.len(), rows.len() + 4);
    let width = lines[0].chars().count();
    assert!(lines.iter().all(|l| l.chars().count() == width));
    assert!(out.ends_with('\n'));
}

#[test]
fn no_alignments_align_left_and_only_rows_change() {
    let columns = strings(&["n", "name"]);
    let rows = vec![strings(&["1", "a"]), strings(&["22", "bbb"])];
    let none = render_table(&columns, &rows, &[]);
    let left = render_table(&columns, &rows, &[Alignment::Left, Alignment::Left]);
    assert_eq!(none, left);
    let right = render_table(&columns, &rows, &[Alignment::Right, Alignment::Right]);
    let a: Vec<&str> = none.lines().collect();
    let b: Vec<&str> = right.lines().collect();
    assert_eq!(a[..3], b[..3]);
    assert_eq!(a[a.len() - 1], b[b.len() - 1]);
    assert_ne!(a[3], b[3]);
}

#[test]
fn extra_cells_ignored_missing_cells_blank() {
    let columns = strings(&["a", "b"]);
    let rows = vec![strings(&["x", "y", "zzzzzz"]), strings(&["w"])];
    let fitted = vec![strings(&["x", "y"]), strings(&["w", ""])];
    assert_eq!(
        render_table(&columns, &rows, &[Alignment::Right]),
        render_table(&columns, &fitted, &[Alignment::Right])
    );
}

#[test]
fn rule_is_as_wide_as_rows_that_fit_and_grows_by_one_per_unit() {
    let widths = [3usize, 1, 4];
    let row = data_row(&strings(&["abc", "", "xy"]), &widths, &[Alignment::Right]);
    let sep = separator(&widths);
    assert_eq!(sep.chars().count(), row.chars().count());
    assert!(!sep.contains(' '));
    assert_eq!(sep.matches('\n').count(), 1);
    assert!(sep.ends_with('\n'));
    let grown = separator(&[3, 6, 4]);
    assert_eq!(grown.chars().count(), sep.chars().count() + 5);
}
