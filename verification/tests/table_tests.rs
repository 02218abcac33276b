use dualis_notifier::table::{column_names, dedup_names, value, Table};

fn strings(names: &[&str]) -> Vec<String> {
    names.iter().map(|s| s.to_string()).collect()
}

#[test]
fn duplicate_names_get_numeric_suffixes() {
    let names = strings(&["A", "B", "A", "A"]);

    assert_eq!(dedup_names(names), ["A", "B", "A.1", "A.2"]);
}

#[test]
fn suffix_skips_names_taken_by_real_columns() {
    let names = strings(&["A", "A", "A.1"]);

    assert_eq!(dedup_names(names), ["A", "A.2", "A.1"]);
}

#[test]
fn from_rows_pads_short_rows() {
    let table = Table::from_rows(&["A", "B"], &[vec!["1".into()]]);

    assert_eq!(value(&table.rows[0], "A"), "1");
    assert_eq!(value(&table.rows[0], "B"), "");
}

#[test]
fn empty_headers_become_unnamed_columns() {
    let names = strings(&["Nr.", "", "Name", ""]);

    assert_eq!(column_names(names), ["Nr.", "Unnamed: 1", "Name", "Unnamed: 3"]);
}
