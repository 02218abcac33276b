use dualis_notifier::compare::{comparison_key, grouped_value, key_form_of, trim_fraction, KeyForm};
use dualis_notifier::state::{
    baseline, comparison_keys, identifier_column, reconcile, Event, EventKind, FieldChange,
    StateError, LAST_SEEN_COLUMN, MISSING_SINCE_COLUMN,
};
use dualis_notifier::table::{value, StrMap, Table};

const COLUMNS: [&str; 5] = ["Nr.", "Name", "Endnote", "Credits", "Status"];

fn grades(rows: &[[&str; 5]]) -> Table {
    let rows: Vec<Vec<String>> = rows
        .iter()
        .map(|row| row.iter().map(|v| v.to_string()).collect())
        .collect();
    Table::from_rows(&COLUMNS, &rows)
}

fn initial() -> Table {
    grades(&[["M-101", "Mathematik", "1,7", "5", "bestanden"]])
}

/// The comparison keys for two tables whose values need no float formatting.
fn keys(previous: &Table, current: &Table) -> StrMap {
    let (keys, pending) = comparison_keys(previous, current);
    assert!(pending.is_empty(), "{pending:?}");
    keys
}

fn run(previous: &Table, current: &Table, observed_at: &str) -> Result<(Table, Vec<Event>), StateError> {
    reconcile(previous, current, observed_at, &keys(previous, current))
}

/// Python's `format(number, "g")`, to finish the comparison key of a number.
fn format_g(number: f64) -> String {
    if number == 0.0 {
        return if number.is_sign_negative() { "-0" } else { "0" }.to_owned();
    }
    let scientific = format!("{number:.5e}");
    let (mantissa, exponent) = scientific.split_once('e').expect("exponent format");
    let exponent: i32 = exponent.parse().expect("integer exponent");
    if (-4..6).contains(&exponent) {
        let decimals = (5 - exponent) as usize;
        trim_fraction(&format!("{number:.decimals$}")).to_owned()
    } else {
        let sign = if exponent < 0 { '-' } else { '+' };
        format!("{}e{sign}{:02}", trim_fraction(mantissa), exponent.abs())
    }
}

fn full_key(raw: &str) -> String {
    match comparison_key(raw) {
        KeyForm::Text(text) => text,
        KeyForm::Number(number) => format_g(number.parse().unwrap()),
    }
}

fn new_field(column: &str, new: &str) -> FieldChange {
    FieldChange {
        column: column.to_owned(),
        old: None,
        new: new.to_owned(),
    }
}

fn changed_field(column: &str, old: &str, new: &str) -> FieldChange {
    FieldChange {
        column: column.to_owned(),
        old: Some(old.to_owned()),
        new: new.to_owned(),
    }
}

fn new(name: &str, fields: Vec<FieldChange>) -> Event {
    Event {
        kind: EventKind::New,
        name: name.to_owned(),
        fields,
    }
}

fn changed(name: &str, fields: Vec<FieldChange>) -> Event {
    Event {
        kind: EventKind::Changed,
        name: name.to_owned(),
        fields,
    }
}

#[test]
fn new_module_creates_new_event() {
    let (_, events) = run(&Table::default(), &initial(), "2026-09-14T06:00:00+00:00").unwrap();

    assert_eq!(
        events,
        [new(
            "Mathematik",
            vec![
                new_field("Endnote", "1,7"),
                new_field("Credits", "5"),
                new_field("Status", "bestanden"),
            ]
        )]
    );
}

#[test]
fn changed_grade_creates_changed_event() {
    let (state, _) = run(&Table::default(), &initial(), "2026-09-14T06:00:00+00:00").unwrap();
    let updated = grades(&[["M-101", "Mathematik", "1,3", "5", "bestanden"]]);

    let (_, events) = run(&state, &updated, "2026-09-14T06:15:00+00:00").unwrap();

    assert_eq!(
        events,
        [changed("Mathematik", vec![changed_field("Endnote", "1,7", "1,3")])]
    );
}

#[test]
fn missing_module_is_marked_without_notification() {
    let (state, _) = run(&Table::default(), &initial(), "2026-09-14T06:00:00+00:00").unwrap();

    let (missing_state, events) = run(&state, &grades(&[]), "2026-09-14T06:15:00+00:00").unwrap();

    assert_eq!(events, []);
    assert_eq!(
        value(&missing_state.rows[0], MISSING_SINCE_COLUMN),
        "2026-09-14T06:15:00+00:00"
    );
    assert_eq!(
        value(&missing_state.rows[0], LAST_SEEN_COLUMN),
        "2026-09-14T06:00:00+00:00"
    );
}

#[test]
fn unchanged_module_reappearing_after_absence_is_silent() {
    let (state, _) = run(&Table::default(), &initial(), "2026-09-14T06:00:00+00:00").unwrap();
    let (missing_state, _) = run(&state, &grades(&[]), "2026-09-14T06:15:00+00:00").unwrap();

    let (restored_state, events) = run(&missing_state, &initial(), "2026-09-14T06:30:00+00:00").unwrap();

    assert_eq!(events, []);
    assert_eq!(value(&restored_state.rows[0], MISSING_SINCE_COLUMN), "");
}

#[test]
fn missing_since_keeps_first_timestamp() {
    let (state, _) = run(&Table::default(), &initial(), "06:00").unwrap();
    let (state, _) = run(&state, &grades(&[]), "06:15").unwrap();

    let (state, _) = run(&state, &grades(&[]), "06:30").unwrap();

    assert_eq!(value(&state.rows[0], MISSING_SINCE_COLUMN), "06:15");
}

#[test]
fn summary_row_is_ignored() {
    let current = grades(&[
        ["M-101", "Mathematik", "1,7", "5", "bestanden"],
        ["Semester-GPA", "Semester-GPA", "1,7", "5", ""],
    ]);

    let (state, events) = run(&Table::default(), &current, "t").unwrap();

    assert_eq!(
        events,
        [new(
            "Mathematik",
            vec![
                new_field("Endnote", "1,7"),
                new_field("Credits", "5"),
                new_field("Status", "bestanden"),
            ]
        )]
    );
    assert_eq!(state.rows.len(), 1);
}

#[test]
fn falls_back_to_unique_name_without_module_number() {
    let current = Table::from_rows(&["Name", "Endnote"], &[vec!["Mathe".into(), "2,0".into()]]);

    assert_eq!(
        identifier_column(&current, &keys(&Table::default(), &current)).unwrap(),
        "Name"
    );
}

#[test]
fn duplicate_identifiers_are_rejected() {
    let current = grades(&[
        ["M-101", "Mathe", "1,0", "5", ""],
        ["M-101", "Mathe", "2,0", "5", ""],
    ]);

    assert!(run(&Table::default(), &current, "t").is_err());
}

#[test]
fn comparison_key_matches_pandas_coercion() {
    // Expected values were produced by pandas 2.2.2 `read_html` plus
    // Python's `str.strip()`.
    let cases = [
        ("1,7", "17"),
        ("5,0", "50"),
        ("5", "5"),
        ("5.0", "5"),
        ("05", "5"),
        ("1,000", "1000"),
        ("12,500", "12500"),
        ("1.5", "1.5"),
        ("2.25", "2.25"),
        ("1.", "1"),
        ("1e3", "1000"),
        ("0.1", "0.1"),
        ("+4", "4"),
        ("-3", "-3"),
        ("n/a", ""),
        ("NA", ""),
        ("  bestanden ", "bestanden"),
        ("noch nicht gesetzt", "noch nicht gesetzt"),
        ("T3INF1001", "T3INF1001"),
    ];
    for (raw, expected) in cases {
        assert_eq!(full_key(raw), expected, "value {raw:?}");
    }
}

#[test]
fn comparison_key_keeps_numbers_for_formatting() {
    assert_eq!(comparison_key("5.0"), KeyForm::Number("5.0".to_owned()));
    assert_eq!(comparison_key(" 1,000.5 "), KeyForm::Number("1000.5".to_owned()));
    assert_eq!(comparison_key("-0"), KeyForm::Text("0".to_owned()));
    assert_eq!(
        comparison_key("9223372036854775808"),
        KeyForm::Number("9223372036854775808".to_owned())
    );
    assert_eq!(
        comparison_key("-9223372036854775808"),
        KeyForm::Text("-9223372036854775808".to_owned())
    );
    assert_eq!(comparison_key("1,,0"), KeyForm::Text("1,,0".to_owned()));
}

#[test]
fn baseline_records_every_module_once() {
    let current = grades(&[
        ["M-101", "Mathematik", "1,7", "5", "bestanden"],
        ["M-102", "Physik", "", "5", ""],
    ]);

    let state = baseline(&current, "t", &keys(&Table::default(), &current)).unwrap();

    assert_eq!(
        state.columns,
        ["Nr.", "Name", "Endnote", "Credits", "Status", LAST_SEEN_COLUMN, MISSING_SINCE_COLUMN]
    );
    assert_eq!(state.rows.len(), 2);
    assert_eq!(value(&state.rows[1], "Name"), "Physik");
    assert_eq!(value(&state.rows[1], LAST_SEEN_COLUMN), "t");
}

#[test]
fn duplicate_cache_ids_are_an_error() {
    let cache = grades(&[
        ["M-101", "Mathe", "1,0", "5", ""],
        ["M-101", "Mathe", "2,0", "5", ""],
    ]);

    let error = run(&cache, &initial(), "t").unwrap_err();

    assert_eq!(error, StateError::DuplicateCacheIds);
    assert!(error.message().contains("doppelte Modulkennungen"));
}

#[test]
fn missing_identifier_is_an_error() {
    let current = Table::from_rows(&["Endnote"], &[vec!["2,0".into()]]);

    assert_eq!(run(&Table::default(), &current, "t").unwrap_err(), StateError::NoIdentifier);
}

#[test]
fn unchanged_rerun_is_silent() {
    let (state, _) = run(&Table::default(), &initial(), "06:00").unwrap();

    let (again, events) = run(&state, &initial(), "06:15").unwrap();

    assert_eq!(events, []);
    assert_eq!(value(&again.rows[0], LAST_SEEN_COLUMN), "06:15");
}

#[test]
fn only_values_whose_comparison_form_changed_are_reported() {
    let (state, _) = run(&Table::default(), &initial(), "06:00").unwrap();
    // Padding and a re-formatted number compare equal to the cached values.
    let padded = grades(&[["M-101", "Mathematik", " 1,7 ", "05", "bestanden"]]);

    let (state, events) = run(&state, &padded, "06:15").unwrap();
    assert_eq!(events, []);

    let updated = grades(&[["M-101", "Mathematik", "1,7", "6", "bestanden "]]);
    let (_, events) = run(&state, &updated, "06:30").unwrap();
    assert_eq!(
        events,
        [changed("Mathematik", vec![changed_field("Credits", "05", "6")])]
    );
}

#[test]
fn unchanged_rerun_only_moves_last_seen() {
    let previous = grades(&[
        ["M-101", "Mathematik", "1,7", "5", "bestanden"],
        ["M-102", "Statistik", "2,0", "5", "bestanden"],
    ]);
    let (state, _) = run(&Table::default(), &previous, "06:00").unwrap();
    let (state, _) = run(&state, &initial(), "06:15").unwrap();

    let (again, events) = run(&state, &initial(), "06:30").unwrap();

    assert_eq!(events, []);
    assert_eq!(again.columns, state.columns);
    assert_eq!(again.rows.len(), 2);
    assert_eq!(value(&again.rows[0], LAST_SEEN_COLUMN), "06:30");
    assert_eq!(value(&again.rows[0], "Endnote"), "1,7");
    assert_eq!(value(&again.rows[1], LAST_SEEN_COLUMN), "06:00");
    assert_eq!(value(&again.rows[1], MISSING_SINCE_COLUMN), "06:15");
    assert_eq!(value(&again.rows[1], "Name"), "Statistik");
}

#[test]
fn one_module_hidden_then_republished_is_silent() {
    let both = grades(&[
        ["M-101", "Mathematik", "1,7", "5", "bestanden"],
        ["M-102", "Statistik", "2,0", "5", "bestanden"],
    ]);
    let only_second = grades(&[["M-102", "Statistik", "2,0", "5", "bestanden"]]);
    let (state, _) = run(&Table::default(), &both, "06:00").unwrap();

    let (hidden_state, hidden_events) = run(&state, &only_second, "06:15").unwrap();
    let (restored, events) = run(&hidden_state, &both, "06:30").unwrap();

    assert_eq!(hidden_events, []);
    assert_eq!(value(&hidden_state.rows[1], "Nr."), "M-101");
    assert_eq!(value(&hidden_state.rows[1], MISSING_SINCE_COLUMN), "06:15");
    assert_eq!(events, []);
    assert_eq!(value(&restored.rows[0], "Nr."), "M-101");
    assert_eq!(value(&restored.rows[0], MISSING_SINCE_COLUMN), "");
    assert_eq!(value(&restored.rows[0], LAST_SEEN_COLUMN), "06:30");
}

#[test]
fn missing_since_kept_while_other_modules_show() {
    let both = grades(&[
        ["M-101", "Mathematik", "1,7", "5", "bestanden"],
        ["M-102", "Statistik", "2,0", "5", "bestanden"],
    ]);
    let only_second = grades(&[["M-102", "Statistik", "2,0", "5", "bestanden"]]);
    let (state, _) = run(&Table::default(), &both, "06:00").unwrap();
    let (state, _) = run(&state, &only_second, "06:15").unwrap();

    let (state, events) = run(&state, &only_second, "06:30").unwrap();

    assert_eq!(events, []);
    assert_eq!(value(&state.rows[1], "Nr."), "M-101");
    assert_eq!(value(&state.rows[1], MISSING_SINCE_COLUMN), "06:15");
    assert_eq!(value(&state.rows[1], LAST_SEEN_COLUMN), "06:00");
    assert_eq!(value(&state.rows[0], LAST_SEEN_COLUMN), "06:30");
}

#[test]
fn grouping_drops_commas_only_of_thousands_numbers() {
    assert_eq!(grouped_value("1,000", true), "1000");
    assert_eq!(grouped_value("1,000", false), "1,000");
    assert_eq!(grouped_value("100", true), "100");
}

#[test]
fn form_of_a_read_value() {
    assert_eq!(key_form_of("0005".to_owned(), true, true), KeyForm::Text("5".to_owned()));
    assert_eq!(key_form_of("+7".to_owned(), true, true), KeyForm::Text("7".to_owned()));
    assert_eq!(
        key_form_of("9223372036854775808".to_owned(), true, true),
        KeyForm::Number("9223372036854775808".to_owned())
    );
    assert_eq!(key_form_of("1.50".to_owned(), false, true), KeyForm::Number("1.50".to_owned()));
    assert_eq!(key_form_of("abc".to_owned(), false, false), KeyForm::Text("abc".to_owned()));
    assert_eq!(key_form_of("12".to_owned(), false, false), KeyForm::Text("12".to_owned()));
}

#[test]
fn stored_state_layout() {
    let both = grades(&[
        ["M-101", "Mathematik", "1,7", "5", "bestanden"],
        ["M-102", "Statistik", "2,0", "5", "bestanden"],
    ]);
    let (state, _) = run(&Table::default(), &both, "06:00").unwrap();
    let only_second = grades(&[["M-102", " Statistik ", "2,0", "5", "bestanden"]]);

    let (state, _) = run(&state, &only_second, "06:15").unwrap();

    let mut columns: Vec<String> = COLUMNS.iter().map(|c| c.to_string()).collect();
    columns.push(LAST_SEEN_COLUMN.to_owned());
    columns.push(MISSING_SINCE_COLUMN.to_owned());
    assert_eq!(state.columns, columns);
    assert_eq!(state.rows.len(), 2);
    assert_eq!(value(&state.rows[0], "Nr."), "M-102");
    assert_eq!(value(&state.rows[0], "Name"), "Statistik");
    assert_eq!(value(&state.rows[0], LAST_SEEN_COLUMN), "06:15");
    assert_eq!(value(&state.rows[0], MISSING_SINCE_COLUMN), "");
    assert_eq!(value(&state.rows[1], "Nr."), "M-101");
    assert_eq!(value(&state.rows[1], LAST_SEEN_COLUMN), "06:00");
    assert_eq!(value(&state.rows[1], MISSING_SINCE_COLUMN), "06:15");
}
