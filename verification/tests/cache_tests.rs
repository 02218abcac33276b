use dualis_notifier::cache::{cache_csv, cache_from_csv, cache_rows, table_from_csv};
use dualis_notifier::notifier::{plan_run, Plan};
use dualis_notifier::state::{comparison_keys, EventKind, LAST_SEEN_COLUMN, MISSING_SINCE_COLUMN};
use dualis_notifier::table::{value, StrMap, Table};

fn strings(v: &[&str]) -> Vec<String> {
    v.iter().map(|s| s.to_string()).collect()
}

#[test]
fn pandas_index_column_is_dropped_and_short_records_are_filled() {
    let headers = strings(&["", "Nr.", "Name", "Nr."]);
    let records = vec![strings(&["0", "M-1", "Mathe", "x"]), strings(&["1", "M-2"])];

    let table = table_from_csv(headers, &records);

    assert_eq!(table.columns, ["Nr.", "Name", "Nr..1"]);
    assert_eq!(table.rows.len(), 2);
    assert_eq!(value(&table.rows[0], "Name"), "Mathe");
    assert_eq!(value(&table.rows[0], "Nr..1"), "x");
    assert_eq!(value(&table.rows[1], "Nr."), "M-2");
    assert_eq!(value(&table.rows[1], "Name"), "");
}

#[test]
fn cache_rows_round_trip() {
    let rows = vec![strings(&["M-101", "Mathe, \"Teil 1\"", "1,7"])];
    let table = Table::from_rows(&["Nr.", "Name", "Endnote"], &rows);

    let written = cache_rows(&table);
    assert_eq!(written[0], ["Nr.", "Name", "Endnote"]);
    assert_eq!(written[1], ["M-101", "Mathe, \"Teil 1\"", "1,7"]);

    let read = table_from_csv(written[0].clone(), &written[1..].to_vec());
    assert_eq!(read.columns, table.columns);
    assert_eq!(value(&read.rows[0], "Name"), "Mathe, \"Teil 1\"");
}

fn keys(previous: &Table, current: &Table) -> StrMap {
    let (keys, pending) = comparison_keys(previous, current);
    assert!(pending.is_empty(), "{pending:?}");
    keys
}

#[test]
fn first_run_stores_a_silent_baseline() {
    let current = Table::from_rows(&["Nr.", "Name", "Endnote"], &[strings(&["M-1", "Mathe", "1,7"])]);
    let empty = Table::empty();
    let keys = keys(&empty, &current);

    for previous in [None, Some(Table::empty())] {
        match plan_run(previous, &current, "2026-09-14T06:00:00+00:00", &keys).unwrap() {
            Plan::Baseline(state) => {
                assert_eq!(
                    state.columns,
                    ["Nr.", "Name", "Endnote", LAST_SEEN_COLUMN, MISSING_SINCE_COLUMN]
                );
                assert_eq!(value(&state.rows[0], LAST_SEEN_COLUMN), "2026-09-14T06:00:00+00:00");
            }
            Plan::Report { .. } => panic!("expected a baseline"),
        }
    }
}

#[test]
fn later_runs_announce_changes() {
    let columns = ["Nr.", "Name", "Endnote"];
    let previous = Table::from_rows(&columns, &[strings(&["M-1", "Mathe", "1,3"])]);
    let current = Table::from_rows(&columns, &[strings(&["M-1", "Mathe", "1,7"])]);
    let keys = keys(&previous, &current);

    match plan_run(Some(previous), &current, "t", &keys).unwrap() {
        Plan::Report { events, notifications, state } => {
            assert_eq!(events.len(), 1);
            assert_eq!(events[0].kind, EventKind::Changed);
            assert_eq!(notifications.len(), 1);
            assert_eq!(notifications[0].title, "Note geändert: Mathe");
            assert_eq!(value(&state.rows[0], "Endnote"), "1,7");
        }
        Plan::Baseline(_) => panic!("expected a report"),
    }
}

#[test]
fn cache_file_bytes_round_trip() {
    let rows = vec![strings(&["M-101", "Mathe, \"Teil 1\"", "1,7"])];
    let table = Table::from_rows(&["Nr.", "Name", "Endnote"], &rows);

    let bytes = cache_csv(&table).unwrap();
    assert_eq!(
        String::from_utf8(bytes.clone()).unwrap(),
        "Nr.,Name,Endnote\nM-101,\"Mathe, \"\"Teil 1\"\"\",\"1,7\"\n"
    );

    let read = cache_from_csv(&bytes).unwrap();
    assert_eq!(read.columns, table.columns);
    assert_eq!(value(&read.rows[0], "Name"), "Mathe, \"Teil 1\"");
    assert_eq!(value(&read.rows[0], "Endnote"), "1,7");
}

#[test]
fn cache_file_with_index_and_short_rows() {
    let bytes = b",Nr.,Name\n0,M-1,Mathe\n1,M-2\n";
    let table = cache_from_csv(bytes).unwrap();
    assert_eq!(table.columns, ["Nr.", "Name"]);
    assert_eq!(value(&table.rows[1], "Nr."), "M-2");
    assert_eq!(value(&table.rows[1], "Name"), "");

    let error = cache_from_csv(b"Nr.\n\xff\n").unwrap_err();
    assert!(!error.in_header);
    let error = cache_from_csv(b"\xff,Nr.\n").unwrap_err();
    assert!(error.in_header);
}
