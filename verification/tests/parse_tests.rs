use dualis_notifier::parse::{
    extract_from_document, extract_table, pad, remove_whitespace, ExtractError, HtmlNode,
};
use dualis_notifier::spans::{expand_spans, Cell};
use dualis_notifier::table::{value, Table};

fn column(table: &Table, name: &str) -> Vec<String> {
    table
        .rows
        .iter()
        .map(|row| value(row, name).to_owned())
        .collect()
}

#[test]
fn whitespace_and_hidden_content_match_pandas() {
    // Expected values were produced by pandas 2.2.2 `read_html`.
    let html = "<table><tr><th>A</th><th>B</th><th>&nbsp;</th></tr>\
        <tr><td>x\ty</td><td>\n a\nb&nbsp; c&nbsp;</td><td>z</td></tr>\
        <tr><td>1<span style=\"display: none\">HIDDEN</span>2</td>\
        <td>q<style>.x{}</style>w</td><td>n</td></tr></table>";

    let table = extract_table(html).unwrap();

    assert_eq!(table.columns, ["A", "B"]);
    assert_eq!(column(&table, "A"), ["x\ty", "12"]);
    assert_eq!(column(&table, "B"), ["a b c", "qw"]);

    // A line break is replaced on its own, so the following space stays.
    let table = extract_table(
        "<table><tr><th>A</th><th>B</th></tr><tr><td>x\n y</td><td>p \n q</td></tr></table>",
    )
    .unwrap();
    assert_eq!(column(&table, "A"), ["x  y"]);
    assert_eq!(column(&table, "B"), ["p q"]);
}

#[test]
fn expands_rowspan_and_colspan() {
    let html = "<table><thead><tr><th>A</th><th>B</th><th>C</th></tr></thead><tbody>\
        <tr><td rowspan=\"2\">r</td><td colspan=\"2\">c</td></tr>\
        <tr><td>b</td><td>x</td></tr></tbody></table>";

    let table = extract_table(html).unwrap();

    assert_eq!(column(&table, "A"), ["r", "r"]);
    assert_eq!(column(&table, "B"), ["c", "b"]);
    assert_eq!(column(&table, "C"), ["c", "x"]);
}

#[test]
fn skips_hidden_and_empty_tables_and_blank_rows() {
    let html = "<table style=\"display:none\"><tr><th>Hidden</th></tr></table>\
        <table>\n</table>\
        <table><tr><th>Nr.</th><th>Name</th></tr>\
        <tr><td>1</td><td>A</td></tr><tr><td> </td><td></td></tr></table>";

    let table = extract_table(html).unwrap();

    assert_eq!(table.columns, ["Nr.", "Name"]);
    assert_eq!(table.rows.len(), 1);
}

#[test]
fn page_without_table_is_an_error() {
    let error = extract_table("<html><body>Sitzung abgelaufen</body></html>").unwrap_err();

    assert!(error.message().contains("Keine Tabelle"));
}

#[test]
fn header_rules_and_duplicate_names() {
    // No <th> row and no <thead>: there is no header.
    let error = extract_table("<table><tr><td>a</td></tr></table>").unwrap_err();
    assert_eq!(error, ExtractError::NoHeader);
    assert_eq!(error.message(), "Die Dualis-Tabelle hat keine Kopfzeile.");

    // Of two header rows the last one with text names the columns; repeated
    // names are numbered and a body wider than the header adds unnamed columns.
    let html = "<table><thead><tr><th>Top</th><th>Top</th></tr>\
        <tr><th>X</th><th>X</th></tr></thead>\
        <tbody><tr><td>1</td><td>2</td><td>3</td></tr></tbody>\
        <tfoot><tr><td>f</td><td>g</td></tr></tfoot></table>";
    let table = extract_table(html).unwrap();
    assert_eq!(table.columns, ["X", "X.1"]);
    assert_eq!(column(&table, "X"), ["1", "f"]);
    assert_eq!(column(&table, "X.1"), ["2", "g"]);
}

#[test]
fn whitespace_rules() {
    let text = |s: &str| remove_whitespace(&s.chars().collect());
    assert_eq!(text("  a  b\u{a0}c \u{1c} "), "a b\u{a0}c");
    assert_eq!(text("a\r\n\r\nb"), "a b");
    assert_eq!(text("a\u{a0}\u{a0}b"), "a b");
    assert_eq!(text("\n"), "");
}

#[test]
fn pad_cuts_and_fills() {
    let row = vec!["a".to_string(), "b".to_string()];
    assert_eq!(pad(row.clone(), 3), ["a", "b", ""]);
    assert_eq!(pad(row, 1), ["a"]);
}

#[test]
fn spans_carry_past_the_last_row() {
    let cell = |text: &str, rowspan: usize, colspan: usize| Cell {
        text: text.to_string(),
        rowspan,
        colspan,
    };
    let rows = vec![
        vec![cell("a", 3, 1), cell("b", 1, 2)],
        vec![cell("c", 1, 1)],
    ];
    assert_eq!(
        expand_spans(&rows),
        vec![
            vec!["a", "b", "b"],
            vec!["a", "c"],
            vec!["a"],
        ]
    );
    // A zero colspan places nothing.
    assert_eq!(expand_spans(&vec![vec![cell("z", 1, 0)]]), vec![Vec::<String>::new()]);
}

#[test]
fn reads_a_document_given_as_nodes() {
    let element = |name: &str, attributes: &[(&str, &str)]| HtmlNode::Element {
        name: name.to_string(),
        attributes: attributes
            .iter()
            .map(|(k, v)| (k.to_string(), v.to_string()))
            .collect(),
    };
    let text = |t: &str| HtmlNode::Text(t.to_string());
    // <table><tr><th>N</th><th colspan=" 2 ">M</th></tr><tr><td>1</td><td>2</td><td>3</td></tr></table>
    let document = vec![
        (HtmlNode::Other, 1),
        (element("table", &[]), 2),
        (element("tr", &[]), 2),
        (element("th", &[]), 1),
        (text("N"), 0),
        (element("th", &[("colspan", " 2 ")]), 1),
        (text("M"), 0),
        (element("tr", &[]), 3),
        (element("td", &[]), 1),
        (text("1"), 0),
        (element("td", &[]), 1),
        (text("2"), 0),
        (element("td", &[]), 1),
        (text("3"), 0),
    ];

    let table = extract_from_document(&document).unwrap();

    assert_eq!(table.columns, ["N", "M", "M.1"]);
    assert_eq!(column(&table, "M.1"), ["3"]);
}

#[test]
fn parses_a_results_page_like_dualis() {
    let html = "<!DOCTYPE html><html><head><meta charset=\"utf-8\">\
        <style>td { color: red }</style></head><body>\
        <div id=\"contentSpacer_IE\"><h1>Prüfungsergebnisse</h1>\
        <table class=\"nb list\">\
        <thead><tr><th>Nr.</th><th>Name</th><th>Endnote</th><th>Credits</th><th>Status</th><th></th></tr></thead>\
        <tbody>\
        <tr><td>T3INF1001</td><td>Mathematik&nbsp;I (WiSe 2023/24)</td><td>1,7</td><td>5,0</td><td>bestanden</td><td><a href=\"#\">Prüfungen</a></td></tr>\
        <tr><td>T3INF1002</td><td>\n  Theoretische   Informatik I\n</td><td>noch nicht gesetzt</td><td>5,0</td><td></td><td></td></tr>\
        <tr><td>T3INF1003</td><td>Einführung in die Öffentlichkeitsarbeit – Grundlagen</td><td>2,0</td><td>5,0</td><td>bestanden</td><td></td></tr>\
        <tr><td colspan=\"2\">Semester-GPA</td><td>1,8</td><td>15,0</td><td></td><td></td></tr>\
        </tbody></table></div></body></html>";

    let table = extract_table(html).unwrap();

    assert_eq!(table.columns, ["Nr.", "Name", "Endnote", "Credits", "Status"]);
    assert_eq!(
        column(&table, "Nr."),
        ["T3INF1001", "T3INF1002", "T3INF1003", "Semester-GPA"]
    );
    assert_eq!(
        column(&table, "Name"),
        [
            "Mathematik\u{a0}I (WiSe 2023/24)",
            "Theoretische Informatik I",
            "Einführung in die Öffentlichkeitsarbeit – Grundlagen",
            "Semester-GPA",
        ]
    );
    assert_eq!(column(&table, "Endnote"), ["1,7", "noch nicht gesetzt", "2,0", "1,8"]);
    assert_eq!(column(&table, "Status"), ["bestanden", "", "bestanden", ""]);
}
