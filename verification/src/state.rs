//! The grade cache and change detection.
//!
//! Modules that vanish from Dualis stay in the cache and only get a
//! "missing since" timestamp. If they reappear unchanged, nothing is reported.

use vstd::prelude::*;

use crate::table::{
    lemma_some_values_step, lemma_take_push_contains, lookup, some_values, texts, value, Record,
    StrMap, Table, TableView,
};
use crate::compare::{comparison_key, key_form_spec, KeyForm};
use crate::text::{contains_text, normalise_spec, normalise_value, same_text, to_string};

verus! {

pub const LAST_SEEN_COLUMN: &'static str = "_notifier_last_seen";

pub const MISSING_SINCE_COLUMN: &'static str = "_notifier_missing_since";

/// The comparison key of `s` in a map of comparison keys: that of `s`
/// stripped like Python's `str.strip()`, since the comparison form of a value
/// never depends on the white space around it; an absent value compares as empty.
pub open spec fn key_of(keys: Map<Seq<char>, Seq<char>>, s: Seq<char>) -> Seq<char> {
    lookup(keys, normalise_spec(s))
}

/// A summary row such as "Semester-GPA", which is no module.
pub open spec fn summary_row(row: Map<Seq<char>, Seq<char>>) -> bool {
    normalise_spec(lookup(row, "Name"@)) == "Semester-GPA"@
}

/// The row with a normalised value for every column.
pub open spec fn prepared_row(columns: Seq<Seq<char>>, row: Map<Seq<char>, Seq<char>>) -> Map<
    Seq<char>,
    Seq<char>,
> {
    Map::new(|c: Seq<char>| columns.contains(c), |c: Seq<char>| normalise_spec(lookup(row, c)))
}

/// The grades without summary rows, each value normalised.
pub open spec fn prepare_spec(t: TableView) -> TableView {
    TableView {
        columns: t.columns,
        rows: some_values(
            t.rows.map_values(
                |r: Map<Seq<char>, Seq<char>>|
                    if summary_row(r) {
                        None
                    } else {
                        Some(prepared_row(t.columns, r))
                    },
            ),
        ),
    }
}

/// Whether `column` identifies the modules of `t`: it exists, and every row has
/// a non-empty comparison key in it that no other row has.
pub open spec fn usable_identifier(
    t: TableView,
    column: Seq<char>,
    keys: Map<Seq<char>, Seq<char>>,
) -> bool {
    &&& t.columns.contains(column)
    &&& forall|i: int|
        0 <= i < t.rows.len() ==> #[trigger] key_of(keys, lookup(t.rows[i], column)).len() > 0
    &&& forall|i: int, j: int|
        0 <= i < j < t.rows.len() ==> key_of(keys, lookup(#[trigger] t.rows[i], column))
            != key_of(keys, lookup(#[trigger] t.rows[j], column))
}

/// The module number, or else a unique module name.
pub open spec fn identifier_spec(t: TableView, keys: Map<Seq<char>, Seq<char>>) -> Option<
    Seq<char>,
> {
    if usable_identifier(t, "Nr."@, keys) {
        Some("Nr."@)
    } else if usable_identifier(t, "Name"@, keys) {
        Some("Name"@)
    } else {
        None
    }
}

/// Why the cache cannot be merged with the latest results.
#[derive(Debug, Clone, Copy, PartialEq, Eq, Structural)]
pub enum StateError {
    /// Neither "Nr." nor "Name" identifies every module uniquely.
    NoIdentifier,
    /// The cache holds two rows for one module.
    DuplicateCacheIds,
}

impl StateError {
    /// The message shown for the error.
    pub fn message(&self) -> (r: String)
        ensures
            r@ == (match self {
                StateError::NoIdentifier => "Keine eindeutige Modulkennung gefunden. Erwartet wird eine eindeutige Spalte 'Nr.' oder 'Name'."@,
                StateError::DuplicateCacheIds => "Der Noten-Cache enthält doppelte Modulkennungen."@,
            }),
    {
        match self {
            StateError::NoIdentifier => to_string(
                "Keine eindeutige Modulkennung gefunden. Erwartet wird eine eindeutige Spalte 'Nr.' oder 'Name'.",
            ),
            StateError::DuplicateCacheIds => to_string(
                "Der Noten-Cache enthält doppelte Modulkennungen.",
            ),
        }
    }
}

/// Whether a module is new or has changed.
#[derive(Debug, Clone, Copy, PartialEq, Eq, Structural)]
pub enum EventKind {
    New,
    Changed,
}

impl EventKind {
    pub fn label(self) -> (r: &'static str)
        ensures
            r@ == (match self {
                EventKind::New => "New"@,
                EventKind::Changed => "Changed"@,
            }),
    {
        match self {
            EventKind::New => "New",
            EventKind::Changed => "Changed",
        }
    }
}

/// One column that differs between the cache and the latest Dualis response.
/// `old` is `None` for a brand-new module, which has nothing to compare to.
#[derive(Debug, Clone, PartialEq, Eq)]
pub struct FieldChange {
    pub column: String,
    pub old: Option<String>,
    pub new: String,
}

/// What a field change says.
pub struct FieldChangeView {
    pub column: Seq<char>,
    pub old: Option<Seq<char>>,
    pub new: Seq<char>,
}

impl View for FieldChange {
    type V = FieldChangeView;

    open spec fn view(&self) -> FieldChangeView {
        FieldChangeView {
            column: self.column@,
            old: match self.old {
                Some(o) => Some(o@),
                None => None,
            },
            new: self.new@,
        }
    }
}

/// A module to report: new, or with changed values.
#[derive(Debug, Clone, PartialEq, Eq)]
pub struct Event {
    pub kind: EventKind,
    pub name: String,
    pub fields: Vec<FieldChange>,
}

/// What an event says.
pub struct EventView {
    pub kind: EventKind,
    pub name: Seq<char>,
    pub fields: Seq<FieldChangeView>,
}

impl View for Event {
    type V = EventView;

    open spec fn view(&self) -> EventView {
        EventView {
            kind: self.kind,
            name: self.name@,
            fields: self.fields@.map_values(|f: FieldChange| f@),
        }
    }
}

/// The columns in which the notifier keeps its own bookkeeping.
pub open spec fn state_column(c: Seq<char>) -> bool {
    c == "_notifier_last_seen"@ || c == "_notifier_missing_since"@
}

/// The columns of `s` in order of first appearance, without bookkeeping columns.
pub open spec fn value_columns_spec(s: Seq<Seq<char>>) -> Seq<Seq<char>>
    decreases s.len(),
{
    if s.len() == 0 {
        Seq::empty()
    } else {
        let before = value_columns_spec(s.drop_last());
        if state_column(s.last()) || before.contains(s.last()) {
            before
        } else {
            before.push(s.last())
        }
    }
}

/// The comparison key of a row's identifier.
pub open spec fn row_key(
    keys: Map<Seq<char>, Seq<char>>,
    row: Map<Seq<char>, Seq<char>>,
    key_column: Seq<char>,
) -> Seq<char> {
    key_of(keys, lookup(row, key_column))
}

/// The cached rows that can be matched: those with an identifier, if the cache
/// has the identifier column at all.
pub open spec fn cached_rows(
    previous: TableView,
    key_column: Seq<char>,
    keys: Map<Seq<char>, Seq<char>>,
) -> Seq<Map<Seq<char>, Seq<char>>> {
    if previous.columns.contains(key_column) {
        some_values(
            previous.rows.map_values(
                |r: Map<Seq<char>, Seq<char>>|
                    if row_key(keys, r, key_column).len() > 0 {
                        Some(r)
                    } else {
                        None
                    },
            ),
        )
    } else {
        Seq::empty()
    }
}

/// The cached columns that are carried on.
pub open spec fn cached_columns(previous: TableView, key_column: Seq<char>) -> Seq<Seq<char>> {
    if previous.columns.contains(key_column) {
        previous.columns
    } else {
        Seq::empty()
    }
}

/// Whether two of `rows` have the same identifier.
pub open spec fn duplicate_ids(
    rows: Seq<Map<Seq<char>, Seq<char>>>,
    key_column: Seq<char>,
    keys: Map<Seq<char>, Seq<char>>,
) -> bool {
    exists|i: int, j: int|
        0 <= i < j < rows.len() && row_key(keys, #[trigger] rows[i], key_column) == row_key(
            keys,
            #[trigger] rows[j],
            key_column,
        )
}

/// The position of the cached row with the identifier of `row`, if any.
pub open spec fn match_index(
    cached: Seq<Map<Seq<char>, Seq<char>>>,
    row: Map<Seq<char>, Seq<char>>,
    key_column: Seq<char>,
    keys: Map<Seq<char>, Seq<char>>,
) -> Option<int> {
    if exists|p: int|
        0 <= p < cached.len() && #[trigger] row_key(keys, cached[p], key_column) == row_key(
            keys,
            row,
            key_column,
        ) {
        Some(
            choose|p: int|
                0 <= p < cached.len() && #[trigger] row_key(keys, cached[p], key_column)
                    == row_key(keys, row, key_column),
        )
    } else {
        None
    }
}

/// The stored row for a module in the latest response: its values, seen now, not missing.
pub open spec fn current_record(
    value_columns: Seq<Seq<char>>,
    row: Map<Seq<char>, Seq<char>>,
    observed_at: Seq<char>,
) -> Map<Seq<char>, Seq<char>> {
    Map::new(|c: Seq<char>| value_columns.contains(c), |c: Seq<char>| lookup(row, c)).insert(
        "_notifier_last_seen"@,
        observed_at,
    ).insert("_notifier_missing_since"@, Seq::empty())
}

/// Whether a column is reported in events: not the identifier and not the name.
pub open spec fn reportable(c: Seq<char>, key_column: Seq<char>) -> bool {
    c != key_column && c != "Name"@
}

/// The non-empty reportable values of a new module.
pub open spec fn new_fields(
    value_columns: Seq<Seq<char>>,
    key_column: Seq<char>,
    row: Map<Seq<char>, Seq<char>>,
) -> Seq<FieldChangeView> {
    some_values(
        value_columns.map_values(
            |c: Seq<char>|
                if reportable(c, key_column) && lookup(row, c).len() > 0 {
                    Some(FieldChangeView { column: c, old: None, new: lookup(row, c) })
                } else {
                    None
                },
        ),
    )
}

/// The reportable values of a known module whose comparison keys differ.
pub open spec fn changed_fields(
    value_columns: Seq<Seq<char>>,
    key_column: Seq<char>,
    old: Map<Seq<char>, Seq<char>>,
    row: Map<Seq<char>, Seq<char>>,
    keys: Map<Seq<char>, Seq<char>>,
) -> Seq<FieldChangeView> {
    some_values(
        value_columns.map_values(
            |c: Seq<char>|
                if reportable(c, key_column) && key_of(keys, lookup(old, c)) != key_of(
                    keys,
                    lookup(row, c),
                ) {
                    Some(
                        FieldChangeView {
                            column: c,
                            old: Some(lookup(old, c)),
                            new: lookup(row, c),
                        },
                    )
                } else {
                    None
                },
        ),
    )
}

/// The module's name, or its identifier when it has none.
pub open spec fn event_name(
    record: Map<Seq<char>, Seq<char>>,
    row: Map<Seq<char>, Seq<char>>,
    key_column: Seq<char>,
) -> Seq<char> {
    if lookup(record, "Name"@).len() == 0 {
        lookup(row, key_column)
    } else {
        lookup(record, "Name"@)
    }
}

/// The event for one module of the latest response: new if the cache does not
/// know it, changed if a reportable value compares differently, else none.
pub open spec fn event_for(
    cached: Seq<Map<Seq<char>, Seq<char>>>,
    value_columns: Seq<Seq<char>>,
    key_column: Seq<char>,
    row: Map<Seq<char>, Seq<char>>,
    observed_at: Seq<char>,
    keys: Map<Seq<char>, Seq<char>>,
) -> Option<EventView> {
    let name = event_name(current_record(value_columns, row, observed_at), row, key_column);
    match match_index(cached, row, key_column, keys) {
        None => Some(
            EventView {
                kind: EventKind::New,
                name,
                fields: new_fields(value_columns, key_column, row),
            },
        ),
        Some(p) => {
            let fields = changed_fields(value_columns, key_column, cached[p], row, keys);
            if fields.len() > 0 {
                Some(EventView { kind: EventKind::Changed, name, fields })
            } else {
                None
            }
        },
    }
}

/// Whether the latest response holds the module of the cached row `old`.
pub open spec fn seen_now(
    current_rows: Seq<Map<Seq<char>, Seq<char>>>,
    old: Map<Seq<char>, Seq<char>>,
    key_column: Seq<char>,
    keys: Map<Seq<char>, Seq<char>>,
) -> bool {
    exists|j: int|
        0 <= j < current_rows.len() && row_key(keys, old, key_column) == row_key(
            keys,
            #[trigger] current_rows[j],
            key_column,
        )
}

/// A cached module that is missing now: its values, last seen as before, and
/// missing since the first run that missed it.
pub open spec fn stale_record(
    value_columns: Seq<Seq<char>>,
    old: Map<Seq<char>, Seq<char>>,
    observed_at: Seq<char>,
) -> Map<Seq<char>, Seq<char>> {
    let since = normalise_spec(lookup(old, "_notifier_missing_since"@));
    Map::new(
        |c: Seq<char>| value_columns.contains(c),
        |c: Seq<char>| normalise_spec(lookup(old, c)),
    ).insert("_notifier_last_seen"@, normalise_spec(lookup(old, "_notifier_last_seen"@))).insert(
        "_notifier_missing_since"@,
        if since.len() == 0 {
            observed_at
        } else {
            since
        },
    )
}

/// The merged state and the events for one run.
pub open spec fn reconcile_spec(
    previous: TableView,
    current: TableView,
    observed_at: Seq<char>,
    keys: Map<Seq<char>, Seq<char>>,
) -> Result<(TableView, Seq<EventView>), StateError> {
    let cur = prepare_spec(current);
    match identifier_spec(cur, keys) {
        None => Err(StateError::NoIdentifier),
        Some(kc) => {
            let cached = cached_rows(previous, kc, keys);
            if duplicate_ids(cached, kc, keys) {
                Err(StateError::DuplicateCacheIds)
            } else {
                let vc = value_columns_spec(cur.columns + cached_columns(previous, kc));
                let rows = cur.rows.map_values(
                    |r: Map<Seq<char>, Seq<char>>| current_record(vc, r, observed_at),
                ) + some_values(
                    cached.map_values(
                        |o: Map<Seq<char>, Seq<char>>|
                            if seen_now(cur.rows, o, kc, keys) {
                                None
                            } else {
                                Some(stale_record(vc, o, observed_at))
                            },
                    ),
                );
                let events = some_values(
                    cur.rows.map_values(
                        |r: Map<Seq<char>, Seq<char>>|
                            event_for(cached, vc, kc, r, observed_at, keys),
                    ),
                );
                Ok(
                    (
                        TableView {
                            columns: vc + seq!["_notifier_last_seen"@, "_notifier_missing_since"@],
                            rows,
                        },
                        events,
                    ),
                )
            }
        },
    }
}

/// The comparison key that `keys` gives `s`.
pub fn key_for<'a>(keys: &'a StrMap, s: &str) -> (r: &'a str)
    ensures
        r@ == key_of(keys@, s@),
{
    value(keys, normalise_value(s))
}

/// The row with a normalised value for every column.
fn prepare_row(columns: &Vec<String>, row: &Record) -> (r: Record)
    ensures
        r@ == prepared_row(texts(columns@), row@),
{
    let ghost cols = texts(columns@);
    let mut r = StrMap::new();
    let mut c: usize = 0;
    while c < columns.len()
        invariant
            c <= columns.len(),
            cols == texts(columns@),
            r@ =~= Map::new(
                |k: Seq<char>| cols.take(c as int).contains(k),
                |k: Seq<char>| normalise_spec(lookup(row@, k)),
            ),
        decreases columns.len() - c,
    {
        let v = normalise_value(value(row, columns[c].as_str()));
        let ghost before = r@;
        r.insert(columns[c].clone(), to_string(v));
        proof {
            assert(cols[c as int] == columns@[c as int]@);
            assert forall|k: Seq<char>| #![auto] cols.take(c + 1).contains(k) <==> (cols.take(
                c as int,
            ).contains(k) || cols[c as int] == k) by {
                lemma_take_push_contains(cols, c as int, k);
            }
            assert(r@ == before.insert(cols[c as int], normalise_spec(lookup(row@, cols[c as int]))));
            assert forall|k: Seq<char>| r@.contains_key(k) <==> cols.take(c + 1).contains(k) by {
                lemma_take_push_contains(cols, c as int, k);
            }
            assert(r@ =~= Map::new(
                |k: Seq<char>| cols.take(c + 1).contains(k),
                |k: Seq<char>| normalise_spec(lookup(row@, k)),
            ));
        }
        c += 1;
    }
    assert(cols.take(columns.len() as int) =~= cols);
    r
}

/// Remove summary rows and normalise every grade value before comparison.
pub fn prepare_grades(table: &Table) -> (r: Table)
    ensures
        r@ == prepare_spec(table@),
{
    let ghost opts = table@.rows.map_values(
        |r: Map<Seq<char>, Seq<char>>|
            if summary_row(r) {
                None
            } else {
                Some(prepared_row(table@.columns, r))
            },
    );
    let mut rows: Vec<Record> = Vec::new();
    let mut i: usize = 0;
    while i < table.rows.len()
        invariant
            i <= table.rows.len(),
            opts == table@.rows.map_values(
                |r: Map<Seq<char>, Seq<char>>|
                    if summary_row(r) {
                        None
                    } else {
                        Some(prepared_row(table@.columns, r))
                    },
            ),
            rows@.map_values(|r: Record| r@) == some_values(opts.take(i as int)),
        decreases table.rows.len() - i,
    {
        let row = &table.rows[i];
        let name = normalise_value(value(row, "Name"));
        proof {
            lemma_some_values_step(opts, i as int);
            assert(opts[i as int] == (if summary_row(row@) {
                None
            } else {
                Some(prepared_row(table@.columns, row@))
            }));
        }
        if !same_text(name, "Semester-GPA") {
            let prepared = prepare_row(&table.columns, row);
            rows.push(prepared);
            assert(rows@.map_values(|r: Record| r@) =~= some_values(opts.take(i as int)).push(
                prepared@,
            ));
        }
        i += 1;
    }
    assert(opts.take(table.rows.len() as int) =~= opts);
    let mut columns: Vec<String> = Vec::new();
    let mut c: usize = 0;
    while c < table.columns.len()
        invariant
            c <= table.columns.len(),
            columns.len() == c,
            texts(columns@) =~= table@.columns.take(c as int),
        decreases table.columns.len() - c,
    {
        columns.push(table.columns[c].clone());
        c += 1;
        assert(columns@[c - 1]@ == table@.columns[c - 1]);
    }
    assert(table@.columns.take(table.columns.len() as int) =~= table@.columns);
    Table { columns, rows }
}

/// The comparison keys of every row's value in `column`.
fn column_keys(rows: &Vec<Record>, column: &str, keys: &StrMap) -> (r: Vec<String>)
    ensures
        r.len() == rows.len(),
        forall|i: int|
            0 <= i < rows.len() ==> #[trigger] r@[i]@ == key_of(keys@, lookup(rows@[i]@, column@)),
{
    let mut r: Vec<String> = Vec::new();
    let mut i: usize = 0;
    while i < rows.len()
        invariant
            i <= rows.len(),
            r.len() == i,
            forall|j: int|
                0 <= j < i ==> #[trigger] r@[j]@ == key_of(keys@, lookup(rows@[j]@, column@)),
        decreases rows.len() - i,
    {
        r.push(to_string(key_for(keys, value(&rows[i], column))));
        i += 1;
    }
    r
}

/// Whether every string of `v` is non-empty and no two are equal.
fn all_distinct_nonempty(v: &Vec<String>) -> (r: bool)
    ensures
        r == ((forall|i: int| 0 <= i < v.len() ==> #[trigger] v@[i]@.len() > 0) && (forall|
            i: int,
            j: int,
        | 0 <= i < j < v.len() ==> #[trigger] v@[i]@ != #[trigger] v@[j]@)),
{
    let mut i: usize = 0;
    while i < v.len()
        invariant
            i <= v.len(),
            forall|x: int| 0 <= x < i ==> #[trigger] v@[x]@.len() > 0,
            forall|x: int, y: int| 0 <= x < y < i ==> #[trigger] v@[x]@ != #[trigger] v@[y]@,
        decreases v.len() - i,
    {
        if v[i].as_str().is_empty() {
            return false;
        }
        let mut j: usize = 0;
        while j < i
            invariant
                j <= i < v.len(),
                forall|x: int| 0 <= x < j ==> #[trigger] v@[x]@ != v@[i as int]@,
            decreases i - j,
        {
            if v[j] == v[i] {
                assert(v@[j as int]@ == v@[i as int]@);
                return false;
            }
            j += 1;
        }
        i += 1;
    }
    true
}

fn usable(t: &Table, column: &str, keys: &StrMap) -> (r: bool)
    ensures
        r == usable_identifier(t@, column@, keys@),
{
    if !t.has_column(column) {
        return false;
    }
    let ks = column_keys(&t.rows, column, keys);
    let r = all_distinct_nonempty(&ks);
    proof {
        if r {
            assert forall|i: int, j: int| 0 <= i < j < t@.rows.len() implies key_of(
                keys@,
                lookup(#[trigger] t@.rows[i], column@),
            ) != key_of(keys@, lookup(#[trigger] t@.rows[j], column@)) by {
                assert(ks@[i]@ != ks@[j]@);
            }
            assert forall|i: int| 0 <= i < t@.rows.len() implies #[trigger] key_of(
                keys@,
                lookup(t@.rows[i], column@),
            ).len() > 0 by {
                assert(ks@[i]@.len() > 0);
            }
        } else {
            if exists|i: int| 0 <= i < ks.len() && #[trigger] ks@[i]@.len() == 0 {
                let i = choose|i: int| 0 <= i < ks.len() && #[trigger] ks@[i]@.len() == 0;
                assert(key_of(keys@, lookup(t@.rows[i], column@)).len() == 0);
            } else {
                let (i, j) = choose|i: int, j: int|
                    0 <= i < j < ks.len() && #[trigger] ks@[i]@ == #[trigger] ks@[j]@;
                assert(key_of(keys@, lookup(t@.rows[i], column@)) == key_of(
                    keys@,
                    lookup(t@.rows[j], column@),
                ));
            }
        }
    }
    r
}

/// The column that identifies modules: "Nr." if usable, else a unique "Name".
pub fn identifier_column(grades: &Table, keys: &StrMap) -> (r: Result<&'static str, StateError>)
    ensures
        match r {
            Ok(c) => identifier_spec(grades@, keys@) == Some(c@),
            Err(e) => identifier_spec(grades@, keys@) is None && e == StateError::NoIdentifier,
        },
{
    if usable(grades, "Nr.", keys) {
        Ok("Nr.")
    } else if usable(grades, "Name", keys) {
        Ok("Name")
    } else {
        Err(StateError::NoIdentifier)
    }
}

/// What each record of `v` holds.
pub open spec fn record_views(v: Seq<Record>) -> Seq<Map<Seq<char>, Seq<char>>> {
    v.map_values(|r: Record| r@)
}

/// Whether `c` is one of the bookkeeping columns.
fn is_state_column(c: &str) -> (r: bool)
    ensures
        r == state_column(c@),
{
    same_text(c, LAST_SEEN_COLUMN) || same_text(c, MISSING_SINCE_COLUMN)
}

/// Copies of the cached rows that can be matched.
fn select_cached(previous: &Table, key_column: &str, keys: &StrMap) -> (r: Vec<Record>)
    ensures
        record_views(r@) == cached_rows(previous@, key_column@, keys@),
{
    if !previous.has_column(key_column) {
        let r: Vec<Record> = Vec::new();
        assert(record_views(r@) =~= Seq::<Map<Seq<char>, Seq<char>>>::empty());
        return r;
    }
    let ghost opts = previous@.rows.map_values(
        |r: Map<Seq<char>, Seq<char>>|
            if row_key(keys@, r, key_column@).len() > 0 {
                Some(r)
            } else {
                None
            },
    );
    let mut r: Vec<Record> = Vec::new();
    let mut i: usize = 0;
    while i < previous.rows.len()
        invariant
            i <= previous.rows.len(),
            opts == previous@.rows.map_values(
                |r: Map<Seq<char>, Seq<char>>|
                    if row_key(keys@, r, key_column@).len() > 0 {
                        Some(r)
                    } else {
                        None
                    },
            ),
            record_views(r@) == some_values(opts.take(i as int)),
        decreases previous.rows.len() - i,
    {
        proof {
            lemma_some_values_step(opts, i as int);
        }
        let row = &previous.rows[i];
        if !key_for(keys, value(row, key_column)).is_empty() {
            let copy = row.copy();
            r.push(copy);
            assert(record_views(r@) =~= some_values(opts.take(i as int)).push(row@));
        }
        i += 1;
    }
    assert(opts.take(previous.rows.len() as int) =~= opts);
    r
}

/// Whether no two strings of `v` are equal.
fn all_distinct(v: &Vec<String>) -> (r: bool)
    ensures
        r == (forall|i: int, j: int| 0 <= i < j < v.len() ==> #[trigger] v@[i]@ != #[trigger] v@[j]@),
{
    let mut i: usize = 0;
    while i < v.len()
        invariant
            i <= v.len(),
            forall|x: int, y: int| 0 <= x < y < i ==> #[trigger] v@[x]@ != #[trigger] v@[y]@,
        decreases v.len() - i,
    {
        let mut j: usize = 0;
        while j < i
            invariant
                j <= i < v.len(),
                forall|x: int| 0 <= x < j ==> #[trigger] v@[x]@ != v@[i as int]@,
            decreases i - j,
        {
            if v[j] == v[i] {
                assert(v@[j as int]@ == v@[i as int]@);
                return false;
            }
            j += 1;
        }
        i += 1;
    }
    true
}

fn push_value_column(r: &mut Vec<String>, c: &String)
    ensures
        texts(final(r)@) == (if state_column(c@) || texts(old(r)@).contains(c@) {
            texts(old(r)@)
        } else {
            texts(old(r)@).push(c@)
        }),
{
    if !is_state_column(c.as_str()) && !contains_text(r, c.as_str()) {
        r.push(c.clone());
        assert(texts(r@) =~= texts(old(r)@).push(c@));
    }
}

/// The value columns: those of `first`, then those of `second`, each once, no bookkeeping.
fn build_value_columns(first: &Vec<String>, second: &Vec<String>) -> (r: Vec<String>)
    ensures
        texts(r@) == value_columns_spec(texts(first@) + texts(second@)),
{
    let ghost a = texts(first@);
    let ghost all = texts(first@) + texts(second@);
    let mut r: Vec<String> = Vec::new();
    let mut i: usize = 0;
    while i < first.len()
        invariant
            i <= first.len(),
            a == texts(first@),
            texts(r@) == value_columns_spec(a.take(i as int)),
        decreases first.len() - i,
    {
        assert(a.take(i + 1).drop_last() =~= a.take(i as int));
        assert(a.take(i + 1).last() == first@[i as int]@);
        push_value_column(&mut r, &first[i]);
        i += 1;
    }
    assert(a.take(first.len() as int) =~= a);
    assert(all.take(a.len() as int) =~= a);
    let mut j: usize = 0;
    while j < second.len()
        invariant
            j <= second.len(),
            a == texts(first@),
            all == a + texts(second@),
            texts(r@) == value_columns_spec(all.take(a.len() + j)),
        decreases second.len() - j,
    {
        assert(all.take(a.len() + j + 1).drop_last() =~= all.take(a.len() + j));
        assert(all.take(a.len() + j + 1).last() == second@[j as int]@);
        push_value_column(&mut r, &second[j]);
        j += 1;
    }
    assert(all.take(a.len() + second.len()) =~= all);
    r
}

/// A record with the value of `row` in each value column, and `extra` after it.
fn values_record(value_columns: &Vec<String>, row: &Record, normalise: bool) -> (r: Record)
    ensures
        r@ == Map::new(
            |c: Seq<char>| texts(value_columns@).contains(c),
            |c: Seq<char>|
                if normalise {
                    normalise_spec(lookup(row@, c))
                } else {
                    lookup(row@, c)
                },
        ),
{
    let ghost cols = texts(value_columns@);
    let mut r = StrMap::new();
    let mut c: usize = 0;
    while c < value_columns.len()
        invariant
            c <= value_columns.len(),
            cols == texts(value_columns@),
            r@ =~= Map::new(
                |k: Seq<char>| cols.take(c as int).contains(k),
                |k: Seq<char>|
                    if normalise {
                        normalise_spec(lookup(row@, k))
                    } else {
                        lookup(row@, k)
                    },
            ),
        decreases value_columns.len() - c,
    {
        let raw = value(row, value_columns[c].as_str());
        let v = if normalise {
            normalise_value(raw)
        } else {
            raw
        };
        let ghost before = r@;
        r.insert(value_columns[c].clone(), to_string(v));
        proof {
            assert(cols[c as int] == value_columns@[c as int]@);
            assert forall|k: Seq<char>| r@.contains_key(k) <==> cols.take(c + 1).contains(k) by {
                lemma_take_push_contains(cols, c as int, k);
            }
            assert(r@ =~= Map::new(
                |k: Seq<char>| cols.take(c + 1).contains(k),
                |k: Seq<char>|
                    if normalise {
                        normalise_spec(lookup(row@, k))
                    } else {
                        lookup(row@, k)
                    },
            ));
        }
        c += 1;
    }
    assert(cols.take(value_columns.len() as int) =~= cols);
    r
}

/// The stored row for a module of the latest response.
fn build_current_record(value_columns: &Vec<String>, row: &Record, observed_at: &str) -> (r: Record)
    ensures
        r@ == current_record(texts(value_columns@), row@, observed_at@),
{
    let mut r = values_record(value_columns, row, false);
    r.insert(to_string(LAST_SEEN_COLUMN), to_string(observed_at));
    r.insert(to_string(MISSING_SINCE_COLUMN), String::new());
    r
}

/// The stored row for a cached module that is missing now.
fn build_stale_record(value_columns: &Vec<String>, old: &Record, observed_at: &str) -> (r: Record)
    ensures
        r@ == stale_record(texts(value_columns@), old@, observed_at@),
{
    let mut r = values_record(value_columns, old, true);
    let last_seen = normalise_value(value(old, LAST_SEEN_COLUMN));
    let since = normalise_value(value(old, MISSING_SINCE_COLUMN));
    let missing_since = if since.is_empty() {
        observed_at
    } else {
        since
    };
    r.insert(to_string(LAST_SEEN_COLUMN), to_string(last_seen));
    r.insert(to_string(MISSING_SINCE_COLUMN), to_string(missing_since));
    r
}

/// Whether a column is reported in events.
fn is_reportable(c: &str, key_column: &str) -> (r: bool)
    ensures
        r == reportable(c@, key_column@),
{
    !same_text(c, key_column) && !same_text(c, "Name")
}

/// The values of a module seen for the first time.
fn build_new_fields(value_columns: &Vec<String>, key_column: &str, row: &Record) -> (r: Vec<
    FieldChange,
>)
    ensures
        r@.map_values(|f: FieldChange| f@) == new_fields(texts(value_columns@), key_column@, row@),
{
    let ghost opts = texts(value_columns@).map_values(
        |c: Seq<char>|
            if reportable(c, key_column@) && lookup(row@, c).len() > 0 {
                Some(FieldChangeView { column: c, old: None, new: lookup(row@, c) })
            } else {
                None
            },
    );
    let mut r: Vec<FieldChange> = Vec::new();
    let mut c: usize = 0;
    while c < value_columns.len()
        invariant
            c <= value_columns.len(),
            opts == texts(value_columns@).map_values(
                |c: Seq<char>|
                    if reportable(c, key_column@) && lookup(row@, c).len() > 0 {
                        Some(FieldChangeView { column: c, old: None, new: lookup(row@, c) })
                    } else {
                        None
                    },
            ),
            r@.map_values(|f: FieldChange| f@) == some_values(opts.take(c as int)),
        decreases value_columns.len() - c,
    {
        proof {
            lemma_some_values_step(opts, c as int);
        }
        let column = &value_columns[c];
        let new = value(row, column.as_str());
        if is_reportable(column.as_str(), key_column) && !new.is_empty() {
            let f = FieldChange { column: column.clone(), old: None, new: to_string(new) };
            r.push(f);
            assert(r@.map_values(|f: FieldChange| f@) =~= some_values(opts.take(c as int)).push(
                f@,
            ));
        }
        c += 1;
    }
    assert(opts.take(value_columns.len() as int) =~= opts);
    r
}

/// The reportable values of a known module that compare differently now.
fn build_changed_fields(
    value_columns: &Vec<String>,
    key_column: &str,
    old: &Record,
    row: &Record,
    keys: &StrMap,
) -> (r: Vec<FieldChange>)
    ensures
        r@.map_values(|f: FieldChange| f@) == changed_fields(
            texts(value_columns@),
            key_column@,
            old@,
            row@,
            keys@,
        ),
{
    let ghost opts = texts(value_columns@).map_values(
        |c: Seq<char>|
            if reportable(c, key_column@) && key_of(keys@, lookup(old@, c)) != key_of(
                keys@,
                lookup(row@, c),
            ) {
                Some(
                    FieldChangeView { column: c, old: Some(lookup(old@, c)), new: lookup(row@, c) },
                )
            } else {
                None
            },
    );
    let mut r: Vec<FieldChange> = Vec::new();
    let mut c: usize = 0;
    while c < value_columns.len()
        invariant
            c <= value_columns.len(),
            opts == texts(value_columns@).map_values(
                |c: Seq<char>|
                    if reportable(c, key_column@) && key_of(keys@, lookup(old@, c)) != key_of(
                        keys@,
                        lookup(row@, c),
                    ) {
                        Some(
                            FieldChangeView {
                                column: c,
                                old: Some(lookup(old@, c)),
                                new: lookup(row@, c),
                            },
                        )
                    } else {
                        None
                    },
            ),
            r@.map_values(|f: FieldChange| f@) == some_values(opts.take(c as int)),
        decreases value_columns.len() - c,
    {
        proof {
            lemma_some_values_step(opts, c as int);
        }
        let column = &value_columns[c];
        let old_value = value(old, column.as_str());
        let new_value = value(row, column.as_str());
        if is_reportable(column.as_str(), key_column) && !same_text(
            key_for(keys, old_value),
            key_for(keys, new_value),
        ) {
            let f = FieldChange {
                column: column.clone(),
                old: Some(to_string(old_value)),
                new: to_string(new_value),
            };
            r.push(f);
            assert(r@.map_values(|f: FieldChange| f@) =~= some_values(opts.take(c as int)).push(
                f@,
            ));
        }
        c += 1;
    }
    assert(opts.take(value_columns.len() as int) =~= opts);
    r
}

/// The position of `id` in `ids`, if it is there.
fn find_text(ids: &Vec<String>, id: &str) -> (r: Option<usize>)
    ensures
        match r {
            Some(p) => p < ids.len() && ids@[p as int]@ == id@,
            None => forall|p: int| 0 <= p < ids.len() ==> #[trigger] ids@[p]@ != id@,
        },
{
    let wanted = to_string(id);
    let mut p: usize = 0;
    while p < ids.len()
        invariant
            p <= ids.len(),
            wanted@ == id@,
            forall|x: int| 0 <= x < p ==> #[trigger] ids@[x]@ != id@,
        decreases ids.len() - p,
    {
        if ids[p] == wanted {
            return Some(p);
        }
        p += 1;
    }
    None
}

/// The stored rows and events for the modules of the latest response, and
/// which cached rows they matched.
#[verifier::rlimit(30)]
fn merge_current(
    current: &Table,
    key_column: &str,
    cached: &Vec<Record>,
    cached_ids: &Vec<String>,
    value_columns: &Vec<String>,
    observed_at: &str,
    keys: &StrMap,
) -> (r: (Vec<Record>, Vec<Event>, Vec<bool>))
    requires
        cached_ids.len() == cached.len(),
        forall|p: int|
            0 <= p < cached.len() ==> #[trigger] cached_ids@[p]@ == row_key(
                keys@,
                cached@[p]@,
                key_column@,
            ),
        forall|x: int, y: int|
            0 <= x < y < cached_ids.len() ==> #[trigger] cached_ids@[x]@ != #[trigger] cached_ids@[y]@,
    ensures
        record_views(r.0@) == current@.rows.map_values(
            |row: Map<Seq<char>, Seq<char>>|
                current_record(texts(value_columns@), row, observed_at@),
        ),
        r.1@.map_values(|e: Event| e@) == some_values(
            current@.rows.map_values(
                |row: Map<Seq<char>, Seq<char>>|
                    event_for(
                        record_views(cached@),
                        texts(value_columns@),
                        key_column@,
                        row,
                        observed_at@,
                        keys@,
                    ),
            ),
        ),
        r.2.len() == cached.len(),
        forall|p: int|
            0 <= p < cached.len() ==> (#[trigger] r.2@[p] <==> seen_now(
                current@.rows,
                cached@[p]@,
                key_column@,
                keys@,
            )),
{
    let ghost cur = current@;
    let ghost kc = key_column@;
    let ghost cachedv = record_views(cached@);
    let ghost vc = texts(value_columns@);
    let ghost evopts = cur.rows.map_values(
        |r: Map<Seq<char>, Seq<char>>| event_for(cachedv, vc, kc, r, observed_at@, keys@),
    );
    let mut taken: Vec<bool> = Vec::new();
    let mut t: usize = 0;
    while t < cached.len()
        invariant
            t <= cached.len(),
            taken.len() == t,
            forall|p: int| 0 <= p < t ==> !#[trigger] taken@[p],
        decreases cached.len() - t,
    {
        taken.push(false);
        t += 1;
    }
    let mut rows: Vec<Record> = Vec::new();
    let mut events: Vec<Event> = Vec::new();
    let mut j: usize = 0;
    while j < current.rows.len()
        invariant
            j <= current.rows.len(),
            cur == current@,
            kc == key_column@,
            cachedv == record_views(cached@),
            vc == texts(value_columns@),
            cached_ids.len() == cached.len(),
            forall|p: int|
                0 <= p < cached.len() ==> #[trigger] cached_ids@[p]@ == row_key(
                    keys@,
                    cachedv[p],
                    kc,
                ),
            forall|x: int, y: int|
                0 <= x < y < cached_ids.len() ==> #[trigger] cached_ids@[x]@
                    != #[trigger] cached_ids@[y]@,
            evopts == cur.rows.map_values(
                |r: Map<Seq<char>, Seq<char>>| event_for(cachedv, vc, kc, r, observed_at@, keys@),
            ),
            taken.len() == cached.len(),
            forall|p: int|
                0 <= p < cached.len() ==> (#[trigger] taken@[p] <==> exists|x: int|
                    0 <= x < j && row_key(keys@, cachedv[p], kc) == row_key(
                        keys@,
                        #[trigger] cur.rows[x],
                        kc,
                    )),
            record_views(rows@) =~= cur.rows.take(j as int).map_values(
                |r: Map<Seq<char>, Seq<char>>| current_record(vc, r, observed_at@),
            ),
            events@.map_values(|e: Event| e@) == some_values(evopts.take(j as int)),
        decreases current.rows.len() - j,
    {
        let row = &current.rows[j];
        let module_id = value(row, key_column);
        let id_key = key_for(keys, module_id);
        let found = find_text(cached_ids, id_key);
        let record = build_current_record(value_columns, row, observed_at);
        let name_value = value(&record, "Name");
        let name = if name_value.is_empty() {
            to_string(module_id)
        } else {
            to_string(name_value)
        };
        proof {
            lemma_some_values_step(evopts, j as int);
            assert(cur.rows[j as int] == row@);
            assert(name@ == event_name(record@, row@, kc));
        }
        match found {
            None => {
                proof {
                    assert(match_index(cachedv, row@, kc, keys@) is None) by {
                        if exists|p: int|
                            0 <= p < cachedv.len() && #[trigger] row_key(keys@, cachedv[p], kc)
                                == row_key(keys@, row@, kc) {
                            let p = choose|p: int|
                                0 <= p < cachedv.len() && #[trigger] row_key(
                                    keys@,
                                    cachedv[p],
                                    kc,
                                ) == row_key(keys@, row@, kc);
                            assert(cached_ids@[p]@ == id_key@);
                        }
                    }
                }
                let fields = build_new_fields(value_columns, key_column, row);
                let event = Event { kind: EventKind::New, name, fields };
                events.push(event);
                assert(events@.map_values(|e: Event| e@) =~= some_values(evopts.take(j as int)).push(
                    event@,
                ));
            },
            Some(p) => {
                proof {
                    assert(row_key(keys@, cachedv[p as int], kc) == row_key(keys@, row@, kc));
                    let q = choose|q: int|
                        0 <= q < cachedv.len() && #[trigger] row_key(keys@, cachedv[q], kc)
                            == row_key(keys@, row@, kc);
                    assert(cached_ids@[q]@ == cached_ids@[p as int]@);
                    assert(q == p);
                    assert(match_index(cachedv, row@, kc, keys@) == Some(p as int));
                }
                taken.set(p, true);
                let fields = build_changed_fields(value_columns, key_column, &cached[p], row, keys);
                if fields.len() > 0 {
                    let event = Event { kind: EventKind::Changed, name, fields };
                    events.push(event);
                    assert(events@.map_values(|e: Event| e@) =~= some_values(
                        evopts.take(j as int),
                    ).push(event@));
                }
            },
        }
        let ghost before = record_views(rows@);
        rows.push(record);
        proof {
            assert(record_views(rows@) =~= before.push(record@));
            assert forall|q: int| 0 <= q < cached.len() implies (#[trigger] taken@[q] <==> exists|
                x: int,
            |
                0 <= x < j + 1 && row_key(keys@, cachedv[q], kc) == row_key(
                    keys@,
                    #[trigger] cur.rows[x],
                    kc,
                )) by {
                if row_key(keys@, cachedv[q], kc) == row_key(keys@, cur.rows[j as int], kc) {
                    assert(cached_ids@[q]@ == id_key@);
                }
            }
            assert(cur.rows.take(j + 1) =~= cur.rows.take(j as int).push(row@));
        }
        j += 1;
    }
    assert(evopts.take(current.rows.len() as int) =~= evopts);
    assert(cur.rows.take(current.rows.len() as int) =~= cur.rows);
    (rows, events, taken)
}

/// The stored rows for the cached modules that no current row matched.
fn stale_rows(cached: &Vec<Record>, taken: &Vec<bool>, value_columns: &Vec<String>, observed_at: &str) -> (r: Vec<Record>)
    requires
        taken.len() == cached.len(),
    ensures
        record_views(r@) == some_values(
            Seq::new(
                cached.len() as nat,
                |p: int|
                    if taken@[p] {
                        None
                    } else {
                        Some(stale_record(texts(value_columns@), cached@[p]@, observed_at@))
                    },
            ),
        ),
{
    let ghost stale = Seq::new(
        cached.len() as nat,
        |p: int|
            if taken@[p] {
                None
            } else {
                Some(stale_record(texts(value_columns@), cached@[p]@, observed_at@))
            },
    );
    let mut rows: Vec<Record> = Vec::new();
    let mut p: usize = 0;
    while p < cached.len()
        invariant
            p <= cached.len(),
            taken.len() == cached.len(),
            stale == Seq::new(
                cached.len() as nat,
                |p: int|
                    if taken@[p] {
                        None
                    } else {
                        Some(stale_record(texts(value_columns@), cached@[p]@, observed_at@))
                    },
            ),
            record_views(rows@) =~= some_values(stale.take(p as int)),
        decreases cached.len() - p,
    {
        proof {
            lemma_some_values_step(stale, p as int);
        }
        if !taken[p] {
            let record = build_stale_record(value_columns, &cached[p], observed_at);
            let ghost before = record_views(rows@);
            rows.push(record);
            assert(record_views(rows@) =~= before.push(record@));
        }
        p += 1;
    }
    assert(stale.take(cached.len() as int) =~= stale);
    rows
}

/// Merge the latest Dualis response into the cached state.
///
/// Values are compared by the comparison keys that `keys` gives them. Returns
/// the new state and one event per new module or real value change.
pub fn reconcile(previous: &Table, current: &Table, observed_at: &str, keys: &StrMap) -> (r:
    Result<(Table, Vec<Event>), StateError>)
    ensures
        match r {
            Ok((state, events)) => reconcile_spec(previous@, current@, observed_at@, keys@) == Ok::<
                (TableView, Seq<EventView>),
                StateError,
            >((state@, events@.map_values(|e: Event| e@))),
            Err(e) => reconcile_spec(previous@, current@, observed_at@, keys@) == Err::<
                (TableView, Seq<EventView>),
                StateError,
            >(e),
        },
{
    let current = prepare_grades(current);
    let key_column = match identifier_column(&current, keys) {
        Ok(c) => c,
        Err(e) => {
            return Err(e);
        },
    };
    let ghost cur = current@;
    let ghost kc = key_column@;
    let cached = select_cached(previous, key_column, keys);
    let ghost cachedv = record_views(cached@);
    let cached_ids = column_keys(&cached, key_column, keys);
    if !all_distinct(&cached_ids) {
        proof {
            let (i, j) = choose|i: int, j: int|
                0 <= i < j < cached_ids.len() && #[trigger] cached_ids@[i]@
                    == #[trigger] cached_ids@[j]@;
            assert(row_key(keys@, cachedv[i], kc) == row_key(keys@, cachedv[j], kc));
            assert(duplicate_ids(cachedv, kc, keys@));
        }
        return Err(StateError::DuplicateCacheIds);
    }
    let empty: Vec<String> = Vec::new();
    let value_columns = if previous.has_column(key_column) {
        build_value_columns(&current.columns, &previous.columns)
    } else {
        assert(texts(empty@) =~= Seq::<Seq<char>>::empty());
        assert(texts(current.columns@) + texts(empty@) =~= texts(current.columns@));
        build_value_columns(&current.columns, &empty)
    };
    let ghost vc = texts(value_columns@);
    proof {
        if !previous@.columns.contains(kc) {
            assert(cur.columns + cached_columns(previous@, kc) =~= cur.columns);
        }
        assert(vc == value_columns_spec(cur.columns + cached_columns(previous@, kc)));
        assert(!duplicate_ids(cachedv, kc, keys@)) by {
            if duplicate_ids(cachedv, kc, keys@) {
                let (i, j) = choose|i: int, j: int|
                    0 <= i < j < cachedv.len() && row_key(keys@, #[trigger] cachedv[i], kc)
                        == row_key(keys@, #[trigger] cachedv[j], kc);
                assert(cached_ids@[i]@ == cached_ids@[j]@);
            }
        }
    }
    let (mut rows, events, taken) = merge_current(
        &current,
        key_column,
        &cached,
        &cached_ids,
        &value_columns,
        observed_at,
        keys,
    );
    let mut stale = stale_rows(&cached, &taken, &value_columns, observed_at);
    proof {
        let spec_stale = cachedv.map_values(
            |o: Map<Seq<char>, Seq<char>>|
                if seen_now(cur.rows, o, kc, keys@) {
                    None
                } else {
                    Some(stale_record(vc, o, observed_at@))
                },
        );
        let exec_stale = Seq::new(
            cached.len() as nat,
            |p: int|
                if taken@[p] {
                    None
                } else {
                    Some(stale_record(vc, cached@[p]@, observed_at@))
                },
        );
        assert(spec_stale =~= exec_stale);
    }
    let ghost fresh = record_views(rows@);
    let ghost old_stale = record_views(stale@);
    rows.append(&mut stale);
    assert(record_views(rows@) =~= fresh + old_stale);
    let mut columns = value_columns;
    columns.push(to_string(LAST_SEEN_COLUMN));
    columns.push(to_string(MISSING_SINCE_COLUMN));
    assert(texts(columns@) =~= vc + seq!["_notifier_last_seen"@, "_notifier_missing_since"@]);
    let state = Table { columns, rows };
    Ok((state, events))
}

/// The state written on the very first run, without any notifications.
pub fn baseline(current: &Table, observed_at: &str, keys: &StrMap) -> (r: Result<Table, StateError>)
    ensures
        match r {
            Ok(state) => reconcile_spec(Table::default_view(), current@, observed_at@, keys@) matches Ok(
                (s, _),
            ) && state@ == s,
            Err(e) => reconcile_spec(Table::default_view(), current@, observed_at@, keys@) == Err::<
                (TableView, Seq<EventView>),
                StateError,
            >(e),
        },
{
    let empty = Table::empty();
    match reconcile(&empty, current, observed_at, keys) {
        Ok((state, _)) => Ok(state),
        Err(e) => Err(e),
    }
}

/// Whether a value has a comparison key: a text key in `keys`, or a number
/// still to be formatted in `pending`.
pub open spec fn key_known(
    keys: Map<Seq<char>, Seq<char>>,
    pending: Seq<(Seq<char>, Seq<char>)>,
    v: Seq<char>,
) -> bool {
    let n = normalise_spec(v);
    keys.contains_key(n) || exists|i: int| 0 <= i < pending.len() && #[trigger] pending[i].0 == n
}

/// Whether every value of the rows has a comparison key.
pub open spec fn rows_keyed(
    keys: Map<Seq<char>, Seq<char>>,
    pending: Seq<(Seq<char>, Seq<char>)>,
    rows: Seq<Map<Seq<char>, Seq<char>>>,
) -> bool {
    forall|i: int, c: Seq<char>|
        0 <= i < rows.len() && #[trigger] rows[i].contains_key(c) ==> key_known(
            keys,
            pending,
            rows[i][c],
        )
}

/// What the pairs of strings in `v` hold.
pub open spec fn pair_texts(v: Seq<(String, String)>) -> Seq<(Seq<char>, Seq<char>)> {
    v.map_values(|p: (String, String)| (p.0@, p.1@))
}

/// Record the comparison key of `v`: as a text key, or as a number still to be formatted.
fn add_key(keys: &mut StrMap, pending: &mut Vec<(String, String)>, v: &String)
    requires
        forall|k: Seq<char>|
            #[trigger] old(keys)@.contains_key(k) ==> key_form_spec(k) == (false, old(keys)@[k]),
        forall|i: int|
            0 <= i < old(pending).len() ==> key_form_spec(#[trigger] pair_texts(old(pending)@)[i].0)
                == (true, pair_texts(old(pending)@)[i].1),
    ensures
        forall|k: Seq<char>|
            #[trigger] final(keys)@.contains_key(k) ==> key_form_spec(k) == (false, final(keys)@[k]),
        forall|i: int|
            0 <= i < final(pending).len() ==> key_form_spec(
                #[trigger] pair_texts(final(pending)@)[i].0,
            ) == (true, pair_texts(final(pending)@)[i].1),
        key_known(final(keys)@, pair_texts(final(pending)@), v@),
        forall|k: Seq<char>|
            key_known(old(keys)@, pair_texts(old(pending)@), k) ==> key_known(
                final(keys)@,
                pair_texts(final(pending)@),
                k,
            ),
{
    let ghost old_pending = pair_texts(pending@);
    let n = to_string(normalise_value(v.as_str()));
    match comparison_key(n.as_str()) {
        KeyForm::Text(t) => {
            keys.insert(n, t);
        },
        KeyForm::Number(t) => {
            pending.push((n.clone(), t));
            assert(pair_texts(pending@) =~= old_pending.push((n@, key_form_spec(n@).1)));
            assert(pair_texts(pending@)[old_pending.len() as int].0 == n@);
            assert forall|k: Seq<char>|
                key_known(old(keys)@, old_pending, k) implies key_known(
                keys@,
                pair_texts(pending@),
                k,
            ) by {
                let nk = normalise_spec(k);
                if !keys@.contains_key(nk) {
                    let i = choose|i: int| 0 <= i < old_pending.len() && #[trigger] old_pending[i].0 == nk;
                    assert(pair_texts(pending@)[i].0 == nk);
                }
            }
        },
    }
}

/// Record the comparison key of every value of `rows`.
fn add_row_keys(keys: &mut StrMap, pending: &mut Vec<(String, String)>, rows: &Vec<Record>)
    requires
        forall|k: Seq<char>|
            #[trigger] old(keys)@.contains_key(k) ==> key_form_spec(k) == (false, old(keys)@[k]),
        forall|i: int|
            0 <= i < old(pending).len() ==> key_form_spec(#[trigger] pair_texts(old(pending)@)[i].0)
                == (true, pair_texts(old(pending)@)[i].1),
    ensures
        forall|k: Seq<char>|
            #[trigger] final(keys)@.contains_key(k) ==> key_form_spec(k) == (false, final(keys)@[k]),
        forall|i: int|
            0 <= i < final(pending).len() ==> key_form_spec(
                #[trigger] pair_texts(final(pending)@)[i].0,
            ) == (true, pair_texts(final(pending)@)[i].1),
        rows_keyed(final(keys)@, pair_texts(final(pending)@), record_views(rows@)),
        forall|k: Seq<char>|
            key_known(old(keys)@, pair_texts(old(pending)@), k) ==> key_known(
                final(keys)@,
                pair_texts(final(pending)@),
                k,
            ),
{
    let mut i: usize = 0;
    while i < rows.len()
        invariant
            i <= rows.len(),
            forall|k: Seq<char>|
                #[trigger] keys@.contains_key(k) ==> key_form_spec(k) == (false, keys@[k]),
            forall|x: int|
                0 <= x < pending.len() ==> key_form_spec(#[trigger] pair_texts(pending@)[x].0) == (
                true,
                pair_texts(pending@)[x].1,
            ),
            rows_keyed(keys@, pair_texts(pending@), record_views(rows@).take(i as int)),
            forall|k: Seq<char>|
                key_known(old(keys)@, pair_texts(old(pending)@), k) ==> key_known(
                    keys@,
                    pair_texts(pending@),
                    k,
                ),
        decreases rows.len() - i,
    {
        let values = rows[i].values();
        let ghost before_keys = keys@;
        let ghost before_pending = pair_texts(pending@);
        let mut v: usize = 0;
        while v < values.len()
            invariant
                v <= values.len(),
                forall|k: Seq<char>|
                    #[trigger] keys@.contains_key(k) ==> key_form_spec(k) == (false, keys@[k]),
                forall|x: int|
                    0 <= x < pending.len() ==> key_form_spec(#[trigger] pair_texts(pending@)[x].0)
                        == (true, pair_texts(pending@)[x].1),
                forall|x: int| 0 <= x < v ==> key_known(keys@, pair_texts(pending@), #[trigger] values@[x]@),
                forall|k: Seq<char>|
                    key_known(before_keys, before_pending, k) ==> key_known(
                        keys@,
                        pair_texts(pending@),
                        k,
                    ),
            decreases values.len() - v,
        {
            add_key(keys, pending, &values[v]);
            v += 1;
        }
        proof {
            let done = record_views(rows@).take(i + 1);
            assert forall|x: int, c: Seq<char>|
                0 <= x < done.len() && #[trigger] done[x].contains_key(c) implies key_known(
                keys@,
                pair_texts(pending@),
                done[x][c],
            ) by {
                if x < i {
                    assert(done[x] == record_views(rows@).take(i as int)[x]);
                    assert(key_known(before_keys, before_pending, done[x][c]));
                } else {
                    assert(done[x] == rows@[i as int]@);
                    let w = choose|w: int| 0 <= w < values.len() && texts(values@)[w] == done[x][c];
                    assert(values@[w]@ == done[x][c]);
                }
            }
        }
        i += 1;
    }
    assert(record_views(rows@).take(rows.len() as int) =~= record_views(rows@));
}

/// The comparison keys that reconciling `previous` with `current` compares by:
/// the text keys, and the numbers whose key is still to be formatted like
/// Python's `format(float(text), "g")`, each with the raw value it belongs to.
pub fn comparison_keys(previous: &Table, current: &Table) -> (r: (StrMap, Vec<(String, String)>))
    ensures
        forall|k: Seq<char>| #[trigger] r.0@.contains_key(k) ==> key_form_spec(k) == (false, r.0@[k]),
        forall|i: int|
            0 <= i < r.1.len() ==> key_form_spec(#[trigger] pair_texts(r.1@)[i].0) == (
                true,
                pair_texts(r.1@)[i].1,
            ),
        rows_keyed(r.0@, pair_texts(r.1@), previous@.rows),
        rows_keyed(r.0@, pair_texts(r.1@), prepare_spec(current@).rows),
        key_known(r.0@, pair_texts(r.1@), Seq::empty()),
{
    let mut keys = StrMap::new();
    let mut pending: Vec<(String, String)> = Vec::new();
    assert(pair_texts(pending@) =~= Seq::<(Seq<char>, Seq<char>)>::empty());
    let empty = String::new();
    add_key(&mut keys, &mut pending, &empty);
    add_row_keys(&mut keys, &mut pending, &previous.rows);
    let prepared = prepare_grades(current);
    add_row_keys(&mut keys, &mut pending, &prepared.rows);
    (keys, pending)
}

} // verus!
