//! The grade cache as CSV rows: reading caches with or without a pandas index
//! column, and the rows that are written back.

use vstd::prelude::*;

use crate::parse::{picked, positions};
use crate::table::{
    column_names, dedup_choice, dedup_spec, header_names, lemma_dedup_unique, lookup, pandas_names,
    texts, value, zip_record, Record, StrMap, Table, TableView,
};
use crate::text::{chars_of, to_string};

verus! {

/// The file that holds the grades of the last check.
pub const CACHE_FILE: &'static str = "grades.csv";

/// The last downloaded results page, kept for debugging.
pub const RAW_HTML_FILE: &'static str = "grades.html";

/// Whether `name` is a pandas index column, which reads back as `Unnamed: 0`
/// (any name that starts with `Unnamed`).
pub open spec fn pandas_index(name: Seq<char>) -> bool {
    name.len() >= 7 && name.take(7) == "Unnamed"@
}

/// The positions of the cache columns that are kept.
pub open spec fn cache_columns(names: Seq<Seq<char>>) -> Seq<int> {
    Seq::new(names.len(), |i: int| i).filter(|i: int| !pandas_index(names[i]))
}

/// The field at `i` of a record, empty past its end.
pub open spec fn field(record: Seq<Seq<char>>, i: int) -> Seq<char> {
    if 0 <= i < record.len() {
        record[i]
    } else {
        Seq::empty()
    }
}

/// The table that a cache with these CSV headers and records holds.
pub open spec fn cache_table(headers: Seq<Seq<char>>, records: Seq<Seq<Seq<char>>>) -> TableView {
    let names = pandas_names(headers);
    let kept = cache_columns(names);
    let columns = picked(names, kept);
    TableView {
        columns,
        rows: records.map_values(
            |rec: Seq<Seq<char>>| zip_record(columns, kept.map_values(|i: int| field(rec, i))),
        ),
    }
}

/// What the records of a CSV file hold.
pub open spec fn record_texts(v: Seq<Vec<String>>) -> Seq<Seq<Seq<char>>> {
    v.map_values(|r: Vec<String>| texts(r@))
}

fn is_pandas_index(name: &str) -> (r: bool)
    ensures
        r == pandas_index(name@),
{
    let cs = chars_of(name);
    let pat = chars_of("Unnamed");
    proof {
        reveal_strlit("Unnamed");
    }
    if cs.len() < 7 {
        return false;
    }
    let mut i: usize = 0;
    while i < 7
        invariant
            i <= 7,
            cs.len() >= 7,
            cs@ == name@,
            pat@ == "Unnamed"@,
            pat.len() == 7,
            forall|x: int| 0 <= x < i ==> cs@[x] == pat@[x],
        decreases 7 - i,
    {
        if cs[i] != pat[i] {
            assert(cs@.take(7)[i as int] != "Unnamed"@[i as int]);
            return false;
        }
        i += 1;
    }
    assert(cs@.take(7) =~= pat@);
    true
}

/// The positions of the cache columns that are kept.
fn cache_positions(names: &Vec<String>) -> (r: Vec<usize>)
    ensures
        positions(r@) == cache_columns(texts(names@)),
        forall|x: int| 0 <= x < r.len() ==> #[trigger] r@[x] < names.len(),
{
    let ghost ns = texts(names@);
    let ghost all = Seq::new(ns.len(), |i: int| i);
    let mut r: Vec<usize> = Vec::new();
    let mut i: usize = 0;
    assert(all.take(0) =~= Seq::<int>::empty());
    while i < names.len()
        invariant
            i <= names.len(),
            ns == texts(names@),
            all == Seq::new(ns.len(), |i: int| i),
            positions(r@) == all.take(i as int).filter(|i: int| !pandas_index(ns[i])),
            forall|x: int| 0 <= x < r.len() ==> #[trigger] r@[x] < i,
        decreases names.len() - i,
    {
        assert(all.take(i + 1).drop_last() =~= all.take(i as int));
        assert(all.take(i + 1).last() == i as int);
        reveal(Seq::filter);
        let ghost before = r@;
        if !is_pandas_index(names[i].as_str()) {
            r.push(i);
            assert(positions(r@) =~= positions(before).push(i as int));
        }
        i += 1;
    }
    assert(all.take(i as int) =~= all);
    r
}

/// Build the cached table from the header and records of the cache file:
/// headers named the pandas way, a pandas index column dropped, missing
/// fields empty. Reads caches with and without bookkeeping columns alike.
pub fn table_from_csv(headers: Vec<String>, records: &Vec<Vec<String>>) -> (r: Table)
    ensures
        r@ == cache_table(texts(headers@), record_texts(records@)),
{
    let names = column_names(headers);
    let kept = cache_positions(&names);
    let mut columns: Vec<String> = Vec::new();
    let mut x: usize = 0;
    while x < kept.len()
        invariant
            x <= kept.len(),
            columns.len() == x,
            forall|y: int| 0 <= y < kept.len() ==> #[trigger] kept@[y] < names.len(),
            forall|y: int|
                0 <= y < x ==> #[trigger] columns@[y]@ == picked(texts(names@), positions(kept@))[y],
        decreases kept.len() - x,
    {
        columns.push(names[kept[x]].clone());
        x += 1;
    }
    let ghost cols = texts(columns@);
    assert(cols =~= picked(texts(names@), positions(kept@)));
    let ghost want = cache_table(texts(headers@), record_texts(records@));
    let mut rows: Vec<Record> = Vec::new();
    let mut i: usize = 0;
    while i < records.len()
        invariant
            i <= records.len(),
            cols == texts(columns@),
            columns.len() == kept.len(),
            want == cache_table(texts(headers@), record_texts(records@)),
            want.columns == cols,
            positions(kept@) == cache_columns(texts(names@)),
            texts(names@) == pandas_names(texts(headers@)),
            rows.len() == i,
            forall|y: int| 0 <= y < i ==> #[trigger] rows@[y]@ == want.rows[y],
        decreases records.len() - i,
    {
        let record = &records[i];
        let mut row = StrMap::new();
        let mut j: usize = 0;
        let ghost vals = positions(kept@).map_values(|k: int| field(texts(record@), k));
        assert(cols.take(0) =~= Seq::<Seq<char>>::empty());
        while j < kept.len()
            invariant
                j <= kept.len() == columns.len(),
                cols == texts(columns@),
                vals == positions(kept@).map_values(|k: int| field(texts(record@), k)),
                row@ == zip_record(cols.take(j as int), vals),
            decreases kept.len() - j,
        {
            let k = kept[j];
            let v = if k < record.len() {
                record[k].clone()
            } else {
                String::new()
            };
            assert(cols.take(j + 1).drop_last() =~= cols.take(j as int));
            assert(cols.take(j + 1).last() == columns@[j as int]@);
            assert(v@ == vals[j as int]);
            row.insert(columns[j].clone(), v);
            j += 1;
        }
        assert(cols.take(j as int) =~= cols);
        assert(want.rows[i as int] == zip_record(cols, vals));
        rows.push(row);
        i += 1;
    }
    let table = Table { columns, rows };
    assert(table@.rows =~= want.rows);
    table
}

/// The CSV rows that store `table`: its columns, then each row's value in
/// every column (empty where it has none).
pub open spec fn cache_rows_spec(table: TableView) -> Seq<Seq<Seq<char>>> {
    seq![table.columns] + table.rows.map_values(
        |row: Map<Seq<char>, Seq<char>>| table.columns.map_values(|c: Seq<char>| lookup(row, c)),
    )
}

/// The CSV rows that store `table`, header first.
pub fn cache_rows(table: &Table) -> (r: Vec<Vec<String>>)
    ensures
        record_texts(r@) == cache_rows_spec(table@),
{
    let ghost want = cache_rows_spec(table@);
    let mut out: Vec<Vec<String>> = Vec::new();
    out.push(table.columns.clone());
    assert(texts(out@[0]@) == table@.columns);
    let mut i: usize = 0;
    while i < table.rows.len()
        invariant
            i <= table.rows.len(),
            want == cache_rows_spec(table@),
            out.len() == i + 1,
            forall|y: int| 0 <= y <= i ==> #[trigger] texts(out@[y]@) == want[y],
        decreases table.rows.len() - i,
    {
        let row = &table.rows[i];
        let mut fields: Vec<String> = Vec::new();
        let mut j: usize = 0;
        while j < table.columns.len()
            invariant
                j <= table.columns.len(),
                fields.len() == j,
                forall|y: int|
                    0 <= y < j ==> #[trigger] fields@[y]@ == lookup(row@, table.columns@[y]@),
            decreases table.columns.len() - j,
        {
            fields.push(to_string(value(row, table.columns[j].as_str())));
            j += 1;
        }
        assert(texts(fields@) =~= want[i + 1]);
        out.push(fields);
        i += 1;
    }
    assert(record_texts(out@) =~= want);
    out
}

/// Keeping the elements that all pass keeps everything.
pub proof fn lemma_filter_keeps_all<A>(s: Seq<A>, keep: spec_fn(A) -> bool)
    requires
        forall|i: int| 0 <= i < s.len() ==> keep(#[trigger] s[i]),
    ensures
        s.filter(keep) == s,
    decreases s.len(),
{
    reveal(Seq::filter);
    if s.len() > 0 {
        lemma_filter_keeps_all(s.drop_last(), keep);
        assert(s.drop_last().push(s.last()) =~= s);
    }
}

/// The row that `zip_record` builds holds exactly the columns, each with the
/// value at its position, when no column repeats.
pub proof fn lemma_zip_record(columns: Seq<Seq<char>>, values: Seq<Seq<char>>)
    requires
        columns.no_duplicates(),
        columns.len() <= values.len(),
    ensures
        zip_record(columns, values).dom() == columns.to_set(),
        forall|i: int|
            0 <= i < columns.len() ==> zip_record(columns, values)[#[trigger] columns[i]]
                == values[i],
    decreases columns.len(),
{
    if columns.len() > 0 {
        let init = columns.drop_last();
        lemma_zip_record(init, values);
        assert forall|x: Seq<char>| #[trigger] columns.contains(x) == (init.contains(x) || x
            == columns.last()) by {
            if columns.contains(x) {
                let i = choose|i: int| 0 <= i < columns.len() && columns[i] == x;
                if i < columns.len() - 1 {
                    assert(init[i] == x);
                }
            }
            if init.contains(x) {
                let i = choose|i: int| 0 <= i < init.len() && init[i] == x;
                assert(columns[i] == x);
            }
            if x == columns.last() {
                assert(columns[columns.len() - 1] == x);
            }
        }
        assert(columns.to_set() =~= init.to_set().insert(columns.last()));
        assert forall|i: int| 0 <= i < columns.len() implies zip_record(columns, values)[
            #[trigger] columns[i]
        ] == values[i] by {
            if i < columns.len() - 1 {
                assert(init[i] == columns[i]);
                assert(columns[i] != columns.last());
            }
        }
    } else {
        assert(columns.to_set() =~= Set::<Seq<char>>::empty());
        assert(zip_record(columns, values).dom() =~= Set::<Seq<char>>::empty());
    }
}

/// Distinct, non-empty headers keep their names.
pub proof fn lemma_names_kept(columns: Seq<Seq<char>>)
    requires
        columns.no_duplicates(),
        forall|i: int| 0 <= i < columns.len() ==> #[trigger] columns[i].len() > 0,
    ensures
        pandas_names(columns) == columns,
{
    let named = header_names(columns);
    assert(named =~= columns);
    assert forall|i: int| 0 <= i < named.len() implies dedup_choice(
        named[i],
        columns.take(i),
        named,
        #[trigger] columns[i],
    ) by {
        if columns.take(i).contains(named[i]) {
            let j = choose|j: int| 0 <= j < i && columns.take(i)[j] == named[i];
            assert(columns[j] == columns[i]);
        }
    }
    assert(dedup_spec(named, columns));
    lemma_dedup_unique(named, pandas_names(columns), columns);
}

/// Reading back what was written gives the table back: for a table whose
/// columns are distinct, not empty and none starts with `Unnamed`, and whose
/// rows each hold exactly its columns, the cache rows written for it read as
/// the table itself.
pub proof fn law_cache_round_trip(table: TableView)
    requires
        table.columns.no_duplicates(),
        forall|i: int|
            0 <= i < table.columns.len() ==> #[trigger] table.columns[i].len() > 0
                && !pandas_index(table.columns[i]),
        forall|r: int|
            0 <= r < table.rows.len() ==> #[trigger] table.rows[r].dom()
                == table.columns.to_set(),
    ensures
        cache_table(cache_rows_spec(table)[0], cache_rows_spec(table).skip(1)) == table,
{
    let cols = table.columns;
    let written = cache_rows_spec(table);
    assert(written[0] == cols);
    lemma_names_kept(cols);
    let all = Seq::new(cols.len(), |i: int| i);
    lemma_filter_keeps_all(all, |i: int| !pandas_index(cols[i]));
    assert(cache_columns(cols) == all);
    assert(picked(cols, all) =~= cols);
    let read = cache_table(written[0], written.skip(1));
    assert(read.columns == cols);
    assert(read.rows.len() == table.rows.len());
    assert forall|r: int| 0 <= r < table.rows.len() implies #[trigger] read.rows[r]
        == table.rows[r] by {
        let row = table.rows[r];
        let rec = written.skip(1)[r];
        assert(rec == cols.map_values(|c: Seq<char>| lookup(row, c)));
        let vals = all.map_values(|k: int| field(rec, k));
        assert(read.rows[r] == zip_record(cols, vals));
        lemma_zip_record(cols, vals);
        assert(zip_record(cols, vals) =~= row) by {
            assert forall|k: Seq<char>| #[trigger] row.contains_key(k) implies zip_record(
                cols,
                vals,
            )[k] == row[k] by {
                assert(cols.to_set().contains(k));
                let i = choose|i: int| 0 <= i < cols.len() && cols[i] == k;
                assert(vals[i] == lookup(row, cols[i]));
            }
        }
    }
    assert(read.rows =~= table.rows);
}

/// Why the bytes of a cache file hold no CSV table: the csv crate's error,
/// in the header record or in a later record.
#[derive(Debug, Clone, PartialEq, Eq)]
pub struct CsvError {
    pub in_header: bool,
    pub message: String,
}

impl View for CsvError {
    type V = (bool, Seq<char>);

    open spec fn view(&self) -> (bool, Seq<char>) {
        (self.in_header, self.message@)
    }
}

/// The header and records that the csv crate reads from `bytes` (records may
/// have any number of fields), or where it fails and its error message.
pub uninterp spec fn csv_records_of(bytes: Seq<u8>) -> Result<
    (Seq<Seq<char>>, Seq<Seq<Seq<char>>>),
    (bool, Seq<char>),
>;

/// csv's `ReaderBuilder::new().flexible(true).from_reader(bytes)`, then its
/// `headers()` and each of its `records()`, every field as a string; the first
/// error is returned with its message, marked by whether it came from the
/// header. Claimed: the result is `csv_records_of` the bytes, a function of
/// them alone.
#[verifier::external_body]
fn csv_records(bytes: &[u8]) -> (r: Result<(Vec<String>, Vec<Vec<String>>), CsvError>)
    ensures
        match r {
            Ok((h, recs)) => csv_records_of(bytes@) == Ok::<
                (Seq<Seq<char>>, Seq<Seq<Seq<char>>>),
                (bool, Seq<char>),
            >((texts(h@), record_texts(recs@))),
            Err(e) => csv_records_of(bytes@) == Err::<
                (Seq<Seq<char>>, Seq<Seq<Seq<char>>>),
                (bool, Seq<char>),
            >(e@),
        },
{
    let mut reader = csv::ReaderBuilder::new().flexible(true).from_reader(bytes);
    let headers = match reader.headers() {
        Ok(h) => h.iter().map(str::to_owned).collect(),
        Err(e) => return Err(CsvError { in_header: true, message: e.to_string() }),
    };
    let mut records = Vec::new();
    for record in reader.records() {
        match record {
            Ok(r) => records.push(r.iter().map(str::to_owned).collect()),
            Err(e) => return Err(CsvError { in_header: false, message: e.to_string() }),
        }
    }
    Ok((headers, records))
}

/// The table that the bytes of a cache file hold, or the csv crate's error.
pub fn cache_from_csv(bytes: &[u8]) -> (r: Result<Table, CsvError>)
    ensures
        match csv_records_of(bytes@) {
            Ok((h, recs)) => r matches Ok(t) && t@ == cache_table(h, recs),
            Err(e) => r matches Err(x) && x@ == e,
        },
{
    match csv_records(bytes) {
        Ok((headers, records)) => Ok(table_from_csv(headers, &records)),
        Err(e) => Err(e),
    }
}

/// The bytes that the csv crate writes for `rows`, one record per row, each
/// ended by `\n`; `None` where it refuses them.
pub uninterp spec fn csv_text_of(rows: Seq<Seq<Seq<char>>>) -> Option<Seq<u8>>;

/// csv's `WriterBuilder::new().terminator(Terminator::Any(b'\n'))` writing
/// into a `Vec<u8>`: `write_record` for each row, then `into_inner`; `None`
/// where the csv crate returns an error (as for rows of differing lengths).
/// Claimed: the result is `csv_text_of` the rows, a function of them alone.
#[verifier::external_body]
fn csv_bytes(rows: &Vec<Vec<String>>) -> (r: Option<Vec<u8>>)
    ensures
        match r {
            Some(b) => csv_text_of(record_texts(rows@)) == Some(b@),
            None => csv_text_of(record_texts(rows@)) is None,
        },
{
    let mut writer = csv::WriterBuilder::new()
        .terminator(csv::Terminator::Any(b'\n'))
        .from_writer(Vec::new());
    for row in rows {
        writer.write_record(row).ok()?;
    }
    writer.into_inner().ok()
}

/// The bytes of the cache file that stores `table`: its columns, then each
/// row's value in every column, as CSV.
pub fn cache_csv(table: &Table) -> (r: Option<Vec<u8>>)
    ensures
        match r {
            Some(b) => csv_text_of(cache_rows_spec(table@)) == Some(b@),
            None => csv_text_of(cache_rows_spec(table@)) is None,
        },
{
    let rows = cache_rows(table);
    csv_bytes(&rows)
}

} // verus!
