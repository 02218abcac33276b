//! What reconciling promises over several runs: rerunning with unchanged
//! grades reports nothing, and a module that vanishes and reappears unchanged
//! is not reported again.

use vstd::prelude::*;

use crate::state::{
    cached_columns, cached_rows, current_record, duplicate_ids, event_for, identifier_spec,
    key_of, match_index, prepare_spec, prepared_row, reconcile_spec, reportable, row_key,
    seen_now, stale_record, state_column, summary_row, usable_identifier, value_columns_spec,
    EventKind, EventView, FieldChangeView,
};
use crate::table::{
    lemma_some_values_all, lemma_some_values_concat, lemma_some_values_contains,
    lemma_some_values_filter_map, lemma_some_values_len, lemma_some_values_none,
    lemma_some_values_origin, lemma_some_values_pairs, lemma_take_push_contains, lookup,
    some_values, TableView,
};
use crate::text::{lemma_trim_idempotent, normalise_spec};

verus! {

/// Whether a comparison key map, like pandas' reading of a cell, ignores the
/// white space around a value.
pub open spec fn ignores_padding(keys: Map<Seq<char>, Seq<char>>) -> bool {
    forall|v: Seq<char>| #[trigger] key_of(keys, normalise_spec(v)) == key_of(keys, v)
}

/// Every comparison key map ignores the white space around a value, as keys
/// are looked up by the stripped value.
pub proof fn lemma_keys_ignore_padding(keys: Map<Seq<char>, Seq<char>>)
    ensures
        ignores_padding(keys),
{
    assert forall|v: Seq<char>| #[trigger] key_of(keys, normalise_spec(v)) == key_of(keys, v) by {
        lemma_trim_idempotent(v, true);
    }
}

/// The column that identifies the modules of `current`.
pub open spec fn key_column_of(current: TableView, keys: Map<Seq<char>, Seq<char>>) -> Seq<char> {
    identifier_spec(prepare_spec(current), keys)->0
}

/// The value columns of a run.
pub open spec fn value_columns_of(
    previous: TableView,
    current: TableView,
    keys: Map<Seq<char>, Seq<char>>,
) -> Seq<Seq<char>> {
    value_columns_spec(
        prepare_spec(current).columns + cached_columns(previous, key_column_of(current, keys)),
    )
}

/// Whether no two rows have the same identifier.
pub open spec fn ids_distinct(
    rows: Seq<Map<Seq<char>, Seq<char>>>,
    key_column: Seq<char>,
    keys: Map<Seq<char>, Seq<char>>,
) -> bool {
    forall|i: int, j: int|
        0 <= i < j < rows.len() ==> row_key(keys, #[trigger] rows[i], key_column) != row_key(
            keys,
            #[trigger] rows[j],
            key_column,
        )
}

proof fn lemma_value_columns_contains(s: Seq<Seq<char>>, c: Seq<char>)
    ensures
        value_columns_spec(s).contains(c) <==> (s.contains(c) && !state_column(c)),
    decreases s.len(),
{
    if s.len() > 0 {
        lemma_value_columns_contains(s.drop_last(), c);
        lemma_take_push_contains(s, s.len() - 1, c);
        assert(s.take(s.len() - 1) =~= s.drop_last());
        assert(s.take(s.len() as int) =~= s);
        let before = value_columns_spec(s.drop_last());
        if !(state_column(s.last()) || before.contains(s.last())) {
            lemma_take_push_contains(before.push(s.last()), before.len() as int, c);
            assert(before.push(s.last()).take(before.len() as int) =~= before);
            assert(before.push(s.last()).take(before.len() as int + 1) =~= before.push(s.last()));
        }
    }
}

proof fn lemma_identifier_not_state(kc: Seq<char>)
    requires
        kc == "Nr."@ || kc == "Name"@,
    ensures
        !state_column(kc),
{
    reveal_strlit("Nr.");
    reveal_strlit("Name");
    reveal_strlit("_notifier_last_seen");
    reveal_strlit("_notifier_missing_since");
    assert("Nr."@.len() == 3);
    assert("Name"@.len() == 4);
    assert("_notifier_last_seen"@.len() == 19);
    assert("_notifier_missing_since"@.len() == 23);
}

proof fn lemma_concat_contains<A>(a: Seq<A>, b: Seq<A>, x: A)
    ensures
        (a + b).contains(x) <==> (a.contains(x) || b.contains(x)),
{
    if (a + b).contains(x) {
        let i = choose|i: int| 0 <= i < (a + b).len() && (a + b)[i] == x;
        if i < a.len() {
            assert(a[i] == x);
        } else {
            assert(b[i - a.len()] == x);
        }
    }
    if a.contains(x) {
        let i = choose|i: int| 0 <= i < a.len() && a[i] == x;
        assert((a + b)[i] == x);
    }
    if b.contains(x) {
        let i = choose|i: int| 0 <= i < b.len() && b[i] == x;
        assert((a + b)[a.len() + i] == x);
    }
}

/// Every prepared row holds exactly the table's columns.
proof fn lemma_prepared_rows(current: TableView)
    ensures
        forall|j: int|
            0 <= j < prepare_spec(current).rows.len() ==> exists|r: Map<Seq<char>, Seq<char>>|
                #[trigger] prepare_spec(current).rows[j] == prepared_row(current.columns, r),
{
    let opts = current.rows.map_values(
        |r: Map<Seq<char>, Seq<char>>|
            if summary_row(r) {
                None
            } else {
                Some(prepared_row(current.columns, r))
            },
    );
    lemma_some_values_origin(opts);
    assert forall|j: int| 0 <= j < prepare_spec(current).rows.len() implies exists|
        r: Map<Seq<char>, Seq<char>>,
    | #[trigger] prepare_spec(current).rows[j] == prepared_row(current.columns, r) by {
        let i = choose|i: int|
            0 <= i < opts.len() && opts[i] == Some(#[trigger] some_values(opts)[j]);
        assert(opts[i] == Some(prepared_row(current.columns, current.rows[i])));
    }
}

/// The state that a run stores.
pub open spec fn run_state(
    previous: TableView,
    current: TableView,
    observed_at: Seq<char>,
    keys: Map<Seq<char>, Seq<char>>,
) -> TableView {
    match reconcile_spec(previous, current, observed_at, keys) {
        Ok((state, _)) => state,
        Err(_) => TableView { columns: Seq::empty(), rows: Seq::empty() },
    }
}

/// The events that a run reports.
pub open spec fn run_events(
    previous: TableView,
    current: TableView,
    observed_at: Seq<char>,
    keys: Map<Seq<char>, Seq<char>>,
) -> Seq<EventView> {
    match reconcile_spec(previous, current, observed_at, keys) {
        Ok((_, events)) => events,
        Err(_) => Seq::empty(),
    }
}

proof fn lemma_current_record_lookup(
    vc: Seq<Seq<char>>,
    row: Map<Seq<char>, Seq<char>>,
    t: Seq<char>,
    c: Seq<char>,
)
    requires
        !state_column(c),
    ensures
        lookup(current_record(vc, row, t), c) == if vc.contains(c) {
            lookup(row, c)
        } else {
            Seq::empty()
        },
{
}

proof fn lemma_stale_record_lookup(
    vc: Seq<Seq<char>>,
    old: Map<Seq<char>, Seq<char>>,
    t: Seq<char>,
    c: Seq<char>,
)
    requires
        !state_column(c),
    ensures
        lookup(stale_record(vc, old, t), c) == if vc.contains(c) {
            normalise_spec(lookup(old, c))
        } else {
            Seq::empty()
        },
{
}

/// Whether `row` is what a run stores for a cached row that its response
/// does not show.
pub open spec fn stored_as_missing(
    cached: Seq<Map<Seq<char>, Seq<char>>>,
    current_rows: Seq<Map<Seq<char>, Seq<char>>>,
    kc: Seq<char>,
    keys: Map<Seq<char>, Seq<char>>,
    vc: Seq<Seq<char>>,
    row: Map<Seq<char>, Seq<char>>,
    observed_at: Seq<char>,
) -> bool {
    exists|q: int|
        0 <= q < cached.len() && !seen_now(current_rows, #[trigger] cached[q], kc, keys) && row
            == stale_record(vc, cached[q], observed_at) && row_key(keys, cached[q], kc).len() > 0
}

/// Every cached row that can be matched has an identifier.
proof fn lemma_cached_keys(previous: TableView, kc: Seq<char>, keys: Map<Seq<char>, Seq<char>>)
    ensures
        forall|q: int|
            0 <= q < cached_rows(previous, kc, keys).len() ==> row_key(
                keys,
                #[trigger] cached_rows(previous, kc, keys)[q],
                kc,
            ).len() > 0,
{
    if previous.columns.contains(kc) {
        let opts = previous.rows.map_values(
            |r: Map<Seq<char>, Seq<char>>|
                if row_key(keys, r, kc).len() > 0 {
                    Some(r)
                } else {
                    None
                },
        );
        lemma_some_values_origin(opts);
        assert forall|q: int| 0 <= q < some_values(opts).len() implies row_key(
            keys,
            #[trigger] some_values(opts)[q],
            kc,
        ).len() > 0 by {
            let i = choose|i: int| 0 <= i < opts.len() && opts[i] == Some(#[trigger] some_values(opts)[q]);
        }
    }
}

/// What one successful run stores: the modules of the response first, each
/// with its values, then the missing ones; no two with the same identifier.
proof fn lemma_run_facts(
    previous: TableView,
    current: TableView,
    observed_at: Seq<char>,
    keys: Map<Seq<char>, Seq<char>>,
)
    requires
        ignores_padding(keys),
        reconcile_spec(previous, current, observed_at, keys) is Ok,
    ensures
        ({
            let s = run_state(previous, current, observed_at, keys);
            let cur = prepare_spec(current);
            let kc = key_column_of(current, keys);
            let vc = value_columns_of(previous, current, keys);
            &&& identifier_spec(cur, keys) == Some(kc)
            &&& s.columns == vc + seq!["_notifier_last_seen"@, "_notifier_missing_since"@]
            &&& vc.contains(kc)
            &&& !state_column(kc)
            &&& cur.columns.contains(kc)
            &&& forall|c: Seq<char>|
                #![trigger vc.contains(c)]
                vc.contains(c) <==> ((cur.columns.contains(c) || cached_columns(
                    previous,
                    kc,
                ).contains(c)) && !state_column(c))
            &&& s.rows.len() >= cur.rows.len()
            &&& forall|j: int|
                0 <= j < cur.rows.len() ==> #[trigger] s.rows[j] == current_record(
                    vc,
                    cur.rows[j],
                    observed_at,
                )
            &&& forall|j: int|
                0 <= j < cur.rows.len() ==> row_key(keys, #[trigger] s.rows[j], kc) == row_key(
                    keys,
                    cur.rows[j],
                    kc,
                ) && row_key(keys, cur.rows[j], kc).len() > 0
            &&& ids_distinct(s.rows, kc, keys)
            &&& forall|j: int|
                cur.rows.len() <= j < s.rows.len() ==> stored_as_missing(
                    cached_rows(previous, kc, keys),
                    cur.rows,
                    kc,
                    keys,
                    vc,
                    #[trigger] s.rows[j],
                    observed_at,
                )
            &&& forall|q: int|
                0 <= q < cached_rows(previous, kc, keys).len() && !seen_now(
                    cur.rows,
                    #[trigger] cached_rows(previous, kc, keys)[q],
                    kc,
                    keys,
                ) ==> exists|x: int|
                    cur.rows.len() <= x < s.rows.len() && #[trigger] s.rows[x] == stale_record(
                        vc,
                        cached_rows(previous, kc, keys)[q],
                        observed_at,
                    )
        }),
{
    let cur = prepare_spec(current);
    let kc = key_column_of(current, keys);
    let cached = cached_rows(previous, kc, keys);
    let vc = value_columns_of(previous, current, keys);
    let s = run_state(previous, current, observed_at, keys);
    let all = cur.columns + cached_columns(previous, kc);
    assert(identifier_spec(cur, keys) == Some(kc));
    assert(usable_identifier(cur, kc, keys));
    assert(!duplicate_ids(cached, kc, keys));
    lemma_identifier_not_state(kc);
    assert forall|c: Seq<char>| #![trigger vc.contains(c)] vc.contains(c) <==> ((
    cur.columns.contains(c) || cached_columns(previous, kc).contains(c)) && !state_column(c)) by {
        lemma_value_columns_contains(all, c);
        lemma_concat_contains(cur.columns, cached_columns(previous, kc), c);
    }
    assert(vc.contains(kc));
    let fresh = cur.rows.map_values(
        |r: Map<Seq<char>, Seq<char>>| current_record(vc, r, observed_at),
    );
    let opts = cached.map_values(
        |o: Map<Seq<char>, Seq<char>>|
            if seen_now(cur.rows, o, kc, keys) {
                None
            } else {
                Some(stale_record(vc, o, observed_at))
            },
    );
    let missing = some_values(opts);
    assert(s.rows == fresh + missing);
    assert forall|j: int| 0 <= j < cur.rows.len() implies row_key(keys, #[trigger] s.rows[j], kc)
        == row_key(keys, cur.rows[j], kc) && row_key(keys, cur.rows[j], kc).len() > 0 by {
        assert(s.rows[j] == fresh[j]);
        lemma_current_record_lookup(vc, cur.rows[j], observed_at, kc);
        assert(key_of(keys, lookup(cur.rows[j], kc)).len() > 0);
    }
    // A missing module's identifier is that of its cached row, which no current row has.
    lemma_some_values_origin(opts);
    assert forall|b: int| 0 <= b < missing.len() implies exists|q: int|
        0 <= q < cached.len() && !seen_now(cur.rows, cached[q], kc, keys) && row_key(
            keys,
            #[trigger] missing[b],
            kc,
        ) == row_key(keys, cached[q], kc) by {
        let q = choose|q: int| 0 <= q < opts.len() && opts[q] == Some(#[trigger] missing[b]);
        assert(missing[b] == stale_record(vc, cached[q], observed_at));
        lemma_stale_record_lookup(vc, cached[q], observed_at, kc);
        assert(key_of(keys, normalise_spec(lookup(cached[q], kc))) == key_of(
            keys,
            lookup(cached[q], kc),
        ));
    }
    let rel = |x: Map<Seq<char>, Seq<char>>, y: Map<Seq<char>, Seq<char>>|
        row_key(keys, x, kc) != row_key(keys, y, kc);
    assert forall|i: int, j: int|
        0 <= i < j < opts.len() && #[trigger] opts[i] is Some && #[trigger] opts[j] is Some implies rel(
        opts[i]->0,
        opts[j]->0,
    ) by {
        lemma_stale_record_lookup(vc, cached[i], observed_at, kc);
        lemma_stale_record_lookup(vc, cached[j], observed_at, kc);
        assert(key_of(keys, normalise_spec(lookup(cached[i], kc))) == key_of(
            keys,
            lookup(cached[i], kc),
        ));
        assert(key_of(keys, normalise_spec(lookup(cached[j], kc))) == key_of(
            keys,
            lookup(cached[j], kc),
        ));
    }
    lemma_some_values_pairs(opts, rel);
    assert forall|i: int, j: int| 0 <= i < j < s.rows.len() implies row_key(
        keys,
        #[trigger] s.rows[i],
        kc,
    ) != row_key(keys, #[trigger] s.rows[j], kc) by {
        let n = cur.rows.len() as int;
        if j < n {
            assert(s.rows[i] == fresh[i] && s.rows[j] == fresh[j]);
            lemma_current_record_lookup(vc, cur.rows[i], observed_at, kc);
            lemma_current_record_lookup(vc, cur.rows[j], observed_at, kc);
        } else if i < n {
            assert(s.rows[i] == fresh[i]);
            lemma_current_record_lookup(vc, cur.rows[i], observed_at, kc);
            assert(s.rows[j] == missing[j - n]);
            let q = choose|q: int|
                0 <= q < cached.len() && !seen_now(cur.rows, cached[q], kc, keys) && row_key(
                    keys,
                    #[trigger] missing[j - n],
                    kc,
                ) == row_key(keys, cached[q], kc);
            assert(!(row_key(keys, cached[q], kc) == row_key(keys, cur.rows[i], kc)));
        } else {
            assert(s.rows[i] == missing[i - n] && s.rows[j] == missing[j - n]);
            assert(rel(missing[i - n], missing[j - n]));
        }
    }
    lemma_cached_keys(previous, kc, keys);
    assert forall|j: int| cur.rows.len() <= j < s.rows.len() implies stored_as_missing(
        cached,
        cur.rows,
        kc,
        keys,
        vc,
        #[trigger] s.rows[j],
        observed_at,
    ) by {
        let n = cur.rows.len() as int;
        assert(s.rows[j] == missing[j - n]);
        let q = choose|q: int| 0 <= q < opts.len() && opts[q] == Some(#[trigger] missing[j - n]);
        assert(missing[j - n] == stale_record(vc, cached[q], observed_at));
        assert(row_key(keys, cached[q], kc).len() > 0);
    }
    assert forall|q: int|
        0 <= q < cached.len() && !seen_now(cur.rows, #[trigger] cached[q], kc, keys) implies exists|
        x: int,
    | cur.rows.len() <= x < s.rows.len() && #[trigger] s.rows[x] == stale_record(
        vc,
        cached[q],
        observed_at,
    ) by {
        let n = cur.rows.len() as int;
        assert(opts[q] == Some(stale_record(vc, cached[q], observed_at)));
        lemma_some_values_contains(opts, q);
        let a = choose|a: int| 0 <= a < missing.len() && #[trigger] missing[a] == opts[q]->0;
        assert(s.rows[n + a] == missing[a]);
    }
}

/// The rows of a stored state that the next run can match: all modules of the
/// response it stored come first, in order; no two share an identifier.
proof fn lemma_cached_of_state(
    s: TableView,
    n: int,
    kc: Seq<char>,
    keys: Map<Seq<char>, Seq<char>>,
)
    requires
        s.columns.contains(kc),
        0 <= n <= s.rows.len(),
        ids_distinct(s.rows, kc, keys),
        forall|j: int| 0 <= j < n ==> row_key(keys, #[trigger] s.rows[j], kc).len() > 0,
    ensures
        !duplicate_ids(cached_rows(s, kc, keys), kc, keys),
        cached_rows(s, kc, keys).len() >= n,
        cached_rows(s, kc, keys).len() <= s.rows.len(),
        forall|j: int| 0 <= j < n ==> #[trigger] cached_rows(s, kc, keys)[j] == s.rows[j],
        forall|x: int|
            0 <= x < cached_rows(s, kc, keys).len() ==> row_key(
                keys,
                #[trigger] cached_rows(s, kc, keys)[x],
                kc,
            ).len() > 0,
{
    let f = |r: Map<Seq<char>, Seq<char>>|
        if row_key(keys, r, kc).len() > 0 {
            Some(r)
        } else {
            None
        };
    let opts = s.rows.map_values(f);
    let cached = cached_rows(s, kc, keys);
    assert(cached == some_values(opts));
    lemma_some_values_len(opts);
    let head = s.rows.take(n).map_values(f);
    let tail = s.rows.skip(n).map_values(f);
    assert(opts =~= head + tail);
    lemma_some_values_concat(head, tail);
    lemma_some_values_all(head, s.rows.take(n));
    assert forall|j: int| 0 <= j < n implies #[trigger] cached[j] == s.rows[j] by {
        assert(cached[j] == s.rows.take(n)[j]);
    }
    lemma_some_values_origin(opts);
    assert forall|x: int| 0 <= x < cached.len() implies row_key(keys, #[trigger] cached[x], kc).len()
        > 0 by {
        let i = choose|i: int| 0 <= i < opts.len() && opts[i] == Some(#[trigger] cached[x]);
    }
    let rel = |x: Map<Seq<char>, Seq<char>>, y: Map<Seq<char>, Seq<char>>|
        row_key(keys, x, kc) != row_key(keys, y, kc);
    assert forall|i: int, j: int|
        0 <= i < j < opts.len() && #[trigger] opts[i] is Some && #[trigger] opts[j] is Some implies rel(
        opts[i]->0,
        opts[j]->0,
    ) by {
        assert(opts[i]->0 == s.rows[i] && opts[j]->0 == s.rows[j]);
    }
    lemma_some_values_pairs(opts, rel);
    if duplicate_ids(cached, kc, keys) {
        let (i, j) = choose|i: int, j: int|
            0 <= i < j < cached.len() && row_key(keys, #[trigger] cached[i], kc) == row_key(
                keys,
                #[trigger] cached[j],
                kc,
            );
        assert(rel(cached[i], cached[j]));
    }
}

proof fn lemma_state_columns(vc: Seq<Seq<char>>, c: Seq<char>)
    requires
        !state_column(c),
    ensures
        (vc + seq!["_notifier_last_seen"@, "_notifier_missing_since"@]).contains(c) <==> vc.contains(
            c,
        ),
{
    let st = seq!["_notifier_last_seen"@, "_notifier_missing_since"@];
    lemma_concat_contains(vc, st, c);
    if st.contains(c) {
        let i = choose|i: int| 0 <= i < st.len() && st[i] == c;
    }
}

/// The cached modules that the response of a run does not show, in cache order.
pub open spec fn unseen_rows(
    previous: TableView,
    current: TableView,
    keys: Map<Seq<char>, Seq<char>>,
) -> Seq<Map<Seq<char>, Seq<char>>> {
    let cur = prepare_spec(current);
    let kc = key_column_of(current, keys);
    cached_rows(previous, kc, keys).filter(
        |o: Map<Seq<char>, Seq<char>>| !seen_now(cur.rows, o, kc, keys),
    )
}

/// What a run stores. Its columns are the value columns (those of the
/// response, then those of the cache where the cache has the identifier column,
/// each once, without bookkeeping columns), then "last seen" and "missing
/// since"; every row holds exactly these columns. First comes each module of
/// the response with its values, seen now and not missing; then each cached
/// module that the response does not show, in cache order, with its values
/// stripped, last seen as before, and missing since the run that first missed
/// it (this one, if it was not missing yet).
pub proof fn law_state_layout(
    previous: TableView,
    current: TableView,
    observed_at: Seq<char>,
    keys: Map<Seq<char>, Seq<char>>,
)
    requires
        reconcile_spec(previous, current, observed_at, keys) is Ok,
    ensures
        ({
            let s = run_state(previous, current, observed_at, keys);
            let cur = prepare_spec(current);
            let kc = key_column_of(current, keys);
            let vc = value_columns_of(previous, current, keys);
            let u = unseen_rows(previous, current, keys);
            let n = cur.rows.len() as int;
            let last = "_notifier_last_seen"@;
            let since = "_notifier_missing_since"@;
            &&& vc == value_columns_spec(cur.columns + cached_columns(previous, kc))
            &&& s.columns == vc + seq![last, since]
            &&& s.rows.len() == n + u.len()
            &&& forall|j: int| 0 <= j < s.rows.len() ==> #[trigger] s.rows[j].dom() == s.columns.to_set()
            &&& forall|j: int|
                0 <= j < n ==> #[trigger] s.rows[j] == current_record(vc, cur.rows[j], observed_at)
            &&& forall|j: int|
                0 <= j < n ==> lookup(#[trigger] s.rows[j], last) == observed_at && lookup(
                    s.rows[j],
                    since,
                ) == Seq::<char>::empty()
            &&& forall|j: int, c: Seq<char>|
                0 <= j < n && vc.contains(c) ==> #[trigger] lookup(s.rows[j], c) == lookup(
                    cur.rows[j],
                    c,
                )
            &&& forall|k: int|
                0 <= k < u.len() ==> #[trigger] s.rows[n + k] == stale_record(vc, u[k], observed_at)
            &&& forall|k: int|
                0 <= k < u.len() ==> lookup(#[trigger] s.rows[n + k], last) == normalise_spec(
                    lookup(u[k], last),
                ) && lookup(s.rows[n + k], since) == if normalise_spec(lookup(u[k], since)).len()
                    == 0 {
                    observed_at
                } else {
                    normalise_spec(lookup(u[k], since))
                }
            &&& forall|k: int, c: Seq<char>|
                0 <= k < u.len() && vc.contains(c) ==> #[trigger] lookup(s.rows[n + k], c)
                    == normalise_spec(lookup(u[k], c))
        }),
{
    lemma_keys_ignore_padding(keys);
    lemma_run_facts(previous, current, observed_at, keys);
    let s = run_state(previous, current, observed_at, keys);
    let cur = prepare_spec(current);
    let kc = key_column_of(current, keys);
    let vc = value_columns_of(previous, current, keys);
    let cached = cached_rows(previous, kc, keys);
    let u = unseen_rows(previous, current, keys);
    let n = cur.rows.len() as int;
    let last = "_notifier_last_seen"@;
    let since = "_notifier_missing_since"@;
    reveal_strlit("_notifier_last_seen");
    reveal_strlit("_notifier_missing_since");
    assert(last != since) by {
        assert(last.len() != since.len());
    }
    let fresh = cur.rows.map_values(
        |r: Map<Seq<char>, Seq<char>>| current_record(vc, r, observed_at),
    );
    let opts = cached.map_values(
        |o: Map<Seq<char>, Seq<char>>|
            if seen_now(cur.rows, o, kc, keys) {
                None
            } else {
                Some(stale_record(vc, o, observed_at))
            },
    );
    assert(s.rows == fresh + some_values(opts));
    let keep = |o: Map<Seq<char>, Seq<char>>| !seen_now(cur.rows, o, kc, keys);
    let f = |o: Map<Seq<char>, Seq<char>>| stale_record(vc, o, observed_at);
    lemma_some_values_filter_map(cached, keep, f);
    assert(opts =~= cached.map_values(
        |a: Map<Seq<char>, Seq<char>>|
            if keep(a) {
                Some(f(a))
            } else {
                None
            },
    ));
    assert(u == cached.filter(keep));
    assert(some_values(opts) == u.map_values(f));
    assert forall|k: int| 0 <= k < u.len() implies #[trigger] s.rows[n + k] == stale_record(
        vc,
        u[k],
        observed_at,
    ) by {
        assert(s.rows[n + k] == some_values(opts)[k]);
    }
    let cols = vc + seq![last, since];
    assert forall|j: int| 0 <= j < s.rows.len() implies #[trigger] s.rows[j].dom() == s.columns.to_set() by {
        assert forall|c: Seq<char>| s.rows[j].dom().contains(c) <==> cols.contains(c) by {
            lemma_concat_contains(vc, seq![last, since], c);
            if seq![last, since].contains(c) {
                let i = choose|i: int| 0 <= i < 2 && seq![last, since][i] == c;
            }
            if j >= n {
                assert(s.rows[n + (j - n)] == stale_record(vc, u[j - n], observed_at));
            }
        }
        assert(s.rows[j].dom() =~= cols.to_set());
    }
    assert forall|j: int, c: Seq<char>| 0 <= j < n && vc.contains(c) implies #[trigger] lookup(
        s.rows[j],
        c,
    ) == lookup(cur.rows[j], c) by {
        lemma_identifier_not_state(kc);
        assert(!state_column(c));
        lemma_current_record_lookup(vc, cur.rows[j], observed_at, c);
    }
    assert forall|k: int, c: Seq<char>| 0 <= k < u.len() && vc.contains(c) implies #[trigger] lookup(
        s.rows[n + k],
        c,
    ) == normalise_spec(lookup(u[k], c)) by {
        assert(!state_column(c));
        lemma_stale_record_lookup(vc, u[k], observed_at, c);
    }
}

/// Rerunning with unchanged grades reports nothing: after a run has stored the
/// grades of a response, a run with the same response sends no notification.
pub proof fn law_unchanged_rerun_is_silent(
    previous: TableView,
    current: TableView,
    first: Seq<char>,
    second: Seq<char>,
    keys: Map<Seq<char>, Seq<char>>,
)
    requires
        reconcile_spec(previous, current, first, keys) is Ok,
    ensures
        reconcile_spec(run_state(previous, current, first, keys), current, second, keys) is Ok,
        run_events(run_state(previous, current, first, keys), current, second, keys).len() == 0,
{
    lemma_keys_ignore_padding(keys);
    lemma_run_facts(previous, current, first, keys);
    let s1 = run_state(previous, current, first, keys);
    let cur = prepare_spec(current);
    let kc = key_column_of(current, keys);
    let vc1 = value_columns_of(previous, current, keys);
    let n = cur.rows.len() as int;
    lemma_state_columns(vc1, kc);
    lemma_cached_of_state(s1, n, kc, keys);
    let cached2 = cached_rows(s1, kc, keys);
    assert(reconcile_spec(s1, current, second, keys) is Ok);
    lemma_run_facts(s1, current, second, keys);
    let vc2 = value_columns_of(s1, current, keys);
    let evopts = cur.rows.map_values(
        |r: Map<Seq<char>, Seq<char>>| event_for(cached2, vc2, kc, r, second, keys),
    );
    assert forall|j: int| 0 <= j < evopts.len() implies #[trigger] evopts[j] is None by {
        let row = cur.rows[j];
        assert(cached2[j] == s1.rows[j]);
        assert(row_key(keys, cached2[j], kc) == row_key(keys, row, kc));
        let q = choose|q: int|
            0 <= q < cached2.len() && #[trigger] row_key(keys, cached2[q], kc) == row_key(
                keys,
                row,
                kc,
            );
        if q != j {
            assert(duplicate_ids(cached2, kc, keys)) by {
                if q < j {
                    assert(row_key(keys, cached2[q], kc) == row_key(keys, cached2[j], kc));
                } else {
                    assert(row_key(keys, cached2[j], kc) == row_key(keys, cached2[q], kc));
                }
            }
        }
        assert(match_index(cached2, row, kc, keys) == Some(j));
        let fopts = vc2.map_values(
            |c: Seq<char>|
                if crate::state::reportable(c, kc) && key_of(keys, lookup(cached2[j], c)) != key_of(
                    keys,
                    lookup(row, c),
                ) {
                    Some(
                        crate::state::FieldChangeView {
                            column: c,
                            old: Some(lookup(cached2[j], c)),
                            new: lookup(row, c),
                        },
                    )
                } else {
                    None
                },
        );
        assert forall|x: int| 0 <= x < fopts.len() implies #[trigger] fopts[x] is None by {
            let c = vc2[x];
            assert(vc2.contains(c));
            assert(!state_column(c));
            if cached_columns(s1, kc).contains(c) {
                lemma_state_columns(vc1, c);
            }
            assert(vc1.contains(c));
            lemma_current_record_lookup(vc1, row, first, c);
        }
        lemma_some_values_none(fopts);
    }
    lemma_some_values_none(evopts);
}

/// Every row that a successful run stores has an identifier.
proof fn lemma_state_keyed(
    previous: TableView,
    current: TableView,
    observed_at: Seq<char>,
    keys: Map<Seq<char>, Seq<char>>,
)
    requires
        ignores_padding(keys),
        reconcile_spec(previous, current, observed_at, keys) is Ok,
    ensures
        forall|j: int|
            0 <= j < run_state(previous, current, observed_at, keys).rows.len() ==> row_key(
                keys,
                #[trigger] run_state(previous, current, observed_at, keys).rows[j],
                key_column_of(current, keys),
            ).len() > 0,
{
    lemma_run_facts(previous, current, observed_at, keys);
    let s = run_state(previous, current, observed_at, keys);
    let cur = prepare_spec(current);
    let kc = key_column_of(current, keys);
    let vc = value_columns_of(previous, current, keys);
    let cached = cached_rows(previous, kc, keys);
    assert forall|j: int| 0 <= j < s.rows.len() implies row_key(keys, #[trigger] s.rows[j], kc).len()
        > 0 by {
        if j >= cur.rows.len() {
            assert(stored_as_missing(cached, cur.rows, kc, keys, vc, s.rows[j], observed_at));
            let q = choose|q: int|
                0 <= q < cached.len() && !seen_now(cur.rows, #[trigger] cached[q], kc, keys)
                    && s.rows[j] == stale_record(vc, cached[q], observed_at) && row_key(
                    keys,
                    cached[q],
                    kc,
                ).len() > 0;
            lemma_stale_record_lookup(vc, cached[q], observed_at, kc);
            assert(key_of(keys, normalise_spec(lookup(cached[q], kc))) == key_of(
                keys,
                lookup(cached[q], kc),
            ));
        }
    }
}

/// A response row whose module the cache holds, once, with values that compare
/// equal in every value column, is not reported.
proof fn lemma_silent_match(
    cached: Seq<Map<Seq<char>, Seq<char>>>,
    vc: Seq<Seq<char>>,
    kc: Seq<char>,
    row: Map<Seq<char>, Seq<char>>,
    observed_at: Seq<char>,
    keys: Map<Seq<char>, Seq<char>>,
    x: int,
)
    requires
        0 <= x < cached.len(),
        !duplicate_ids(cached, kc, keys),
        row_key(keys, cached[x], kc) == row_key(keys, row, kc),
        forall|c: Seq<char>|
            #[trigger] vc.contains(c) ==> key_of(keys, lookup(cached[x], c)) == key_of(
                keys,
                lookup(row, c),
            ),
    ensures
        event_for(cached, vc, kc, row, observed_at, keys) is None,
{
    let q = choose|q: int|
        0 <= q < cached.len() && #[trigger] row_key(keys, cached[q], kc) == row_key(keys, row, kc);
    if q != x {
        assert(duplicate_ids(cached, kc, keys)) by {
            if q < x {
                assert(row_key(keys, cached[q], kc) == row_key(keys, cached[x], kc));
            } else {
                assert(row_key(keys, cached[x], kc) == row_key(keys, cached[q], kc));
            }
        }
    }
    assert(match_index(cached, row, kc, keys) == Some(x));
    let fopts = vc.map_values(
        |c: Seq<char>|
            if reportable(c, kc) && key_of(keys, lookup(cached[x], c)) != key_of(
                keys,
                lookup(row, c),
            ) {
                Some(FieldChangeView { column: c, old: Some(lookup(cached[x], c)), new: lookup(row, c) })
            } else {
                None
            },
    );
    assert forall|i: int| 0 <= i < fopts.len() implies #[trigger] fopts[i] is None by {
        assert(vc.contains(vc[i]));
    }
    lemma_some_values_none(fopts);
}

/// A module that is missing from a response and reappears unchanged is not
/// reported again: after a run has stored the grades of a response, a run
/// whose response shows only some of its modules, unchanged, reports
/// nothing, and a later run with the first response again reports nothing
/// either. The shorter response must identify its modules by the same column.
pub proof fn law_reappearing_unchanged_is_silent(
    previous: TableView,
    current: TableView,
    hidden: TableView,
    first: Seq<char>,
    second: Seq<char>,
    third: Seq<char>,
    keys: Map<Seq<char>, Seq<char>>,
)
    requires
        reconcile_spec(previous, current, first, keys) is Ok,
        forall|i: int|
            #![trigger prepare_spec(hidden).rows[i]]
            0 <= i < prepare_spec(hidden).rows.len() ==> exists|j: int|
                #![trigger prepare_spec(current).rows[j]]
                0 <= j < prepare_spec(current).rows.len() && prepare_spec(hidden).rows[i]
                    == prepare_spec(current).rows[j],
        identifier_spec(prepare_spec(hidden), keys) == identifier_spec(prepare_spec(current), keys),
    ensures
        reconcile_spec(run_state(previous, current, first, keys), hidden, second, keys) is Ok,
        run_events(run_state(previous, current, first, keys), hidden, second, keys).len() == 0,
        reconcile_spec(
            run_state(run_state(previous, current, first, keys), hidden, second, keys),
            current,
            third,
            keys,
        ) is Ok,
        run_events(
            run_state(run_state(previous, current, first, keys), hidden, second, keys),
            current,
            third,
            keys,
        ).len() == 0,
{
    lemma_keys_ignore_padding(keys);
    lemma_run_facts(previous, current, first, keys);
    lemma_prepared_rows(current);
    let s1 = run_state(previous, current, first, keys);
    let cur = prepare_spec(current);
    let hid = prepare_spec(hidden);
    let kc = key_column_of(current, keys);
    let vc1 = value_columns_of(previous, current, keys);
    let n = cur.rows.len() as int;
    let m = hid.rows.len() as int;
    assert(usable_identifier(cur, kc, keys));
    // A value of a response row outside the first run's value columns is empty.
    assert forall|j: int, c: Seq<char>|
        0 <= j < n && !state_column(c) && !vc1.contains(c) implies lookup(#[trigger] cur.rows[j], c)
        == Seq::<char>::empty() && #[trigger] key_of(keys, lookup(cur.rows[j], c)) == key_of(
        keys,
        normalise_spec(Seq::<char>::empty()),
    ) by {
        let r = choose|r: Map<Seq<char>, Seq<char>>| #[trigger] cur.rows[j] == prepared_row(
            current.columns,
            r,
        );
        assert(!cur.columns.contains(c));
    }
    // Every stored row has an identifier, so the next run can match all of them.
    lemma_state_columns(vc1, kc);
    lemma_state_keyed(previous, current, first, keys);
    lemma_cached_of_state(s1, s1.rows.len() as int, kc, keys);
    let cached2 = cached_rows(s1, kc, keys);
    assert(cached2 =~= s1.rows);
    // The run with the shorter response.
    assert(key_column_of(hidden, keys) == kc);
    assert(reconcile_spec(s1, hidden, second, keys) is Ok);
    lemma_run_facts(s1, hidden, second, keys);
    let s2 = run_state(s1, hidden, second, keys);
    let vc2 = value_columns_of(s1, hidden, keys);
    let ev2 = hid.rows.map_values(
        |r: Map<Seq<char>, Seq<char>>| event_for(cached2, vc2, kc, r, second, keys),
    );
    assert forall|i: int| 0 <= i < ev2.len() implies #[trigger] ev2[i] is None by {
        let row = hid.rows[i];
        let j = choose|j: int| 0 <= j < n && hid.rows[i] == #[trigger] cur.rows[j];
        assert(row == cur.rows[j]);
        assert(cached2[j] == current_record(vc1, row, first));
        assert forall|c: Seq<char>| #[trigger] vc2.contains(c) implies key_of(
            keys,
            lookup(cached2[j], c),
        ) == key_of(keys, lookup(row, c)) by {
            assert(!state_column(c));
            lemma_current_record_lookup(vc1, row, first, c);
            if !vc1.contains(c) {
                assert(key_of(keys, lookup(cur.rows[j], c)) == key_of(
                    keys,
                    normalise_spec(Seq::<char>::empty()),
                ));
            }
        }
        lemma_silent_match(cached2, vc2, kc, row, second, keys, j);
    }
    lemma_some_values_none(ev2);
    // The run with the first response again.
    lemma_state_columns(vc2, kc);
    lemma_state_keyed(s1, hidden, second, keys);
    lemma_cached_of_state(s2, s2.rows.len() as int, kc, keys);
    let cached3 = cached_rows(s2, kc, keys);
    assert(cached3 =~= s2.rows);
    assert(reconcile_spec(s2, current, third, keys) is Ok);
    lemma_run_facts(s2, current, third, keys);
    let vc3 = value_columns_of(s2, current, keys);
    // Every value column of the third run is one of the second.
    assert forall|c: Seq<char>| #[trigger] vc3.contains(c) implies vc2.contains(c) && !state_column(
        c,
    ) by {
        lemma_state_columns(vc2, c);
        if cur.columns.contains(c) {
            assert(vc1.contains(c));
            lemma_state_columns(vc1, c);
        }
    }
    let evopts = cur.rows.map_values(
        |r: Map<Seq<char>, Seq<char>>| event_for(cached3, vc3, kc, r, third, keys),
    );
    assert forall|j: int| 0 <= j < evopts.len() implies #[trigger] evopts[j] is None by {
        let row = cur.rows[j];
        if exists|i: int|
            0 <= i < m && row_key(keys, #[trigger] hid.rows[i], kc) == row_key(keys, row, kc) {
            // Shown again by the shorter response, with the same values.
            let i = choose|i: int|
                0 <= i < m && row_key(keys, #[trigger] hid.rows[i], kc) == row_key(keys, row, kc);
            let j2 = choose|j2: int| 0 <= j2 < n && hid.rows[i] == #[trigger] cur.rows[j2];
            if j2 != j {
                if j2 < j {
                    assert(key_of(keys, lookup(cur.rows[j2], kc)) != key_of(
                        keys,
                        lookup(cur.rows[j], kc),
                    ));
                } else {
                    assert(key_of(keys, lookup(cur.rows[j], kc)) != key_of(
                        keys,
                        lookup(cur.rows[j2], kc),
                    ));
                }
            }
            assert(cached3[i] == current_record(vc2, row, second));
            assert forall|c: Seq<char>| #[trigger] vc3.contains(c) implies key_of(
                keys,
                lookup(cached3[i], c),
            ) == key_of(keys, lookup(row, c)) by {
                lemma_current_record_lookup(vc2, row, second, c);
            }
            lemma_silent_match(cached3, vc3, kc, row, third, keys, i);
        } else {
            // Missing from the shorter response: stored as it was.
            assert(cached2[j] == s1.rows[j]);
            assert(!seen_now(hid.rows, cached2[j], kc, keys));
            let x = choose|x: int|
                m <= x < s2.rows.len() && #[trigger] s2.rows[x] == stale_record(
                    vc2,
                    cached2[j],
                    second,
                );
            assert(cached3[x] == s2.rows[x]);
            lemma_stale_record_lookup(vc2, cached2[j], second, kc);
            assert(key_of(keys, normalise_spec(lookup(cached2[j], kc))) == key_of(
                keys,
                lookup(cached2[j], kc),
            ));
            assert forall|c: Seq<char>| #[trigger] vc3.contains(c) implies key_of(
                keys,
                lookup(cached3[x], c),
            ) == key_of(keys, lookup(row, c)) by {
                lemma_stale_record_lookup(vc2, cached2[j], second, c);
                lemma_current_record_lookup(vc1, row, first, c);
                assert(key_of(keys, normalise_spec(lookup(cached2[j], c))) == key_of(
                    keys,
                    lookup(cached2[j], c),
                ));
                if !vc1.contains(c) {
                    assert(key_of(keys, lookup(cur.rows[j], c)) == key_of(
                        keys,
                        normalise_spec(Seq::<char>::empty()),
                    ));
                }
            }
            lemma_silent_match(cached3, vc3, kc, row, third, keys, x);
        }
    }
    lemma_some_values_none(evopts);
}

/// A module stays "missing since" the first run that missed it: after a run
/// that stores a response, and two runs whose responses do not show one of
/// its modules, the cache still holds that module, missing since the first of
/// those two runs. Both later responses identify their modules by the same
/// column as the first.
pub proof fn law_missing_since_keeps_first_timestamp(
    previous: TableView,
    current: TableView,
    hidden: TableView,
    still_hidden: TableView,
    first: Seq<char>,
    second: Seq<char>,
    third: Seq<char>,
    keys: Map<Seq<char>, Seq<char>>,
    j: int,
)
    requires
        reconcile_spec(previous, current, first, keys) is Ok,
        identifier_spec(prepare_spec(hidden), keys) == identifier_spec(prepare_spec(current), keys),
        identifier_spec(prepare_spec(still_hidden), keys) == identifier_spec(
            prepare_spec(current),
            keys,
        ),
        normalise_spec(second) == second,
        second.len() > 0,
        0 <= j < prepare_spec(current).rows.len(),
        !seen_now(
            prepare_spec(hidden).rows,
            prepare_spec(current).rows[j],
            key_column_of(current, keys),
            keys,
        ),
        !seen_now(
            prepare_spec(still_hidden).rows,
            prepare_spec(current).rows[j],
            key_column_of(current, keys),
            keys,
        ),
    ensures
        ({
            let s1 = run_state(previous, current, first, keys);
            let s2 = run_state(s1, hidden, second, keys);
            let s3 = run_state(s2, still_hidden, third, keys);
            let kc = key_column_of(current, keys);
            &&& reconcile_spec(s1, hidden, second, keys) is Ok
            &&& reconcile_spec(s2, still_hidden, third, keys) is Ok
            &&& exists|x: int|
                0 <= x < s3.rows.len() && row_key(keys, #[trigger] s3.rows[x], kc) == row_key(
                    keys,
                    prepare_spec(current).rows[j],
                    kc,
                ) && lookup(s3.rows[x], "_notifier_missing_since"@) == second
        }),
{
    lemma_keys_ignore_padding(keys);
    lemma_run_facts(previous, current, first, keys);
    let s1 = run_state(previous, current, first, keys);
    let cur = prepare_spec(current);
    let kc = key_column_of(current, keys);
    let vc1 = value_columns_of(previous, current, keys);
    let row = cur.rows[j];
    // The first run stores the module as seen, not missing.
    lemma_state_columns(vc1, kc);
    lemma_state_keyed(previous, current, first, keys);
    lemma_cached_of_state(s1, s1.rows.len() as int, kc, keys);
    let cached2 = cached_rows(s1, kc, keys);
    assert(cached2 =~= s1.rows);
    assert(cached2[j] == current_record(vc1, row, first));
    assert(lookup(cached2[j], "_notifier_missing_since"@) == Seq::<char>::empty());
    // The second run keeps it, missing since now.
    assert(key_column_of(hidden, keys) == kc);
    assert(reconcile_spec(s1, hidden, second, keys) is Ok);
    lemma_run_facts(s1, hidden, second, keys);
    let s2 = run_state(s1, hidden, second, keys);
    let vc2 = value_columns_of(s1, hidden, keys);
    assert(row_key(keys, cached2[j], kc) == row_key(keys, row, kc));
    assert(!seen_now(prepare_spec(hidden).rows, cached2[j], kc, keys)) by {
        if seen_now(prepare_spec(hidden).rows, cached2[j], kc, keys) {
            let i = choose|i: int|
                0 <= i < prepare_spec(hidden).rows.len() && row_key(keys, cached2[j], kc)
                    == row_key(keys, #[trigger] prepare_spec(hidden).rows[i], kc);
            assert(row_key(keys, row, kc) == row_key(keys, prepare_spec(hidden).rows[i], kc));
        }
    }
    let x2 = choose|x2: int|
        prepare_spec(hidden).rows.len() <= x2 < s2.rows.len() && #[trigger] s2.rows[x2]
            == stale_record(vc2, cached2[j], second);
    assert(normalise_spec(Seq::<char>::empty()) == Seq::<char>::empty());
    assert(lookup(s2.rows[x2], "_notifier_missing_since"@) == second);
    lemma_stale_record_lookup(vc2, cached2[j], second, kc);
    assert(key_of(keys, normalise_spec(lookup(cached2[j], kc))) == key_of(
        keys,
        lookup(cached2[j], kc),
    ));
    assert(row_key(keys, s2.rows[x2], kc) == row_key(keys, row, kc));
    // The third run keeps that timestamp.
    lemma_state_columns(vc2, kc);
    lemma_state_keyed(s1, hidden, second, keys);
    lemma_cached_of_state(s2, s2.rows.len() as int, kc, keys);
    let cached3 = cached_rows(s2, kc, keys);
    assert(cached3 =~= s2.rows);
    assert(key_column_of(still_hidden, keys) == kc);
    assert(reconcile_spec(s2, still_hidden, third, keys) is Ok);
    lemma_run_facts(s2, still_hidden, third, keys);
    let s3 = run_state(s2, still_hidden, third, keys);
    let vc3 = value_columns_of(s2, still_hidden, keys);
    assert(cached3[x2] == s2.rows[x2]);
    assert(!seen_now(prepare_spec(still_hidden).rows, cached3[x2], kc, keys)) by {
        if seen_now(prepare_spec(still_hidden).rows, cached3[x2], kc, keys) {
            let i = choose|i: int|
                0 <= i < prepare_spec(still_hidden).rows.len() && row_key(keys, cached3[x2], kc)
                    == row_key(keys, #[trigger] prepare_spec(still_hidden).rows[i], kc);
            assert(row_key(keys, row, kc) == row_key(
                keys,
                prepare_spec(still_hidden).rows[i],
                kc,
            ));
        }
    }
    let x3 = choose|x3: int|
        prepare_spec(still_hidden).rows.len() <= x3 < s3.rows.len() && #[trigger] s3.rows[x3]
            == stale_record(vc3, cached3[x2], third);
    assert(lookup(s3.rows[x3], "_notifier_missing_since"@) == second);
    lemma_stale_record_lookup(vc3, cached3[x2], third, kc);
    assert(key_of(keys, normalise_spec(lookup(cached3[x2], kc))) == key_of(
        keys,
        lookup(cached3[x2], kc),
    ));
    assert(row_key(keys, s3.rows[x3], kc) == row_key(keys, row, kc));
}

/// Whether `e` announces the module `row` as new: named by its name, or by its
/// identifier where it has none, and listing exactly its non-empty values in
/// the reportable value columns, each without an old value.
pub open spec fn announces_new(
    e: EventView,
    row: Map<Seq<char>, Seq<char>>,
    kc: Seq<char>,
    vc: Seq<Seq<char>>,
) -> bool {
    &&& e.kind == EventKind::New
    &&& e.name == if lookup(row, "Name"@).len() > 0 {
        lookup(row, "Name"@)
    } else {
        lookup(row, kc)
    }
    &&& forall|y: int|
        0 <= y < e.fields.len() ==> vc.contains(#[trigger] e.fields[y].column) && reportable(
            e.fields[y].column,
            kc,
        ) && e.fields[y].old is None && e.fields[y].new == lookup(row, e.fields[y].column)
            && e.fields[y].new.len() > 0
    &&& forall|c: Seq<char>|
        #![trigger vc.contains(c)]
        vc.contains(c) && reportable(c, kc) && lookup(row, c).len() > 0 ==> exists|y: int|
            0 <= y < e.fields.len() && #[trigger] e.fields[y].column == c
}

/// A module that the cache does not know is reported as new, however many
/// other modules the cache holds: for every module of the response whose
/// identifier no cached row has, the run reports an event that announces it
/// as new.
pub proof fn law_unknown_module_is_new(
    previous: TableView,
    current: TableView,
    observed_at: Seq<char>,
    keys: Map<Seq<char>, Seq<char>>,
    j: int,
)
    requires
        reconcile_spec(previous, current, observed_at, keys) is Ok,
        0 <= j < prepare_spec(current).rows.len(),
        !seen_now(
            cached_rows(previous, key_column_of(current, keys), keys),
            prepare_spec(current).rows[j],
            key_column_of(current, keys),
            keys,
        ),
    ensures
        exists|x: int|
            0 <= x < run_events(previous, current, observed_at, keys).len() && announces_new(
                #[trigger] run_events(previous, current, observed_at, keys)[x],
                prepare_spec(current).rows[j],
                key_column_of(current, keys),
                value_columns_of(previous, current, keys),
            ),
{
    lemma_keys_ignore_padding(keys);
    lemma_run_facts(previous, current, observed_at, keys);
    lemma_prepared_rows(current);
    let cur = prepare_spec(current);
    let kc = key_column_of(current, keys);
    let vc = value_columns_of(previous, current, keys);
    let cached = cached_rows(previous, kc, keys);
    let row = cur.rows[j];
    let events = run_events(previous, current, observed_at, keys);
    let evopts = cur.rows.map_values(
        |r: Map<Seq<char>, Seq<char>>| event_for(cached, vc, kc, r, observed_at, keys),
    );
    assert(events == some_values(evopts));
    assert(match_index(cached, row, kc, keys) is None) by {
        if exists|p: int|
            0 <= p < cached.len() && #[trigger] row_key(keys, cached[p], kc) == row_key(
                keys,
                row,
                kc,
            ) {
            let p = choose|p: int|
                0 <= p < cached.len() && #[trigger] row_key(keys, cached[p], kc) == row_key(
                    keys,
                    row,
                    kc,
                );
            assert(row_key(keys, row, kc) == row_key(keys, cached[p], kc));
        }
    }
    let e = evopts[j]->0;
    assert(evopts[j] is Some);
    lemma_some_values_contains(evopts, j);
    let x = choose|x: int| 0 <= x < some_values(evopts).len() && #[trigger] some_values(evopts)[x] == evopts[j]->0;
    // The name.
    reveal_strlit("Name");
    reveal_strlit("_notifier_last_seen");
    reveal_strlit("_notifier_missing_since");
    assert(!state_column("Name"@)) by {
        assert("Name"@.len() != "_notifier_last_seen"@.len());
        assert("Name"@.len() != "_notifier_missing_since"@.len());
    }
    lemma_current_record_lookup(vc, row, observed_at, "Name"@);
    if !vc.contains("Name"@) {
        let r = choose|r: Map<Seq<char>, Seq<char>>| #[trigger] cur.rows[j] == prepared_row(
            current.columns,
            r,
        );
        assert(!cur.columns.contains("Name"@));
        assert(lookup(row, "Name"@) == Seq::<char>::empty());
    }
    // The fields.
    let fopts = vc.map_values(
        |c: Seq<char>|
            if reportable(c, kc) && lookup(row, c).len() > 0 {
                Some(FieldChangeView { column: c, old: None, new: lookup(row, c) })
            } else {
                None
            },
    );
    assert(e.fields == some_values(fopts));
    lemma_some_values_origin(fopts);
    assert forall|y: int| 0 <= y < e.fields.len() implies vc.contains(#[trigger] e.fields[y].column)
        && reportable(e.fields[y].column, kc) && e.fields[y].old is None && e.fields[y].new
        == lookup(row, e.fields[y].column) && e.fields[y].new.len() > 0 by {
        let i = choose|i: int| 0 <= i < fopts.len() && fopts[i] == Some(#[trigger] some_values(fopts)[y]);
        assert(vc[i] == e.fields[y].column);
    }
    assert forall|c: Seq<char>|
        #![trigger vc.contains(c)]
        vc.contains(c) && reportable(c, kc) && lookup(row, c).len() > 0 implies exists|y: int|
            0 <= y < e.fields.len() && #[trigger] e.fields[y].column == c by {
        let i = choose|i: int| 0 <= i < vc.len() && vc[i] == c;
        assert(fopts[i] is Some);
        lemma_some_values_contains(fopts, i);
        let y = choose|y: int| 0 <= y < some_values(fopts).len() && #[trigger] some_values(fopts)[y] == fopts[i]->0;
        assert(e.fields[y].column == c);
    }
    assert(announces_new(events[x], row, kc, vc));
}

/// Whether `e` reports the module `row` as changed in column `c`, whose cached
/// value was `old`: named like a new module, and listing `c` with both values.
pub open spec fn reports_change(
    e: EventView,
    row: Map<Seq<char>, Seq<char>>,
    kc: Seq<char>,
    c: Seq<char>,
    old: Seq<char>,
) -> bool {
    &&& e.kind == EventKind::Changed
    &&& e.name == if lookup(row, "Name"@).len() > 0 {
        lookup(row, "Name"@)
    } else {
        lookup(row, kc)
    }
    &&& exists|y: int|
        0 <= y < e.fields.len() && #[trigger] e.fields[y] == FieldChangeView {
            column: c,
            old: Some(old),
            new: lookup(row, c),
        }
}

/// A known module whose value changed is reported: for every module of the
/// response whose identifier a cached row has, and every reportable value
/// column in which the cached and the new value compare differently, the run
/// reports the module as changed in that column, with both values.
pub proof fn law_changed_module_is_reported(
    previous: TableView,
    current: TableView,
    observed_at: Seq<char>,
    keys: Map<Seq<char>, Seq<char>>,
    j: int,
    p: int,
    c: Seq<char>,
)
    requires
        reconcile_spec(previous, current, observed_at, keys) is Ok,
        0 <= j < prepare_spec(current).rows.len(),
        0 <= p < cached_rows(previous, key_column_of(current, keys), keys).len(),
        row_key(
            keys,
            cached_rows(previous, key_column_of(current, keys), keys)[p],
            key_column_of(current, keys),
        ) == row_key(keys, prepare_spec(current).rows[j], key_column_of(current, keys)),
        value_columns_of(previous, current, keys).contains(c),
        reportable(c, key_column_of(current, keys)),
        key_of(keys, lookup(cached_rows(previous, key_column_of(current, keys), keys)[p], c))
            != key_of(keys, lookup(prepare_spec(current).rows[j], c)),
    ensures
        exists|x: int|
            0 <= x < run_events(previous, current, observed_at, keys).len() && reports_change(
                #[trigger] run_events(previous, current, observed_at, keys)[x],
                prepare_spec(current).rows[j],
                key_column_of(current, keys),
                c,
                lookup(cached_rows(previous, key_column_of(current, keys), keys)[p], c),
            ),
{
    lemma_keys_ignore_padding(keys);
    lemma_run_facts(previous, current, observed_at, keys);
    lemma_prepared_rows(current);
    let cur = prepare_spec(current);
    let kc = key_column_of(current, keys);
    let vc = value_columns_of(previous, current, keys);
    let cached = cached_rows(previous, kc, keys);
    let row = cur.rows[j];
    let old = cached[p];
    let events = run_events(previous, current, observed_at, keys);
    let evopts = cur.rows.map_values(
        |r: Map<Seq<char>, Seq<char>>| event_for(cached, vc, kc, r, observed_at, keys),
    );
    assert(events == some_values(evopts));
    assert(!duplicate_ids(cached, kc, keys));
    let q = choose|q: int|
        0 <= q < cached.len() && #[trigger] row_key(keys, cached[q], kc) == row_key(keys, row, kc);
    if q != p {
        assert(duplicate_ids(cached, kc, keys)) by {
            if q < p {
                assert(row_key(keys, cached[q], kc) == row_key(keys, cached[p], kc));
            } else {
                assert(row_key(keys, cached[p], kc) == row_key(keys, cached[q], kc));
            }
        }
    }
    assert(match_index(cached, row, kc, keys) == Some(p));
    let fopts = vc.map_values(
        |col: Seq<char>|
            if reportable(col, kc) && key_of(keys, lookup(old, col)) != key_of(
                keys,
                lookup(row, col),
            ) {
                Some(FieldChangeView { column: col, old: Some(lookup(old, col)), new: lookup(row, col) })
            } else {
                None
            },
    );
    let i = choose|i: int| 0 <= i < vc.len() && vc[i] == c;
    assert(fopts[i] is Some);
    lemma_some_values_contains(fopts, i);
    let y = choose|y: int| 0 <= y < some_values(fopts).len() && #[trigger] some_values(fopts)[y] == fopts[i]->0;
    assert(evopts[j] is Some);
    let e = evopts[j]->0;
    assert(e.fields == some_values(fopts));
    assert(e.fields[y] == FieldChangeView { column: c, old: Some(lookup(old, c)), new: lookup(row, c) });
    lemma_some_values_contains(evopts, j);
    let x = choose|x: int| 0 <= x < some_values(evopts).len() && #[trigger] some_values(evopts)[x] == evopts[j]->0;
    // The name.
    reveal_strlit("Name");
    reveal_strlit("_notifier_last_seen");
    reveal_strlit("_notifier_missing_since");
    assert(!state_column("Name"@)) by {
        assert("Name"@.len() != "_notifier_last_seen"@.len());
        assert("Name"@.len() != "_notifier_missing_since"@.len());
    }
    lemma_current_record_lookup(vc, row, observed_at, "Name"@);
    if !vc.contains("Name"@) {
        let r = choose|r: Map<Seq<char>, Seq<char>>| #[trigger] cur.rows[j] == prepared_row(
            current.columns,
            r,
        );
        assert(!cur.columns.contains("Name"@));
        assert(lookup(row, "Name"@) == Seq::<char>::empty());
    }
    assert(reports_change(events[x], row, kc, c, lookup(old, c)));
}

/// Whether an event announces a real change: a new module with the values it
/// brings, or a known module with at least one reportable value whose
/// comparison key differs from the cached one.
pub open spec fn real_change(e: EventView, keys: Map<Seq<char>, Seq<char>>) -> bool {
    match e.kind {
        EventKind::New => forall|j: int| 0 <= j < e.fields.len() ==> (#[trigger] e.fields[j]).old is None,
        EventKind::Changed => {
            &&& e.fields.len() > 0
            &&& forall|j: int|
                0 <= j < e.fields.len() ==> (#[trigger] e.fields[j]).old is Some && key_of(
                    keys,
                    e.fields[j].old->0,
                ) != key_of(keys, e.fields[j].new)
        },
    }
}

/// Only new or actually changed grades are reported: every event of a run is
/// about a module the cache does not know, or shows at least one value whose
/// comparison key changed, with its old and new value.
pub proof fn law_reports_only_real_changes(
    previous: TableView,
    current: TableView,
    observed_at: Seq<char>,
    keys: Map<Seq<char>, Seq<char>>,
)
    requires
        reconcile_spec(previous, current, observed_at, keys) is Ok,
    ensures
        forall|i: int|
            0 <= i < reconcile_spec(previous, current, observed_at, keys)->Ok_0.1.len()
                ==> real_change(
                #[trigger] reconcile_spec(previous, current, observed_at, keys)->Ok_0.1[i],
                keys,
            ),
{
    let cur = prepare_spec(current);
    let kc = identifier_spec(cur, keys)->0;
    let cached = cached_rows(previous, kc, keys);
    let vc = value_columns_spec(cur.columns + cached_columns(previous, kc));
    let all = cur.rows.map_values(
        |r: Map<Seq<char>, Seq<char>>| event_for(cached, vc, kc, r, observed_at, keys),
    );
    let events = reconcile_spec(previous, current, observed_at, keys)->Ok_0.1;
    assert(events == some_values(all));
    lemma_some_values_origin(all);
    assert forall|a: int| 0 <= a < events.len() implies real_change(#[trigger] events[a], keys) by {
        let i = choose|i: int| 0 <= i < all.len() && all[i] == Some(some_values(all)[a]);
        let row = cur.rows[i];
        let e = events[a];
        match match_index(cached, row, kc, keys) {
            None => {
                let fs = vc.map_values(
                    |c: Seq<char>|
                        if reportable(c, kc) && lookup(row, c).len() > 0 {
                            Some(FieldChangeView { column: c, old: None, new: lookup(row, c) })
                        } else {
                            None
                        },
                );
                assert(e.fields == some_values(fs));
                lemma_some_values_origin(fs);
                assert forall|j: int| 0 <= j < e.fields.len() implies (
                #[trigger] e.fields[j]).old is None by {
                    let k = choose|k: int| 0 <= k < fs.len() && fs[k] == Some(some_values(fs)[j]);
                }
            },
            Some(p) => {
                let old = cached[p];
                let fs = vc.map_values(
                    |c: Seq<char>|
                        if reportable(c, kc) && key_of(keys, lookup(old, c)) != key_of(
                            keys,
                            lookup(row, c),
                        ) {
                            Some(
                                FieldChangeView {
                                    column: c,
                                    old: Some(lookup(old, c)),
                                    new: lookup(row, c),
                                },
                            )
                        } else {
                            None
                        },
                );
                assert(e.fields == some_values(fs));
                lemma_some_values_origin(fs);
                assert forall|j: int| 0 <= j < e.fields.len() implies (
                #[trigger] e.fields[j]).old is Some && key_of(keys, e.fields[j].old->0) != key_of(
                    keys,
                    e.fields[j].new,
                ) by {
                    let k = choose|k: int| 0 <= k < fs.len() && fs[k] == Some(some_values(fs)[j]);
                }
            },
        }
    }
}

/// The value columns hold no column twice and no bookkeeping column.
proof fn lemma_value_columns_clean(s: Seq<Seq<char>>)
    ensures
        value_columns_spec(s).no_duplicates(),
        forall|i: int|
            0 <= i < value_columns_spec(s).len() ==> !state_column(#[trigger] value_columns_spec(s)[i]),
    decreases s.len(),
{
    if s.len() > 0 {
        lemma_value_columns_clean(s.drop_last());
        let before = value_columns_spec(s.drop_last());
        if !(state_column(s.last()) || before.contains(s.last())) {
            let after = before.push(s.last());
            assert forall|i: int, j: int| 0 <= i < j < after.len() implies after[i] != after[j] by {
                if j == before.len() {
                    assert(before[i] == after[i]);
                }
            }
        }
    }
}

/// Columns without repeats or bookkeeping columns are their own value columns.
proof fn lemma_value_columns_of_clean(s: Seq<Seq<char>>)
    requires
        s.no_duplicates(),
        forall|i: int| 0 <= i < s.len() ==> !state_column(#[trigger] s[i]),
    ensures
        value_columns_spec(s) == s,
    decreases s.len(),
{
    if s.len() > 0 {
        let init = s.drop_last();
        assert forall|i: int| 0 <= i < init.len() implies !state_column(#[trigger] init[i]) by {
            assert(init[i] == s[i]);
        }
        lemma_value_columns_of_clean(init);
        if init.contains(s.last()) {
            let i = choose|i: int| 0 <= i < init.len() && init[i] == s.last();
            assert(s[i] == s[s.len() - 1]);
        }
        assert(!state_column(s[s.len() - 1]));
        assert(init.push(s.last()) =~= s);
    }
}

/// Columns that are bookkeeping ones or already value columns add nothing.
proof fn lemma_value_columns_absorb(s: Seq<Seq<char>>, t: Seq<Seq<char>>)
    requires
        forall|i: int|
            0 <= i < t.len() ==> state_column(#[trigger] t[i]) || value_columns_spec(s).contains(t[i]),
    ensures
        value_columns_spec(s + t) == value_columns_spec(s),
    decreases t.len(),
{
    if t.len() > 0 {
        assert forall|i: int| 0 <= i < t.drop_last().len() implies state_column(
            #[trigger] t.drop_last()[i],
        ) || value_columns_spec(s).contains(t.drop_last()[i]) by {
            assert(t.drop_last()[i] == t[i]);
        }
        lemma_value_columns_absorb(s, t.drop_last());
        assert((s + t).drop_last() =~= s + t.drop_last());
        assert((s + t).last() == t[t.len() - 1]);
    } else {
        assert(s + t =~= s);
    }
}

/// The value columns of `u + t` depend on `u` only through its value columns.
proof fn lemma_value_columns_through(u: Seq<Seq<char>>, t: Seq<Seq<char>>)
    ensures
        value_columns_spec(u + t) == value_columns_spec(value_columns_spec(u) + t),
    decreases t.len(),
{
    if t.len() > 0 {
        lemma_value_columns_through(u, t.drop_last());
        assert((u + t).drop_last() =~= u + t.drop_last());
        assert((value_columns_spec(u) + t).drop_last() =~= value_columns_spec(u) + t.drop_last());
        assert((u + t).last() == (value_columns_spec(u) + t).last());
    } else {
        assert(u + t =~= u);
        assert(value_columns_spec(u) + t =~= value_columns_spec(u));
        lemma_value_columns_clean(u);
        lemma_value_columns_of_clean(value_columns_spec(u));
    }
}

/// The value columns of `a + x` start with those of `a`.
proof fn lemma_value_columns_prefix(a: Seq<Seq<char>>, x: Seq<Seq<char>>)
    ensures
        value_columns_spec(a).len() <= value_columns_spec(a + x).len(),
        value_columns_spec(a + x).take(value_columns_spec(a).len() as int) == value_columns_spec(a),
    decreases x.len(),
{
    if x.len() > 0 {
        lemma_value_columns_prefix(a, x.drop_last());
        assert((a + x).drop_last() =~= a + x.drop_last());
        let before = value_columns_spec(a + x.drop_last());
        let n = value_columns_spec(a).len() as int;
        assert(before.push((a + x).last()).take(n) =~= before.take(n));
    } else {
        assert(a + x =~= a);
        assert(value_columns_spec(a).take(value_columns_spec(a).len() as int) =~= value_columns_spec(
            a,
        ));
    }
}

/// Carrying the stored columns on into the next run keeps the value columns.
proof fn lemma_value_columns_stable(a: Seq<Seq<char>>, x: Seq<Seq<char>>)
    ensures
        value_columns_spec(
            a + (value_columns_spec(a + x) + seq!["_notifier_last_seen"@, "_notifier_missing_since"@]),
        ) == value_columns_spec(a + x),
{
    let va = value_columns_spec(a);
    let vc = value_columns_spec(a + x);
    let st = seq!["_notifier_last_seen"@, "_notifier_missing_since"@];
    assert(a + (vc + st) =~= (a + vc) + st);
    lemma_value_columns_absorb(a + vc, st);
    lemma_value_columns_through(a, vc);
    lemma_value_columns_prefix(a, x);
    let r = vc.skip(va.len() as int);
    assert(vc =~= va + r);
    assert(va + vc =~= (va + va) + r);
    lemma_value_columns_clean(a);
    lemma_value_columns_of_clean(va);
    assert forall|i: int| 0 <= i < va.len() implies state_column(#[trigger] va[i])
        || value_columns_spec(va).contains(va[i]) by {
    }
    lemma_value_columns_absorb(va, va);
    lemma_value_columns_through(va + va, r);
    lemma_value_columns_through(va, r);
    lemma_value_columns_clean(a + x);
    lemma_value_columns_of_clean(vc);
}

/// A module stored as missing is stored again unchanged by the next run that
/// misses it, once its "missing since" time is set.
proof fn lemma_stale_again(
    vc: Seq<Seq<char>>,
    o: Map<Seq<char>, Seq<char>>,
    first: Seq<char>,
    second: Seq<char>,
)
    requires
        normalise_spec(first) == first,
        first.len() > 0,
        forall|i: int| 0 <= i < vc.len() ==> !state_column(#[trigger] vc[i]),
    ensures
        stale_record(vc, stale_record(vc, o, first), second) == stale_record(vc, o, first),
{
    reveal_strlit("_notifier_last_seen");
    reveal_strlit("_notifier_missing_since");
    let ls = "_notifier_last_seen"@;
    let ms = "_notifier_missing_since"@;
    assert(ls.len() == 19 && ms.len() == 23);
    assert(ls != ms);
    let m1 = stale_record(vc, o, first);
    let m2 = stale_record(vc, m1, second);
    lemma_trim_idempotent(lookup(o, ls), true);
    lemma_trim_idempotent(lookup(o, ms), true);
    assert(lookup(m1, ms) == lookup(m2, ms));
    assert forall|c: Seq<char>| #[trigger] m2.contains_key(c) == m1.contains_key(c) by {}
    assert forall|c: Seq<char>| m1.contains_key(c) implies #[trigger] m2[c] == m1[c] by {
        if c != ls && c != ms {
            assert(vc.contains(c));
            let i = choose|i: int| 0 <= i < vc.len() && vc[i] == c;
            assert(!state_column(vc[i]));
            lemma_trim_idempotent(lookup(o, c), true);
        }
    }
    assert(m2 =~= m1);
}

/// A module of the latest response stored again with a new time of the check.
proof fn lemma_current_again(
    vc: Seq<Seq<char>>,
    row: Map<Seq<char>, Seq<char>>,
    first: Seq<char>,
    second: Seq<char>,
)
    ensures
        current_record(vc, row, second) == current_record(vc, row, first).insert(
            "_notifier_last_seen"@,
            second,
        ),
{
    reveal_strlit("_notifier_last_seen");
    reveal_strlit("_notifier_missing_since");
    assert("_notifier_last_seen"@.len() == 19 && "_notifier_missing_since"@.len() == 23);
    assert(current_record(vc, row, second) =~= current_record(vc, row, first).insert(
        "_notifier_last_seen"@,
        second,
    ));
}

/// Rerunning with unchanged grades changes the stored state only where it
/// records the time of the check: the columns stay, the modules of the
/// response get the new "last seen" time, and the missing modules stay as
/// they were (given a first time of the check that is stripped and not empty).
#[verifier::spinoff_prover]
pub proof fn law_unchanged_rerun_keeps_state(
    previous: TableView,
    current: TableView,
    first: Seq<char>,
    second: Seq<char>,
    keys: Map<Seq<char>, Seq<char>>,
)
    requires
        reconcile_spec(previous, current, first, keys) is Ok,
        normalise_spec(first) == first,
        first.len() > 0,
    ensures
        ({
            let s1 = run_state(previous, current, first, keys);
            let s2 = run_state(s1, current, second, keys);
            let n = prepare_spec(current).rows.len();
            &&& reconcile_spec(s1, current, second, keys) is Ok
            &&& run_events(s1, current, second, keys).len() == 0
            &&& s2.columns == s1.columns
            &&& s2.rows.len() == s1.rows.len()
            &&& forall|j: int|
                0 <= j < n ==> #[trigger] s2.rows[j] == s1.rows[j].insert(
                    "_notifier_last_seen"@,
                    second,
                )
            &&& forall|j: int| n <= j < s1.rows.len() ==> #[trigger] s2.rows[j] == s1.rows[j]
        }),
{
    law_unchanged_rerun_is_silent(previous, current, first, second, keys);
    lemma_keys_ignore_padding(keys);
    lemma_run_facts(previous, current, first, keys);
    let s1 = run_state(previous, current, first, keys);
    let cur = prepare_spec(current);
    let kc = key_column_of(current, keys);
    let vc1 = value_columns_of(previous, current, keys);
    let cached1 = cached_rows(previous, kc, keys);
    let n = cur.rows.len() as int;
    lemma_state_columns(vc1, kc);
    assert(cached_columns(s1, kc) == s1.columns);
    lemma_value_columns_stable(cur.columns, cached_columns(previous, kc));
    assert(value_columns_of(s1, current, keys) == vc1);
    lemma_value_columns_clean(cur.columns + cached_columns(previous, kc));
    lemma_run_facts(s1, current, second, keys);
    let s2 = run_state(s1, current, second, keys);
    // Every stored row has an identifier; the missing ones are not shown now.
    assert forall|j: int| n <= j < s1.rows.len() implies row_key(keys, #[trigger] s1.rows[j], kc).len()
        > 0 && !seen_now(cur.rows, s1.rows[j], kc, keys) && stale_record(vc1, s1.rows[j], second)
        == s1.rows[j] by {
        assert(stored_as_missing(cached1, cur.rows, kc, keys, vc1, s1.rows[j], first));
        let q = choose|q: int|
            0 <= q < cached1.len() && !seen_now(cur.rows, #[trigger] cached1[q], kc, keys)
                && s1.rows[j] == stale_record(vc1, cached1[q], first) && row_key(
                keys,
                cached1[q],
                kc,
            ).len() > 0;
        lemma_stale_record_lookup(vc1, cached1[q], first, kc);
        assert(key_of(keys, normalise_spec(lookup(cached1[q], kc))) == key_of(
            keys,
            lookup(cached1[q], kc),
        ));
        assert(row_key(keys, s1.rows[j], kc) == row_key(keys, cached1[q], kc));
        if seen_now(cur.rows, s1.rows[j], kc, keys) {
            let i = choose|i: int|
                0 <= i < cur.rows.len() && row_key(keys, s1.rows[j], kc) == row_key(
                    keys,
                    #[trigger] cur.rows[i],
                    kc,
                );
            assert(seen_now(cur.rows, cached1[q], kc, keys));
        }
        lemma_stale_again(vc1, cached1[q], first, second);
    }
    let f = |r: Map<Seq<char>, Seq<char>>|
        if row_key(keys, r, kc).len() > 0 {
            Some(r)
        } else {
            None
        };
    let copts = s1.rows.map_values(f);
    assert forall|i: int| 0 <= i < copts.len() implies #[trigger] copts[i] == Some(s1.rows[i]) by {
        if i < n {
            assert(row_key(keys, s1.rows[i], kc).len() > 0);
        }
    }
    lemma_some_values_all(copts, s1.rows);
    let cached2 = cached_rows(s1, kc, keys);
    assert(cached2 == s1.rows);
    let opts = cached2.map_values(
        |o: Map<Seq<char>, Seq<char>>|
            if seen_now(cur.rows, o, kc, keys) {
                None
            } else {
                Some(stale_record(vc1, o, second))
            },
    );
    let head = opts.take(n);
    let tail = opts.skip(n);
    assert(opts =~= head + tail);
    lemma_some_values_concat(head, tail);
    assert forall|i: int| 0 <= i < head.len() implies #[trigger] head[i] is None by {
        assert(row_key(keys, s1.rows[i], kc) == row_key(keys, cur.rows[i], kc));
        assert(seen_now(cur.rows, s1.rows[i], kc, keys));
    }
    lemma_some_values_none(head);
    let rest = s1.rows.skip(n);
    assert forall|i: int| 0 <= i < tail.len() implies #[trigger] tail[i] == Some(rest[i]) by {
        assert(tail[i] == opts[n + i]);
    }
    lemma_some_values_all(tail, rest);
    let fresh = cur.rows.map_values(
        |r: Map<Seq<char>, Seq<char>>| current_record(vc1, r, second),
    );
    assert(s2.rows == fresh + some_values(opts));
    assert(some_values(opts) =~= rest);
    assert forall|j: int| 0 <= j < n implies #[trigger] s2.rows[j] == s1.rows[j].insert(
        "_notifier_last_seen"@,
        second,
    ) by {
        lemma_current_again(vc1, cur.rows[j], first, second);
    }
}

} // verus!
