//! pandas' `_expand_colspan_rowspan`: the cells of table rows spread over the
//! columns and rows that their `colspan` and `rowspan` cover.

use vstd::prelude::*;

use crate::table::texts;

verus! {

/// One table cell: its text and how many rows and columns it covers.
#[derive(Debug, Clone, PartialEq, Eq)]
pub struct Cell {
    pub text: String,
    pub rowspan: usize,
    pub colspan: usize,
}

pub struct CellView {
    pub text: Seq<char>,
    pub rowspan: nat,
    pub colspan: nat,
}

impl View for Cell {
    type V = CellView;

    open spec fn view(&self) -> CellView {
        CellView { text: self.text@, rowspan: self.rowspan as nat, colspan: self.colspan as nat }
    }
}

/// A text that a rowspan carries into later rows: its column, the text and
/// the number of rows it still has to fill.
pub type Carried = (int, Seq<char>, nat);

/// Where a row stands while its cells are placed: the texts so far, what
/// carries on into the next row, what the rows above still carry into this
/// one, and the next column.
#[verifier::ext_equal]
pub struct SpanState {
    pub texts: Seq<Seq<char>>,
    pub next: Seq<Carried>,
    pub pending: Seq<Carried>,
    pub index: int,
}

/// `texts` with `text` added, and `next` with `text` carried on if `rowspan`
/// reaches further down than this row.
pub open spec fn put(st: SpanState, column: int, text: Seq<char>, rowspan: nat) -> SpanState {
    SpanState {
        texts: st.texts.push(text),
        next: if rowspan > 1 {
            st.next.push((column, text, (rowspan - 1) as nat))
        } else {
            st.next
        },
        pending: st.pending,
        index: st.index + 1,
    }
}

/// Place the carried texts whose column has been reached.
pub open spec fn take_pending(st: SpanState) -> SpanState
    decreases st.pending.len(),
{
    if st.pending.len() > 0 && st.pending[0].0 <= st.index {
        let c = st.pending[0];
        take_pending(
            put(
                SpanState { pending: st.pending.drop_first(), ..st },
                c.0,
                c.1,
                c.2,
            ),
        )
    } else {
        st
    }
}

/// Place `n` copies of a cell's text, one per column it covers.
pub open spec fn spread_cell(st: SpanState, text: Seq<char>, rowspan: nat, n: nat) -> SpanState
    decreases n,
{
    if n == 0 {
        st
    } else {
        spread_cell(put(st, st.index, text, rowspan), text, rowspan, (n - 1) as nat)
    }
}

/// Place the cells of a row, each after the carried texts that come before it.
pub open spec fn place_cells(st: SpanState, cells: Seq<CellView>) -> SpanState
    decreases cells.len(),
{
    if cells.len() == 0 {
        st
    } else {
        let before = take_pending(place_cells(st, cells.drop_last()));
        let c = cells.last();
        spread_cell(before, c.text, c.rowspan, c.colspan)
    }
}

/// Place every carried text that is left, whatever its column.
pub open spec fn flush_pending(st: SpanState) -> SpanState
    decreases st.pending.len(),
{
    if st.pending.len() > 0 {
        let c = st.pending[0];
        flush_pending(put(SpanState { pending: st.pending.drop_first(), ..st }, c.0, c.1, c.2))
    } else {
        st
    }
}

/// The texts of one row and what it carries into the next, given what the
/// rows above carry into it.
pub open spec fn expand_row(carried: Seq<Carried>, cells: Seq<CellView>) -> (
    Seq<Seq<char>>,
    Seq<Carried>,
) {
    let st = flush_pending(
        place_cells(
            SpanState { texts: Seq::empty(), next: Seq::empty(), pending: carried, index: 0 },
            cells,
        ),
    );
    (st.texts, st.next)
}

/// The texts of the rows and what the last one carries on.
pub open spec fn expand_rows(rows: Seq<Seq<CellView>>) -> (Seq<Seq<Seq<char>>>, Seq<Carried>)
    decreases rows.len(),
{
    if rows.len() == 0 {
        (Seq::empty(), Seq::empty())
    } else {
        let (done, carried) = expand_rows(rows.drop_last());
        let (texts, next) = expand_row(carried, rows.last());
        (done.push(texts), next)
    }
}

/// How many rows, counted over all carried texts, are still to be filled,
/// plus one for each carried text.
pub open spec fn carried_weight(c: Seq<Carried>) -> nat
    decreases c.len(),
{
    if c.len() == 0 {
        0
    } else {
        carried_weight(c.drop_last()) + c.last().2 + 1
    }
}

pub proof fn lemma_weight_push(c: Seq<Carried>, x: Carried)
    ensures
        carried_weight(c.push(x)) == carried_weight(c) + x.2 + 1,
{
    assert(c.push(x).drop_last() =~= c);
}

pub proof fn lemma_weight_drop_first(c: Seq<Carried>)
    requires
        c.len() > 0,
    ensures
        carried_weight(c) == carried_weight(c.drop_first()) + c[0].2 + 1,
    decreases c.len(),
{
    if c.len() > 1 {
        lemma_weight_drop_first(c.drop_last());
        assert(c.drop_last().drop_first() =~= c.drop_first().drop_last());
    } else {
        assert(c.drop_first() =~= Seq::<Carried>::empty());
        assert(c.drop_last() =~= Seq::<Carried>::empty());
    }
}

/// Flushing carried texts carries on less than it had.
pub proof fn lemma_flush_lighter(st: SpanState)
    ensures
        carried_weight(flush_pending(st).next) <= carried_weight(st.next) + carried_weight(
            st.pending,
        ) - st.pending.len(),
    decreases st.pending.len(),
{
    if st.pending.len() > 0 {
        let c = st.pending[0];
        let st2 = put(SpanState { pending: st.pending.drop_first(), ..st }, c.0, c.1, c.2);
        lemma_weight_drop_first(st.pending);
        if c.2 > 1 {
            lemma_weight_push(st.next, (c.0, c.1, (c.2 - 1) as nat));
        }
        lemma_flush_lighter(st2);
    }
}

/// The rows that only exist because a rowspan reaches past the last row.
pub open spec fn trailing_rows(carried: Seq<Carried>) -> Seq<Seq<Seq<char>>>
    decreases carried_weight(carried),
{
    if carried.len() == 0 {
        Seq::empty()
    } else {
        let (texts, next) = expand_row(carried, Seq::empty());
        proof {
            lemma_flush_lighter(
                SpanState { texts: Seq::empty(), next: Seq::empty(), pending: carried, index: 0 },
            );
        }
        seq![texts] + trailing_rows(next)
    }
}

/// pandas' `_expand_colspan_rowspan` on the cells of `rows`.
pub open spec fn expand_spans_spec(rows: Seq<Seq<CellView>>) -> Seq<Seq<Seq<char>>> {
    let (done, carried) = expand_rows(rows);
    done + trailing_rows(carried)
}

/// A carried text as the row loop holds it.
pub type Entry = (usize, String, usize);

pub open spec fn carried_views(v: Seq<Entry>) -> Seq<Carried> {
    v.map_values(|e: Entry| (e.0 as int, e.1@, e.2 as nat))
}

pub open spec fn cell_views(v: Seq<Cell>) -> Seq<CellView> {
    v.map_values(|c: Cell| c@)
}

pub open spec fn cell_rows(v: Seq<Vec<Cell>>) -> Seq<Seq<CellView>> {
    v.map_values(|r: Vec<Cell>| cell_views(r@))
}

pub open spec fn row_texts(v: Seq<Vec<String>>) -> Seq<Seq<Seq<char>>> {
    v.map_values(|r: Vec<String>| texts(r@))
}

/// The state that the row loop's variables stand for.
pub open spec fn state_of(
    out: Seq<String>,
    next: Seq<Entry>,
    carried: Seq<Entry>,
    p: int,
    index: int,
) -> SpanState {
    SpanState {
        texts: texts(out),
        next: carried_views(next),
        pending: carried_views(carried).skip(p),
        index,
    }
}

fn put_text(
    out: &mut Vec<String>,
    next: &mut Vec<Entry>,
    column: usize,
    text: String,
    rowspan: usize,
)
    ensures
        texts(final(out)@) == texts(old(out)@).push(text@),
        carried_views(final(next)@) == if rowspan > 1 {
            carried_views(old(next)@).push((column as int, text@, (rowspan - 1) as nat))
        } else {
            carried_views(old(next)@)
        },
{
    if rowspan > 1 {
        next.push((column, text.clone(), rowspan - 1));
        assert(carried_views(next@) =~= carried_views(old(next)@).push(
            (column as int, text@, (rowspan - 1) as nat),
        ));
    }
    out.push(text);
    assert(texts(out@) =~= texts(old(out)@).push(text@));
}

/// The texts of one row and what it carries into the next.
fn expand_one_row(carried: &Vec<Entry>, cells: &Vec<Cell>) -> (r: (Vec<String>, Vec<Entry>))
    ensures
        (texts(r.0@), carried_views(r.1@)) == expand_row(carried_views(carried@), cell_views(cells@)),
{
    let mut out: Vec<String> = Vec::new();
    let mut next: Vec<Entry> = Vec::new();
    let mut p: usize = 0;
    let mut index: usize = 0;
    let ghost cs = cell_views(cells@);
    let ghost init = SpanState {
        texts: Seq::empty(),
        next: Seq::empty(),
        pending: carried_views(carried@),
        index: 0,
    };
    assert(texts(out@) =~= Seq::<Seq<char>>::empty());
    assert(carried_views(next@) =~= Seq::<Carried>::empty());
    assert(carried_views(carried@).skip(0) =~= carried_views(carried@));
    assert(state_of(out@, next@, carried@, 0, 0) =~= init);
    assert(cs.take(0) =~= Seq::<CellView>::empty());
    let mut k: usize = 0;
    while k < cells.len()
        invariant
            k <= cells.len(),
            p <= carried.len(),
            index == out.len(),
            cs == cell_views(cells@),
            init == (SpanState {
                texts: Seq::empty(),
                next: Seq::empty(),
                pending: carried_views(carried@),
                index: 0,
            }),
            state_of(out@, next@, carried@, p as int, index as int) == place_cells(
                init,
                cs.take(k as int),
            ),
        decreases cells.len() - k,
    {
        let ghost placed = place_cells(init, cs.take(k as int));
        while p < carried.len() && carried[p].0 <= index
            invariant
                p <= carried.len(),
                index == out.len(),
                take_pending(placed) == take_pending(
                    state_of(out@, next@, carried@, p as int, index as int),
                ),
            decreases carried.len() - p,
        {
            let ghost st = state_of(out@, next@, carried@, p as int, index as int);
            assert(carried_views(carried@).skip(p as int)[0] == carried_views(carried@)[p as int]);
            assert(carried_views(carried@)[p as int] == (
                carried@[p as int].0 as int,
                carried@[p as int].1@,
                carried@[p as int].2 as nat,
            ));
            put_text(&mut out, &mut next, carried[p].0, carried[p].1.clone(), carried[p].2);
            p += 1;
            index = out.len();
            assert(carried_views(carried@).skip(p as int) =~= carried_views(carried@).skip(
                p - 1,
            ).drop_first());
            let ghost want = put(
                SpanState { pending: st.pending.drop_first(), ..st },
                st.pending[0].0,
                st.pending[0].1,
                st.pending[0].2,
            );
            assert(texts(out@) == want.texts);
            assert(carried_views(next@) == want.next);
            assert(carried_views(carried@).skip(p as int) == want.pending);
            assert(index as int == want.index);
            assert(state_of(out@, next@, carried@, p as int, index as int) =~= put(
                SpanState { pending: st.pending.drop_first(), ..st },
                st.pending[0].0,
                st.pending[0].1,
                st.pending[0].2,
            ));
        }
        let ghost taken = state_of(out@, next@, carried@, p as int, index as int);
        assert(take_pending(taken) == taken);
        let cell = &cells[k];
        assert(cs[k as int] == cell@);
        let mut n: usize = 0;
        while n < cell.colspan
            invariant
                n <= cell.colspan,
                p <= carried.len(),
                index == out.len(),
                spread_cell(taken, cell.text@, cell.rowspan as nat, cell.colspan as nat)
                    == spread_cell(
                    state_of(out@, next@, carried@, p as int, index as int),
                    cell.text@,
                    cell.rowspan as nat,
                    (cell.colspan - n) as nat,
                ),
            decreases cell.colspan - n,
        {
            let ghost st = state_of(out@, next@, carried@, p as int, index as int);
            put_text(&mut out, &mut next, index, cell.text.clone(), cell.rowspan);
            index = out.len();
            n += 1;
            let ghost want = put(st, st.index, cell.text@, cell.rowspan as nat);
            assert(texts(out@) == want.texts);
            assert(carried_views(next@) == want.next);
            assert(carried_views(carried@).skip(p as int) == want.pending);
            assert(state_of(out@, next@, carried@, p as int, index as int) =~= put(
                st,
                st.index,
                cell.text@,
                cell.rowspan as nat,
            ));
        }
        assert(cs.take(k + 1).drop_last() =~= cs.take(k as int));
        k += 1;
    }
    assert(cs.take(k as int) =~= cs);
    let ghost placed = state_of(out@, next@, carried@, p as int, index as int);
    while p < carried.len()
        invariant
            p <= carried.len(),
            index == out.len(),
            flush_pending(placed) == flush_pending(
                state_of(out@, next@, carried@, p as int, index as int),
            ),
        decreases carried.len() - p,
    {
        let ghost st = state_of(out@, next@, carried@, p as int, index as int);
        assert(carried_views(carried@).skip(p as int)[0] == carried_views(carried@)[p as int]);
            assert(carried_views(carried@)[p as int] == (
                carried@[p as int].0 as int,
                carried@[p as int].1@,
                carried@[p as int].2 as nat,
            ));
        put_text(&mut out, &mut next, carried[p].0, carried[p].1.clone(), carried[p].2);
        p += 1;
        index = out.len();
        assert(carried_views(carried@).skip(p as int) =~= carried_views(carried@).skip(
            p - 1,
        ).drop_first());
        let ghost want = put(
            SpanState { pending: st.pending.drop_first(), ..st },
            st.pending[0].0,
            st.pending[0].1,
            st.pending[0].2,
        );
        assert(texts(out@) == want.texts);
        assert(carried_views(next@) == want.next);
        assert(carried_views(carried@).skip(p as int) == want.pending);
        assert(state_of(out@, next@, carried@, p as int, index as int) =~= put(
            SpanState { pending: st.pending.drop_first(), ..st },
            st.pending[0].0,
            st.pending[0].1,
            st.pending[0].2,
        ));
    }
    assert(carried_views(carried@).skip(p as int) =~= Seq::<Carried>::empty());
    (out, next)
}

/// pandas' `_expand_colspan_rowspan`: every row's texts, each cell
/// repeated over the columns and rows it spans.
pub fn expand_spans(rows: &Vec<Vec<Cell>>) -> (r: Vec<Vec<String>>)
    ensures
        row_texts(r@) == expand_spans_spec(cell_rows(rows@)),
{
    let mut all: Vec<Vec<String>> = Vec::new();
    let mut carried: Vec<Entry> = Vec::new();
    let ghost rs = cell_rows(rows@);
    let mut i: usize = 0;
    assert(rs.take(0) =~= Seq::<Seq<CellView>>::empty());
    assert(row_texts(all@) =~= Seq::<Seq<Seq<char>>>::empty());
    assert(carried_views(carried@) =~= Seq::<Carried>::empty());
    while i < rows.len()
        invariant
            i <= rows.len(),
            rs == cell_rows(rows@),
            (row_texts(all@), carried_views(carried@)) == expand_rows(rs.take(i as int)),
        decreases rows.len() - i,
    {
        let (texts_of_row, next) = expand_one_row(&carried, &rows[i]);
        let ghost before = row_texts(all@);
        all.push(texts_of_row);
        assert(row_texts(all@) =~= before.push(texts(texts_of_row@)));
        assert(rs.take(i + 1).drop_last() =~= rs.take(i as int));
        assert(rs[i as int] == cell_views(rows@[i as int]@));
        carried = next;
        i += 1;
    }
    assert(rs.take(i as int) =~= rs);
    while carried.len() > 0
        invariant
            rs == cell_rows(rows@),
            row_texts(all@) + trailing_rows(carried_views(carried@)) == expand_spans_spec(rs),
        decreases carried_weight(carried_views(carried@)),
    {
        let no_cells: Vec<Cell> = Vec::new();
        assert(cell_views(no_cells@) =~= Seq::<CellView>::empty());
        let (texts_of_row, next) = expand_one_row(&carried, &no_cells);
        proof {
            lemma_flush_lighter(
                SpanState {
                    texts: Seq::empty(),
                    next: Seq::empty(),
                    pending: carried_views(carried@),
                    index: 0,
                },
            );
        }
        let ghost before = row_texts(all@);
        all.push(texts_of_row);
        assert(row_texts(all@) =~= before.push(texts(texts_of_row@)));
        assert(row_texts(all@) + trailing_rows(carried_views(next@)) =~= before
            + trailing_rows(carried_views(carried@)));
        carried = next;
    }
    assert(row_texts(all@) + trailing_rows(carried_views(carried@)) =~= row_texts(all@));
    all
}

} // verus!
