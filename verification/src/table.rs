//! Tables of string values: rows keyed by column name, with ordered columns.

use vstd::prelude::*;

use crate::text::{
    chars_of, contains_text, decimal, decimal_chars, lemma_decimal_injective, lemma_decimal_len,
    push_str_chars, string_from_chars,
};

pub use crate::text::{is_python_space, normalise_value};

verus! {

/// A finite map from strings to strings, such as one table row keyed by column name.
#[derive(Debug)]
pub struct StrMap {
    entries: Vec<(String, String)>,
}

/// The value stored under `key`, or the empty string when `key` is absent
/// (like Python's `dict.get(key, "")`).
pub open spec fn lookup(map: Map<Seq<char>, Seq<char>>, key: Seq<char>) -> Seq<char> {
    if map.contains_key(key) {
        map[key]
    } else {
        Seq::empty()
    }
}

impl StrMap {
    #[verifier::type_invariant]
    closed spec fn keys_distinct(self) -> bool {
        forall|i: int, j: int|
            0 <= i < self.entries.len() && 0 <= j < self.entries.len() && i != j
                ==> #[trigger] self.entries@[i].0@ != #[trigger] self.entries@[j].0@
    }

    closed spec fn has_key_at(self, k: Seq<char>) -> bool {
        exists|i: int| 0 <= i < self.entries.len() && #[trigger] self.entries@[i].0@ == k
    }

    closed spec fn key_index(self, k: Seq<char>) -> int {
        choose|i: int| 0 <= i < self.entries.len() && #[trigger] self.entries@[i].0@ == k
    }

    proof fn lemma_entry(self, i: int)
        requires
            self.keys_distinct(),
            0 <= i < self.entries.len(),
        ensures
            self@.contains_key(self.entries@[i].0@),
            self@[self.entries@[i].0@] == self.entries@[i].1@,
    {
        let k = self.entries@[i].0@;
        assert(self.has_key_at(k));
        let j = self.key_index(k);
        assert(j == i);
    }

    /// An empty map.
    pub fn new() -> (r: Self)
        ensures
            r@ == Map::<Seq<char>, Seq<char>>::empty(),
    {
        let r = StrMap { entries: Vec::new() };
        assert(r@ =~= Map::<Seq<char>, Seq<char>>::empty());
        r
    }

    fn find(&self, key: &str) -> (r: Option<usize>)
        ensures
            match r {
                Some(i) => i < self.entries.len() && self.entries@[i as int].0@ == key@,
                None => !self@.contains_key(key@),
            },
    {
        let wanted = key.to_owned();
        let mut i: usize = 0;
        while i < self.entries.len()
            invariant
                i <= self.entries.len(),
                wanted@ == key@,
                forall|j: int| 0 <= j < i ==> #[trigger] self.entries@[j].0@ != key@,
            decreases self.entries.len() - i,
        {
            if self.entries[i].0 == wanted {
                return Some(i);
            }
            i += 1;
        }
        None
    }

    /// The value stored under `key`, if any.
    pub fn get(&self, key: &str) -> (r: Option<&String>)
        ensures
            r is Some <==> self@.contains_key(key@),
            r is Some ==> r.unwrap()@ == self@[key@],
    {
        proof {
            use_type_invariant(self);
        }
        match self.find(key) {
            Some(i) => {
                proof {
                    self.lemma_entry(i as int);
                }
                Some(&self.entries[i].1)
            },
            None => None,
        }
    }

    /// Store `value` under `key`, replacing an earlier value.
    pub fn insert(&mut self, key: String, value: String)
        ensures
            final(self)@ == old(self)@.insert(key@, value@),
    {
        proof {
            use_type_invariant(&*self);
        }
        let ghost before = *self;
        let found = self.find(key.as_str());
        let mut entries: Vec<(String, String)> = Vec::new();
        std::mem::swap(&mut entries, &mut self.entries);
        match found {
            Some(i) => {
                entries.set(i, (key, value));
            },
            None => {
                entries.push((key, value));
            },
        }
        self.entries = entries;
        proof {
            use_type_invariant(&*self);
            assert forall|k: Seq<char>| #[trigger] self@.contains_key(k) <==> before@.insert(
                key@,
                value@,
            ).contains_key(k) by {
                if self@.contains_key(k) {
                    assert(self.has_key_at(k));
                    let j = self.key_index(k);
                    if k != key@ {
                        assert(before.entries@[j].0@ == k);
                        assert(before.has_key_at(k));
                    }
                }
                if before@.contains_key(k) {
                    assert(before.has_key_at(k));
                    let j = before.key_index(k);
                    assert(self.entries@[j].0@ == k || k == key@);
                }
                if k == key@ {
                    let j = if self.entries.len() > before.entries.len() {
                        before.entries.len() as int
                    } else {
                        choose|j: int|
                            0 <= j < before.entries.len() && #[trigger] before.entries@[j].0@
                                == key@
                    };
                    assert(self.entries@[j].0@ == k);
                }
            }
            assert forall|k: Seq<char>| #[trigger] self@.contains_key(k) implies self@[k]
                == before@.insert(key@, value@)[k] by {
                assert(self.has_key_at(k));
                let j = self.key_index(k);
                self.lemma_entry(j);
                if k != key@ {
                    assert(before.entries@[j] == self.entries@[j]);
                    before.lemma_entry(j);
                }
            }
            assert(self@ =~= before@.insert(key@, value@));
        }
    }
}

impl StrMap {
    /// Number of keys.
    pub fn len(&self) -> (r: usize)
        ensures
            self@.dom().finite(),
            r == self@.dom().len(),
    {
        proof {
            use_type_invariant(self);
            let keys = self.entries@.map_values(|e: (String, String)| e.0@);
            assert(keys.no_duplicates()) by {
                assert forall|i: int, j: int|
                    0 <= i < keys.len() && 0 <= j < keys.len() && i != j implies keys[i]
                    != keys[j] by {
                    assert(keys[i] == self.entries@[i].0@);
                    assert(keys[j] == self.entries@[j].0@);
                }
            }
            assert forall|k: Seq<char>| #[trigger] self@.dom().contains(k) <==> keys.to_set().contains(k) by {
                if self@.dom().contains(k) {
                    let j = self.key_index(k);
                    assert(keys[j] == k);
                }
                if keys.to_set().contains(k) {
                    let j = choose|j: int| 0 <= j < keys.len() && keys[j] == k;
                    assert(self.entries@[j].0@ == k);
                }
            }
            assert(self@.dom() =~= keys.to_set());
            keys.unique_seq_to_set();
        }
        self.entries.len()
    }

    /// The stored values, in no particular order.
    pub fn values(&self) -> (r: Vec<String>)
        ensures
            forall|k: Seq<char>| #[trigger] self@.contains_key(k) ==> texts(r@).contains(self@[k]),
    {
        proof {
            use_type_invariant(self);
        }
        let mut r: Vec<String> = Vec::new();
        let mut i: usize = 0;
        while i < self.entries.len()
            invariant
                i <= self.entries.len(),
                r.len() == i,
                forall|x: int| 0 <= x < i ==> #[trigger] r@[x]@ == self.entries@[x].1@,
            decreases self.entries.len() - i,
        {
            r.push(self.entries[i].1.clone());
            i += 1;
        }
        proof {
            assert forall|k: Seq<char>| #[trigger] self@.contains_key(k) implies texts(r@).contains(
                self@[k],
            ) by {
                let x = self.key_index(k);
                self.lemma_entry(x);
                assert(texts(r@)[x] == self@[k]);
            }
        }
        r
    }

    /// A map with the same keys and values.
    pub fn copy(&self) -> (r: Self)
        ensures
            r@ == self@,
    {
        proof {
            use_type_invariant(self);
        }
        let mut entries: Vec<(String, String)> = Vec::new();
        let mut i: usize = 0;
        while i < self.entries.len()
            invariant
                i <= self.entries.len(),
                entries@ =~= self.entries@.take(i as int),
            decreases self.entries.len() - i,
        {
            let k = self.entries[i].0.clone();
            let v = self.entries[i].1.clone();
            entries.push((k, v));
            i += 1;
            assert(self.entries@.take(i as int) =~= self.entries@.take(i - 1).push(self.entries@[i - 1]));
        }
        assert(entries@ =~= self.entries@);
        StrMap { entries }
    }
}

impl View for StrMap {
    type V = Map<Seq<char>, Seq<char>>;

    closed spec fn view(&self) -> Map<Seq<char>, Seq<char>> {
        Map::new(|k: Seq<char>| self.has_key_at(k), |k: Seq<char>| self.entries@[self.key_index(k)].1@)
    }
}

/// The values of the `Some` entries of `s`, in order.
pub open spec fn some_values<B>(s: Seq<Option<B>>) -> Seq<B>
    decreases s.len(),
{
    if s.len() == 0 {
        Seq::empty()
    } else {
        let before = some_values(s.drop_last());
        match s.last() {
            Some(b) => before.push(b),
            None => before,
        }
    }
}

/// Extending a prefix of `s` by one element extends its `Some` values by at most that element.
pub proof fn lemma_some_values_step<B>(s: Seq<Option<B>>, i: int)
    requires
        0 <= i < s.len(),
    ensures
        some_values(s.take(i + 1)) == match s[i] {
            Some(b) => some_values(s.take(i)).push(b),
            None => some_values(s.take(i)),
        },
{
    assert(s.take(i + 1).drop_last() =~= s.take(i));
    assert(s.take(i + 1).last() == s[i]);
}

/// Each `Some` value of `s` comes from a position of `s`.
pub proof fn lemma_some_values_origin<B>(s: Seq<Option<B>>)
    ensures
        forall|a: int|
            0 <= a < some_values(s).len() ==> exists|i: int|
                0 <= i < s.len() && s[i] == Some(#[trigger] some_values(s)[a]),
    decreases s.len(),
{
    if s.len() > 0 {
        lemma_some_values_origin(s.drop_last());
        let before = some_values(s.drop_last());
        assert forall|a: int| 0 <= a < some_values(s).len() implies exists|i: int|
            0 <= i < s.len() && s[i] == Some(#[trigger] some_values(s)[a]) by {
            if a < before.len() {
                let i = choose|i: int|
                    0 <= i < s.drop_last().len() && s.drop_last()[i] == Some(before[a]);
                assert(s[i] == Some(some_values(s)[a]));
            } else {
                assert(s[s.len() - 1] == Some(some_values(s)[a]));
            }
        }
    }
}

/// Every `Some` value of `s` is among its `Some` values.
pub proof fn lemma_some_values_contains<B>(s: Seq<Option<B>>, i: int)
    requires
        0 <= i < s.len(),
        s[i] is Some,
    ensures
        exists|a: int| 0 <= a < some_values(s).len() && #[trigger] some_values(s)[a] == s[i]->0,
    decreases s.len(),
{
    let before = some_values(s.drop_last());
    if i == s.len() - 1 {
        assert(some_values(s)[before.len() as int] == s[i]->0);
    } else {
        lemma_some_values_contains(s.drop_last(), i);
        let a = choose|a: int| 0 <= a < before.len() && #[trigger] before[a] == s.drop_last()[i]->0;
        assert(some_values(s)[a] == s[i]->0);
    }
}

/// The `Some` values of `s` mapped to `Some(f(a))` where `keep(a)` holds and
/// to `None` elsewhere: the kept elements, mapped, in their order.
pub proof fn lemma_some_values_filter_map<A, B>(
    s: Seq<A>,
    keep: spec_fn(A) -> bool,
    f: spec_fn(A) -> B,
)
    ensures
        some_values(
            s.map_values(
                |a: A|
                    if keep(a) {
                        Some(f(a))
                    } else {
                        None
                    },
            ),
        ) == s.filter(keep).map_values(f),
    decreases s.len(),
{
    reveal_with_fuel(Seq::<_>::filter, 1);
    let g = |a: A|
        if keep(a) {
            Some(f(a))
        } else {
            None
        };
    if s.len() > 0 {
        lemma_some_values_filter_map(s.drop_last(), keep, f);
        assert(s.map_values(g).drop_last() =~= s.drop_last().map_values(g));
        assert(s.map_values(g).last() == g(s.last()));
        if keep(s.last()) {
            assert(s.filter(keep).map_values(f) =~= s.drop_last().filter(keep).map_values(f).push(
                f(s.last()),
            ));
        }
    } else {
        assert(s.filter(keep).map_values(f) =~= Seq::<B>::empty());
    }
}

/// A relation that holds of every ordered pair of `Some` values of `s` holds of
/// every ordered pair of its `Some` values.
pub proof fn lemma_some_values_pairs<B>(s: Seq<Option<B>>, rel: spec_fn(B, B) -> bool)
    requires
        forall|i: int, j: int|
            0 <= i < j < s.len() && #[trigger] s[i] is Some && #[trigger] s[j] is Some ==> rel(
                s[i]->0,
                s[j]->0,
            ),
    ensures
        forall|a: int, b: int|
            0 <= a < b < some_values(s).len() ==> rel(
                #[trigger] some_values(s)[a],
                #[trigger] some_values(s)[b],
            ),
    decreases s.len(),
{
    if s.len() > 0 {
        let p = s.drop_last();
        assert forall|i: int, j: int|
            0 <= i < j < p.len() && #[trigger] p[i] is Some && #[trigger] p[j] is Some implies rel(
            p[i]->0,
            p[j]->0,
        ) by {
            assert(p[i] == s[i] && p[j] == s[j]);
        }
        lemma_some_values_pairs(p, rel);
        lemma_some_values_origin(p);
        let before = some_values(p);
        assert forall|a: int, b: int| 0 <= a < b < some_values(s).len() implies rel(
            #[trigger] some_values(s)[a],
            #[trigger] some_values(s)[b],
        ) by {
            if b < before.len() {
                assert(some_values(s)[a] == before[a] && some_values(s)[b] == before[b]);
            } else {
                let i = choose|i: int| 0 <= i < p.len() && p[i] == Some(#[trigger] before[a]);
                assert(s[i] == Some(some_values(s)[a]));
                assert(s[s.len() - 1] == Some(some_values(s)[b]));
            }
        }
    }
}

/// There are no more `Some` values than entries.
pub proof fn lemma_some_values_len<B>(s: Seq<Option<B>>)
    ensures
        some_values(s).len() <= s.len(),
    decreases s.len(),
{
    if s.len() > 0 {
        lemma_some_values_len(s.drop_last());
    }
}

/// The `Some` values of two sequences one after the other.
pub proof fn lemma_some_values_concat<B>(a: Seq<Option<B>>, b: Seq<Option<B>>)
    ensures
        some_values(a + b) == some_values(a) + some_values(b),
    decreases b.len(),
{
    if b.len() == 0 {
        assert(a + b =~= a);
        assert(some_values(a) + some_values(b) =~= some_values(a));
    } else {
        lemma_some_values_concat(a, b.drop_last());
        assert((a + b).drop_last() =~= a + b.drop_last());
        assert((a + b).last() == b.last());
        match b.last() {
            Some(x) => {
                assert(some_values(a) + some_values(b) =~= (some_values(a) + some_values(
                    b.drop_last(),
                )).push(x));
            },
            None => {},
        }
    }
}

/// A sequence of `Some` values only keeps them all.
pub proof fn lemma_some_values_all<B>(s: Seq<Option<B>>, t: Seq<B>)
    requires
        s.len() == t.len(),
        forall|i: int| 0 <= i < s.len() ==> #[trigger] s[i] == Some(t[i]),
    ensures
        some_values(s) == t,
    decreases s.len(),
{
    if s.len() > 0 {
        lemma_some_values_all(s.drop_last(), t.drop_last());
        assert(t =~= t.drop_last().push(t.last()));
    } else {
        assert(t =~= Seq::<B>::empty());
    }
}

/// A sequence without `Some` values has none to keep.
pub proof fn lemma_some_values_none<B>(s: Seq<Option<B>>)
    requires
        forall|i: int| 0 <= i < s.len() ==> #[trigger] s[i] is None,
    ensures
        some_values(s) == Seq::<B>::empty(),
    decreases s.len(),
{
    if s.len() > 0 {
        lemma_some_values_none(s.drop_last());
    }
}

/// Whether `k` is among the first `c + 1` elements of `s`.
pub proof fn lemma_take_push_contains<A>(s: Seq<A>, c: int, k: A)
    requires
        0 <= c < s.len(),
    ensures
        s.take(c + 1).contains(k) <==> (s.take(c).contains(k) || s[c] == k),
{
    if s.take(c + 1).contains(k) {
        let x = choose|x: int| 0 <= x < c + 1 && #[trigger] s.take(c + 1)[x] == k;
        if x < c {
            assert(s.take(c)[x] == k);
        }
    }
    if s.take(c).contains(k) {
        let x = choose|x: int| 0 <= x < c && #[trigger] s.take(c)[x] == k;
        assert(s.take(c + 1)[x] == k);
    }
    if s[c] == k {
        assert(s.take(c + 1)[c] == k);
    }
}

/// One table row, keyed by column name.
pub type Record = StrMap;

/// Look up a value, treating absent columns as empty (like `dict.get(col, "")`).
pub fn value<'a>(record: &'a Record, column: &str) -> (r: &'a str)
    ensures
        r@ == lookup(record@, column@),
{
    match record.get(column) {
        Some(v) => v.as_str(),
        None => {
            proof {
                reveal_strlit("");
            }
            ""
        },
    }
}

/// What a table holds: its column names in order and its rows.
pub struct TableView {
    pub columns: Seq<Seq<char>>,
    pub rows: Seq<Map<Seq<char>, Seq<char>>>,
}

/// The characters of each string in `v`.
pub open spec fn texts(v: Seq<String>) -> Seq<Seq<char>> {
    v.map_values(|s: String| s@)
}

/// A table of string values with ordered column names.
#[derive(Debug)]
pub struct Table {
    pub columns: Vec<String>,
    pub rows: Vec<Record>,
}

impl View for Table {
    type V = TableView;

    open spec fn view(&self) -> TableView {
        TableView { columns: texts(self.columns@), rows: self.rows@.map_values(|r: Record| r@) }
    }
}

impl Default for Table {
    fn default() -> (r: Self)
        ensures
            r@ == Table::default_view(),
    {
        Table::empty()
    }
}

/// The row that pairs each column with the value at its position, or with the
/// empty string past the end of `values`; a later column of the same name wins.
pub open spec fn zip_record(columns: Seq<Seq<char>>, values: Seq<Seq<char>>) -> Map<
    Seq<char>,
    Seq<char>,
>
    decreases columns.len(),
{
    if columns.len() == 0 {
        Map::empty()
    } else {
        let n = columns.len() - 1;
        zip_record(columns.drop_last(), values).insert(
            columns.last(),
            if n < values.len() {
                values[n]
            } else {
                Seq::empty()
            },
        )
    }
}

impl Table {
    /// What an empty table holds.
    pub open spec fn default_view() -> TableView {
        TableView { columns: Seq::empty(), rows: Seq::empty() }
    }

    /// A table without columns and rows.
    pub fn empty() -> (r: Self)
        ensures
            r@ == Self::default_view(),
    {
        let r = Table { columns: Vec::new(), rows: Vec::new() };
        assert(r@.columns =~= Seq::<Seq<char>>::empty());
        assert(r@.rows =~= Seq::<Map<Seq<char>, Seq<char>>>::empty());
        r
    }

    pub fn has_column(&self, column: &str) -> (r: bool)
        ensures
            r == self@.columns.contains(column@),
    {
        contains_text(&self.columns, column)
    }

    /// Build a table from positional rows; handy in tests and parsers.
    pub fn from_rows(columns: &[&str], rows: &[Vec<String>]) -> (r: Self)
        ensures
            r@.columns == columns@.map_values(|c: &str| c@),
            r@.rows.len() == rows@.len(),
            forall|i: int|
                0 <= i < rows@.len() ==> #[trigger] r@.rows[i] == zip_record(
                    columns@.map_values(|c: &str| c@),
                    texts(rows@[i]@),
                ),
    {
        let ghost cols = columns@.map_values(|c: &str| c@);
        let mut names: Vec<String> = Vec::new();
        let mut k: usize = 0;
        while k < columns.len()
            invariant
                k <= columns.len(),
                cols == columns@.map_values(|c: &str| c@),
                names.len() == k,
                texts(names@) =~= cols.take(k as int),
            decreases columns.len() - k,
        {
            let name = columns[k].to_owned();
            assert(name@ == cols[k as int]);
            names.push(name);
            k += 1;
            assert(names@[k - 1]@ == cols[k - 1]);
        }
        let mut records: Vec<Record> = Vec::new();
        let mut i: usize = 0;
        while i < rows.len()
            invariant
                i <= rows.len(),
                cols == columns@.map_values(|c: &str| c@),
                texts(names@) == cols,
                records.len() == i,
                forall|j: int|
                    0 <= j < i ==> #[trigger] records@[j]@ == zip_record(cols, texts(rows@[j]@)),
            decreases rows.len() - i,
        {
            let values = &rows[i];
            let mut record = StrMap::new();
            let mut c: usize = 0;
            while c < names.len()
                invariant
                    c <= names.len(),
                    texts(names@) == cols,
                    record@ == zip_record(cols.take(c as int), texts(values@)),
                decreases names.len() - c,
            {
                let v = if c < values.len() {
                    values[c].clone()
                } else {
                    String::new()
                };
                record.insert(names[c].clone(), v);
                c += 1;
                assert(cols.take(c as int).drop_last() =~= cols.take(c - 1));
            }
            assert(cols.take(names.len() as int) =~= cols);
            records.push(record);
            i += 1;
        }
        Table { columns: names, rows: records }
    }
}

/// `name.suffix`, the name that a repeated column gets.
pub open spec fn suffixed(name: Seq<char>, suffix: nat) -> Seq<char> {
    name + seq!['.'] + decimal(suffix)
}

/// Whether the candidate `c` for a column `name` is already taken, given the
/// names chosen so far and all original names.
pub open spec fn taken(
    c: Seq<char>,
    name: Seq<char>,
    chosen: Seq<Seq<char>>,
    original: Seq<Seq<char>>,
) -> bool {
    chosen.contains(c) || (c != name && original.contains(c))
}

/// `r` is the name chosen for `name`: the name itself unless an earlier column
/// took it, else `name.k` for the least `k >= 1` that is neither chosen nor an
/// original name.
pub open spec fn dedup_choice(
    name: Seq<char>,
    chosen: Seq<Seq<char>>,
    original: Seq<Seq<char>>,
    r: Seq<char>,
) -> bool {
    if !chosen.contains(name) {
        r == name
    } else {
        exists|k: nat|
            k >= 1 && r == #[trigger] suffixed(name, k) && !taken(r, name, chosen, original)
                && forall|j: nat|
                1 <= j < k ==> taken(#[trigger] suffixed(name, j), name, chosen, original)
    }
}

/// `r` renames the duplicates in `names` the way pandas does (`X`, `X.1`, `X.2`, ...).
pub open spec fn dedup_spec(names: Seq<Seq<char>>, r: Seq<Seq<char>>) -> bool {
    &&& r.len() == names.len()
    &&& forall|i: int|
        0 <= i < names.len() ==> dedup_choice(names[i], r.take(i), names, #[trigger] r[i])
}

/// The name pandas gives a column: its header, or `Unnamed: <index>` when the header is empty.
pub open spec fn header_name(raw: Seq<Seq<char>>, i: int) -> Seq<char> {
    if raw[i].len() == 0 {
        "Unnamed: "@ + decimal(i as nat)
    } else {
        raw[i]
    }
}

proof fn lemma_suffixed_injective(name: Seq<char>, a: nat, b: nat)
    requires
        suffixed(name, a) == suffixed(name, b),
    ensures
        a == b,
{
    let n = name.len() as int + 1;
    assert(suffixed(name, a).skip(n) =~= decimal(a));
    assert(suffixed(name, b).skip(n) =~= decimal(b));
    lemma_decimal_injective(a, b);
}

proof fn lemma_distinct_within<A>(c: Seq<A>, pool: Seq<A>)
    requires
        c.no_duplicates(),
        forall|i: int| 0 <= i < c.len() ==> pool.contains(#[trigger] c[i]),
    ensures
        c.len() <= pool.len(),
{
    c.unique_seq_to_set();
    pool.lemma_cardinality_of_set();
    assert(c.to_set().subset_of(pool.to_set()));
    vstd::set_lib::lemma_len_subset(c.to_set(), pool.to_set());
}

fn suffixed_name(name: &str, suffix: u128) -> (r: String)
    ensures
        r@ == suffixed(name@, suffix as nat),
{
    let mut chars = chars_of(name);
    chars.push('.');
    let digits = decimal_chars(suffix);
    let mut i: usize = 0;
    let ghost start = chars@;
    while i < digits.len()
        invariant
            i <= digits.len(),
            chars@ == start + digits@.take(i as int),
        decreases digits.len() - i,
    {
        chars.push(digits[i]);
        i += 1;
        assert(digits@.take(i as int) =~= digits@.take(i - 1).push(digits@[i - 1]));
    }
    assert(digits@.take(i as int) =~= digits@);
    assert(chars@ =~= suffixed(name@, suffix as nat));
    string_from_chars(chars)
}

/// Rename duplicate column names the way pandas does (`X`, `X.1`, `X.2`, ...).
pub fn dedup_names(names: Vec<String>) -> (r: Vec<String>)
    ensures
        dedup_spec(texts(names@), texts(r@)),
{
    let ghost orig = texts(names@);
    let mut result: Vec<String> = Vec::new();
    let mut i: usize = 0;
    while i < names.len()
        invariant
            i <= names.len(),
            result.len() == i,
            orig == texts(names@),
            forall|t: int|
                0 <= t < i ==> dedup_choice(
                    orig[t],
                    texts(result@).take(t),
                    orig,
                    #[trigger] texts(result@)[t],
                ),
        decreases names.len() - i,
    {
        let name = &names[i];
        let ghost chosen = texts(result@);
        let mut candidate = name.clone();
        let mut suffix: u128 = 1;
        while contains_text(&result, candidate.as_str()) || (!(candidate == *name) && contains_text(
            &names,
            candidate.as_str(),
        ))
            invariant
                i < names.len(),
                result.len() == i,
                chosen == texts(result@),
                orig == texts(names@),
                name@ == orig[i as int],
                1 <= suffix <= i + names.len() + 1,
                candidate@ == (if suffix == 1 {
                    name@
                } else {
                    suffixed(name@, (suffix - 1) as nat)
                }),
                suffix > 1 ==> chosen.contains(name@),
                forall|j: nat|
                    1 <= j < suffix - 1 ==> taken(#[trigger] suffixed(name@, j), name@, chosen, orig),
            decreases i + names.len() + 2 - suffix,
        {
            proof {
                let n = suffix as nat;
                let c = Seq::new(
                    n,
                    |j: int|
                        if j == 0 {
                            name@
                        } else {
                            suffixed(name@, j as nat)
                        },
                );
                let pool = chosen + orig;
                assert(chosen.contains(name@));
                assert forall|j: nat| j >= 1 implies #[trigger] suffixed(name@, j).len()
                    > name@.len() by {
                    lemma_decimal_len(j);
                }
                assert forall|a: int, b: int|
                    0 <= a < c.len() && 0 <= b < c.len() && a != b implies c[a] != c[b] by {
                    if a != 0 && b != 0 && c[a] == c[b] {
                        lemma_suffixed_injective(name@, a as nat, b as nat);
                    }
                    if a == 0 {
                        assert(suffixed(name@, b as nat).len() > name@.len());
                    }
                    if b == 0 {
                        assert(suffixed(name@, a as nat).len() > name@.len());
                    }
                }
                assert forall|a: int| 0 <= a < c.len() implies pool.contains(#[trigger] c[a]) by {
                    if a > 0 {
                        let j = a as nat;
                        assert(suffixed(name@, j).len() > name@.len());
                        assert(taken(suffixed(name@, j), name@, chosen, orig));
                    }
                    if chosen.contains(c[a]) {
                        let p = choose|p: int| 0 <= p < chosen.len() && chosen[p] == c[a];
                        assert(pool[p] == c[a]);
                    } else {
                        let p = choose|p: int| 0 <= p < orig.len() && orig[p] == c[a];
                        assert(pool[chosen.len() + p] == c[a]);
                    }
                }
                lemma_distinct_within(c, pool);
            }
            candidate = suffixed_name(name.as_str(), suffix);
            suffix = suffix + 1;
        }
        proof {
            if suffix > 1 {
                let k = (suffix - 1) as nat;
                assert(candidate@ == suffixed(name@, k));
                assert(dedup_choice(name@, chosen, orig, candidate@));
            }
        }
        result.push(candidate);
        proof {
            assert forall|t: int| 0 <= t < i + 1 implies dedup_choice(
                orig[t],
                texts(result@).take(t),
                orig,
                #[trigger] texts(result@)[t],
            ) by {
                assert(texts(result@).take(t) =~= chosen.take(t)) by {
                    if t < i {
                    }
                }
                if t == i {
                    assert(chosen.take(t) =~= chosen);
                } else {
                    assert(texts(result@)[t] == chosen[t]);
                }
            }
        }
        i += 1;
    }
    result
}

/// One name can be chosen for a column, given the names before it.
pub proof fn lemma_dedup_choice_unique(
    name: Seq<char>,
    chosen: Seq<Seq<char>>,
    original: Seq<Seq<char>>,
    a: Seq<char>,
    b: Seq<char>,
)
    requires
        dedup_choice(name, chosen, original, a),
        dedup_choice(name, chosen, original, b),
    ensures
        a == b,
{
    if chosen.contains(name) {
        let ka = choose|k: nat|
            k >= 1 && a == #[trigger] suffixed(name, k) && !taken(a, name, chosen, original)
                && forall|j: nat|
                1 <= j < k ==> taken(#[trigger] suffixed(name, j), name, chosen, original);
        let kb = choose|k: nat|
            k >= 1 && b == #[trigger] suffixed(name, k) && !taken(b, name, chosen, original)
                && forall|j: nat|
                1 <= j < k ==> taken(#[trigger] suffixed(name, j), name, chosen, original);
        if ka < kb {
            assert(taken(suffixed(name, ka), name, chosen, original));
        } else if kb < ka {
            assert(taken(suffixed(name, kb), name, chosen, original));
        }
    }
}

/// Two renamings of duplicates agree on their first `i` names.
proof fn lemma_dedup_prefix(names: Seq<Seq<char>>, a: Seq<Seq<char>>, b: Seq<Seq<char>>, i: int)
    requires
        dedup_spec(names, a),
        dedup_spec(names, b),
        0 <= i <= names.len(),
    ensures
        a.take(i) == b.take(i),
    decreases i,
{
    if i > 0 {
        lemma_dedup_prefix(names, a, b, i - 1);
        lemma_dedup_choice_unique(names[i - 1], a.take(i - 1), names, a[i - 1], b[i - 1]);
        assert(a.take(i) =~= a.take(i - 1).push(a[i - 1]));
        assert(b.take(i) =~= b.take(i - 1).push(b[i - 1]));
    } else {
        assert(a.take(0) =~= b.take(0));
    }
}

/// The renaming of duplicates is unique.
pub proof fn lemma_dedup_unique(names: Seq<Seq<char>>, a: Seq<Seq<char>>, b: Seq<Seq<char>>)
    requires
        dedup_spec(names, a),
        dedup_spec(names, b),
    ensures
        a == b,
{
    lemma_dedup_prefix(names, a, b, names.len() as int);
    assert(a.take(names.len() as int) =~= a);
    assert(b.take(names.len() as int) =~= b);
}

/// Renamed columns are distinct: no name is chosen twice.
pub proof fn law_dedup_names_distinct(names: Seq<Seq<char>>, r: Seq<Seq<char>>)
    requires
        dedup_spec(names, r),
    ensures
        r.no_duplicates(),
{
    assert forall|i: int, j: int| 0 <= i < r.len() && 0 <= j < r.len() && i != j implies r[i]
        != r[j] by {
        let (a, b) = if i < j {
            (i, j)
        } else {
            (j, i)
        };
        assert(dedup_choice(names[b], r.take(b), names, r[b]));
        if !r.take(b).contains(names[b]) {
            assert(r[b] == names[b]);
        } else {
            let k = choose|k: nat|
                k >= 1 && r[b] == #[trigger] suffixed(names[b], k) && !taken(
                    r[b],
                    names[b],
                    r.take(b),
                    names,
                ) && forall|j: nat|
                    1 <= j < k ==> taken(#[trigger] suffixed(names[b], j), names[b], r.take(b), names);
        }
        assert(r.take(b)[a] == r[a]);
    }
}

/// The names of columns with the headers `raw`, as pandas gives them.
pub open spec fn pandas_names(raw: Seq<Seq<char>>) -> Seq<Seq<char>> {
    choose|r: Seq<Seq<char>>| #[trigger] dedup_spec(header_names(raw), r)
}

/// The headers with `Unnamed: <index>` for each empty one.
pub open spec fn header_names(raw: Seq<Seq<char>>) -> Seq<Seq<char>> {
    Seq::new(raw.len() as nat, |i: int| header_name(raw, i))
}

/// Name columns the way pandas does: empty headers become `Unnamed: <index>`
/// and duplicates are numbered.
pub fn column_names(raw: Vec<String>) -> (r: Vec<String>)
    ensures
        dedup_spec(
            Seq::new(raw.len() as nat, |i: int| header_name(texts(raw@), i)),
            texts(r@),
        ),
        texts(r@) == pandas_names(texts(raw@)),
        r.len() == raw.len(),
{
    let ghost expected = Seq::new(raw.len() as nat, |i: int| header_name(texts(raw@), i));
    let mut named: Vec<String> = Vec::new();
    let mut i: usize = 0;
    while i < raw.len()
        invariant
            i <= raw.len(),
            named.len() == i,
            expected == Seq::new(raw.len() as nat, |i: int| header_name(texts(raw@), i)),
            forall|t: int| 0 <= t < i ==> #[trigger] named@[t]@ == expected[t],
        decreases raw.len() - i,
    {
        if raw[i].as_str().is_empty() {
            let mut chars: Vec<char> = Vec::new();
            push_str_chars(&mut chars, "Unnamed: ");
            let digits = decimal_chars(i as u128);
            let mut d: usize = 0;
            let ghost start = chars@;
            while d < digits.len()
                invariant
                    d <= digits.len(),
                    chars@ == start + digits@.take(d as int),
                decreases digits.len() - d,
            {
                chars.push(digits[d]);
                d += 1;
                assert(digits@.take(d as int) =~= digits@.take(d - 1).push(digits@[d - 1]));
            }
            assert(digits@.take(d as int) =~= digits@);
            named.push(string_from_chars(chars));
        } else {
            named.push(raw[i].clone());
        }
        i += 1;
    }
    assert(texts(named@) =~= expected);
    let r = dedup_names(named);
    proof {
        let ghost raw_texts = texts(raw@);
        assert(Seq::new(raw.len() as nat, |i: int| header_name(texts(raw@), i)) =~= header_names(
            raw_texts,
        ));
        assert(dedup_spec(header_names(raw_texts), texts(r@)));
        let other = pandas_names(raw_texts);
        lemma_dedup_unique(expected, texts(r@), other);
    }
    r
}

} // verus!
