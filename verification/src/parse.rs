//! Extracts the Dualis results table.
//!
//! Tables are read the way `pandas.read_html` (lxml flavour) reads them, so
//! that values compare equal with caches that hold its output: the first
//! visible table with text, `<thead>` or leading all-`<th>` rows as header,
//! colspan/rowspan expansion, pandas' whitespace clean-up and dropping of
//! "Unnamed" columns.
//!
//! A document is a sequence of nodes in document order (parents before their
//! children), each with the number of its children; the node at `i` and its
//! descendants take the positions from `i` up to `node_end(.., i)`.

use vstd::prelude::*;

use crate::matching::{regex_replace_all, regex_replaced_all};
use crate::config::{parse_unsigned, unsigned_text, unsigned_value};
use crate::dualis::{ascii_lowered, contains_chars, has_infix, lowered};
use crate::table::{column_names, pandas_names, texts, zip_record, Record, StrMap, Table, TableView};
use crate::spans::{cell_rows, cell_views, expand_spans, expand_spans_spec, row_texts, Cell, CellView};
use crate::text::{
    chars_of, normalise_spec, normalise_value, same_text, string_from_chars, sub_chars, to_string,
    trim_spec,
};

verus! {

/// What a node of an HTML document is.
#[derive(Debug, Clone, PartialEq, Eq)]
pub enum HtmlNode {
    /// An element with its local name and attributes.
    Element { name: String, attributes: Vec<(String, String)> },
    Text(String),
    /// The document itself, a comment, a doctype or a processing instruction.
    Other,
}

pub enum HtmlNodeView {
    Element(Seq<char>, Seq<(Seq<char>, Seq<char>)>),
    Text(Seq<char>),
    Other,
}

impl View for HtmlNode {
    type V = HtmlNodeView;

    open spec fn view(&self) -> HtmlNodeView {
        match self {
            HtmlNode::Element { name, attributes } => HtmlNodeView::Element(
                name@,
                attributes@.map_values(|a: (String, String)| (a.0@, a.1@)),
            ),
            HtmlNode::Text(t) => HtmlNodeView::Text(t@),
            HtmlNode::Other => HtmlNodeView::Other,
        }
    }
}

/// A document as its nodes in document order, each with its number of children.
pub type Document = Vec<(HtmlNode, usize)>;

/// What the nodes of a document say.
pub open spec fn document_view(d: Seq<(HtmlNode, usize)>) -> Seq<(HtmlNodeView, nat)> {
    d.map_values(|n: (HtmlNode, usize)| (n.0@, n.1 as nat))
}

/// The nodes that html5ever, through scraper, builds from `html`.
pub uninterp spec fn parsed_document(html: Seq<char>) -> Seq<(HtmlNodeView, nat)>;

/// scraper's `Html::parse_document`, with the document tree listed by
/// `descendants()` of its root: each node's value and number of children.
/// Claimed: the result is `parsed_document` of the text, a function of it alone.
#[verifier::external_body]
fn parse_document(html: &str) -> (r: Document)
    ensures
        document_view(r@) == parsed_document(html@),
{
    let document = scraper::Html::parse_document(html);
    let mut nodes = Vec::new();
    for node in document.tree.root().descendants() {
        let value = match node.value() {
            scraper::Node::Element(e) => HtmlNode::Element {
                name: e.name().to_owned(),
                attributes: e.attrs().map(|(k, v)| (k.to_owned(), v.to_owned())).collect(),
            },
            scraper::Node::Text(t) => HtmlNode::Text(String::from(&**t)),
            _ => HtmlNode::Other,
        };
        nodes.push((value, node.children().count()));
    }
    nodes
}

/// Where the node at `i` and its descendants end.
pub open spec fn node_end(t: Seq<(HtmlNodeView, nat)>, i: int) -> int
    decreases t.len() - i, 0nat,
{
    if 0 <= i < t.len() {
        after_trees(t, i + 1, t[i].1)
    } else {
        t.len() as int
    }
}

/// Where `n` consecutive trees that start at `j` end.
pub open spec fn after_trees(t: Seq<(HtmlNodeView, nat)>, j: int, n: nat) -> int
    decreases t.len() - j, 1 + n,
{
    if n == 0 || j < 0 || j >= t.len() {
        if j < 0 || j > t.len() {
            t.len() as int
        } else {
            j
        }
    } else {
        let e = node_end(t, j);
        if j < e <= t.len() {
            after_trees(t, e, (n - 1) as nat)
        } else {
            t.len() as int
        }
    }
}

/// The positions of the (at most `n`) consecutive trees that start at `j`.
pub open spec fn tree_starts(t: Seq<(HtmlNodeView, nat)>, j: int, n: nat) -> Seq<int>
    decreases t.len() - j,
{
    if n == 0 || j < 0 || j >= t.len() {
        Seq::empty()
    } else {
        let e = node_end(t, j);
        if j < e <= t.len() {
            seq![j] + tree_starts(t, e, (n - 1) as nat)
        } else {
            seq![j]
        }
    }
}

/// The positions of the children of the node at `i`.
pub open spec fn children(t: Seq<(HtmlNodeView, nat)>, i: int) -> Seq<int> {
    if 0 <= i < t.len() {
        tree_starts(t, i + 1, t[i].1)
    } else {
        Seq::empty()
    }
}

pub proof fn lemma_after_trees_bounds(t: Seq<(HtmlNodeView, nat)>, j: int, n: nat)
    ensures
        0 <= j <= t.len() ==> j <= after_trees(t, j, n) <= t.len(),
        after_trees(t, j, n) <= t.len(),
    decreases t.len() - j, 1 + n,
{
    if !(n == 0 || j < 0 || j >= t.len()) {
        let e = node_end(t, j);
        if j < e <= t.len() {
            lemma_after_trees_bounds(t, e, (n - 1) as nat);
        }
    }
}

pub proof fn lemma_node_end_bounds(t: Seq<(HtmlNodeView, nat)>, i: int)
    ensures
        0 <= i < t.len() ==> i < node_end(t, i) <= t.len(),
{
    if 0 <= i < t.len() {
        lemma_after_trees_bounds(t, i + 1, t[i].1);
    }
}

/// Where the node at `i` and its descendants end.
fn node_end_of(d: &Document, i: usize) -> (r: usize)
    requires
        i < d.len(),
    ensures
        r == node_end(document_view(d@), i as int),
        i < r <= d.len(),
    decreases d.len() - i,
{
    let ghost t = document_view(d@);
    let n = d[i].1;
    let mut j = i + 1;
    let mut k: usize = 0;
    proof {
        lemma_node_end_bounds(t, i as int);
    }
    while k < n && j < d.len()
        invariant
            t == document_view(d@),
            i < j <= d.len(),
            k <= n,
            n == t[i as int].1,
            node_end(t, i as int) == after_trees(t, j as int, (n - k) as nat),
        decreases d.len() - j,
    {
        let e = node_end_of(d, j);
        j = e;
        k += 1;
    }
    j
}

/// The positions as integers.
pub open spec fn positions(v: Seq<usize>) -> Seq<int> {
    v.map_values(|x: usize| x as int)
}

/// The positions of the children of the node at `i`.
fn children_of(d: &Document, i: usize) -> (r: Vec<usize>)
    requires
        i < d.len(),
    ensures
        positions(r@) == children(document_view(d@), i as int),
        forall|x: int| 0 <= x < r.len() ==> i < #[trigger] r@[x] < d.len(),
{
    let ghost t = document_view(d@);
    let n = d[i].1;
    let mut r: Vec<usize> = Vec::new();
    let mut j = i + 1;
    let mut k: usize = 0;
    assert(positions(r@) + tree_starts(t, j as int, n as nat) =~= children(t, i as int));
    while k < n && j < d.len()
        invariant
            t == document_view(d@),
            i < j <= d.len(),
            k <= n,
            n == t[i as int].1,
            positions(r@) + tree_starts(t, j as int, (n - k) as nat) == children(t, i as int),
            forall|x: int| 0 <= x < r.len() ==> i < #[trigger] r@[x] < j,
        decreases d.len() - j,
    {
        let e = node_end_of(d, j);
        let ghost before = r@;
        r.push(j);
        assert(positions(r@) =~= positions(before) + seq![j as int]);
        assert(positions(r@) + tree_starts(t, e as int, (n - k - 1) as nat) =~= positions(before)
            + tree_starts(t, j as int, (n - k) as nat));
        j = e;
        k += 1;
    }
    assert(tree_starts(t, j as int, (n - k) as nat) =~= Seq::<int>::empty());
    assert(positions(r@) =~= children(t, i as int));
    r
}

/// The local name of the element at `i`, if it is one.
pub open spec fn element_name(t: Seq<(HtmlNodeView, nat)>, i: int) -> Option<Seq<char>> {
    if 0 <= i < t.len() {
        match t[i].0 {
            HtmlNodeView::Element(name, _) => Some(name),
            _ => None,
        }
    } else {
        None
    }
}

/// The value of the first attribute named `key`.
pub open spec fn attribute_in(attrs: Seq<(Seq<char>, Seq<char>)>, key: Seq<char>) -> Option<Seq<char>>
    decreases attrs.len(),
{
    if attrs.len() == 0 {
        None
    } else if attrs[0].0 == key {
        Some(attrs[0].1)
    } else {
        attribute_in(attrs.drop_first(), key)
    }
}

/// The value of the attribute `key` of the element at `i`.
pub open spec fn attribute(t: Seq<(HtmlNodeView, nat)>, i: int, key: Seq<char>) -> Option<Seq<char>> {
    if 0 <= i < t.len() {
        match t[i].0 {
            HtmlNodeView::Element(_, attrs) => attribute_in(attrs, key),
            _ => None,
        }
    } else {
        None
    }
}

/// Whether the element at `i` is hidden by `display:none` in its `style`.
pub open spec fn hidden(t: Seq<(HtmlNodeView, nat)>, i: int) -> bool {
    match attribute(t, i, "style"@) {
        Some(style) => has_infix(style.filter(|c: char| c != ' '), "display:none"@),
        None => false,
    }
}

/// Whether the node at `i` is an element that pandas reads: no `<style>` and
/// not hidden.
pub open spec fn shown_element(t: Seq<(HtmlNodeView, nat)>, i: int) -> bool {
    &&& element_name(t, i) is Some
    &&& element_name(t, i)->0 != "style"@
    &&& !hidden(t, i)
}

/// Whether the node at `i` is the element `name`.
pub open spec fn is_element(t: Seq<(HtmlNodeView, nat)>, i: int, name: Seq<char>) -> bool {
    element_name(t, i) == Some(name)
}

fn element_is(d: &Document, i: usize, name: &str) -> (r: bool)
    requires
        i < d.len(),
    ensures
        r == is_element(document_view(d@), i as int, name@),
{
    match &d[i].0 {
        HtmlNode::Element { name: n, .. } => same_text(n.as_str(), name),
        _ => false,
    }
}

/// The value of the attribute `key` of the element at `i`.
fn attribute_of(d: &Document, i: usize, key: &str) -> (r: Option<String>)
    requires
        i < d.len(),
    ensures
        match r {
            Some(v) => attribute(document_view(d@), i as int, key@) == Some(v@),
            None => attribute(document_view(d@), i as int, key@) is None,
        },
{
    match &d[i].0 {
        HtmlNode::Element { attributes, .. } => {
            assert(document_view(d@)[i as int].0 == d@[i as int].0@);
            let ghost attrs = attributes@.map_values(|a: (String, String)| (a.0@, a.1@));
            let mut k: usize = 0;
            assert(attrs.skip(0) =~= attrs);
            while k < attributes.len()
                invariant
                    k <= attributes.len(),
                    attrs == attributes@.map_values(|a: (String, String)| (a.0@, a.1@)),
                    attribute_in(attrs, key@) == attribute_in(attrs.skip(k as int), key@),
                    attribute(document_view(d@), i as int, key@) == attribute_in(attrs, key@),
                decreases attributes.len() - k,
            {
                if same_text(attributes[k].0.as_str(), key) {
                    assert(attrs.skip(k as int)[0] == attrs[k as int]);
                    assert(attrs[k as int].0 == key@);
                    let v = attributes[k].1.clone();
                    assert(v@ == attrs[k as int].1);
                    return Some(v);
                }
                assert(attrs.skip(k as int).drop_first() =~= attrs.skip(k + 1));
                k += 1;
            }
            None
        },
        _ => None,
    }
}

/// Whether `style` hides its element: `display:none` once spaces are removed.
fn hides(style: &str) -> (r: bool)
    ensures
        r == has_infix(style@.filter(|c: char| c != ' '), "display:none"@),
{
    let s = chars_of(style);
    let mut kept: Vec<char> = Vec::new();
    let mut i: usize = 0;
    let ghost keep = |c: char| c != ' ';
    assert(s@.take(0) =~= Seq::<char>::empty());
    while i < s.len()
        invariant
            i <= s.len(),
            s@ == style@,
            kept@ == s@.take(i as int).filter(keep),
            keep == (|c: char| c != ' '),
        decreases s.len() - i,
    {
        assert(s@.take(i + 1).drop_last() =~= s@.take(i as int));
        assert(s@.take(i + 1).last() == s@[i as int]);
        reveal(Seq::filter);
        if s[i] != ' ' {
            kept.push(s[i]);
        }
        i += 1;
    }
    assert(s@.take(i as int) =~= s@);
    let pat = chars_of("display:none");
    proof {
        reveal_strlit("display:none");
    }
    contains_chars(&kept, &pat)
}

/// Whether the element at `i` is hidden.
fn is_hidden(d: &Document, i: usize) -> (r: bool)
    requires
        i < d.len(),
    ensures
        r == hidden(document_view(d@), i as int),
{
    match attribute_of(d, i, "style") {
        Some(style) => hides(style.as_str()),
        None => false,
    }
}

/// Whether the node at `i` is an element that pandas reads.
fn is_shown_element(d: &Document, i: usize) -> (r: bool)
    requires
        i < d.len(),
    ensures
        r == shown_element(document_view(d@), i as int),
{
    match &d[i].0 {
        HtmlNode::Element { name, .. } => !same_text(name.as_str(), "style") && !is_hidden(d, i),
        _ => false,
    }
}

/// The text of the node at `i` as pandas collects it inside a cell: a text
/// node's text, the text of an element that pandas reads, nothing otherwise.
pub open spec fn node_text(t: Seq<(HtmlNodeView, nat)>, i: int) -> Seq<char>
    decreases t.len() - i, 0nat,
{
    if 0 <= i < t.len() {
        match t[i].0 {
            HtmlNodeView::Text(s) => s,
            HtmlNodeView::Element(_, _) => if shown_element(t, i) {
                trees_text(t, i + 1, t[i].1)
            } else {
                Seq::empty()
            },
            HtmlNodeView::Other => Seq::empty(),
        }
    } else {
        Seq::empty()
    }
}

/// The text of the `n` consecutive trees that start at `j`.
pub open spec fn trees_text(t: Seq<(HtmlNodeView, nat)>, j: int, n: nat) -> Seq<char>
    decreases t.len() - j, 1 + n,
{
    if n == 0 || j < 0 || j >= t.len() {
        Seq::empty()
    } else {
        let e = node_end(t, j);
        node_text(t, j) + if j < e <= t.len() {
            trees_text(t, e, (n - 1) as nat)
        } else {
            Seq::empty()
        }
    }
}

/// The text inside the element at `i`: that of its children.
pub open spec fn inner_text(t: Seq<(HtmlNodeView, nat)>, i: int) -> Seq<char> {
    if 0 <= i < t.len() {
        trees_text(t, i + 1, t[i].1)
    } else {
        Seq::empty()
    }
}

/// The text that pandas collects from a node: a text node gives its text; an
/// element that pandas reads (no `<style>`, not hidden) gives the text of its
/// children, in document order, so that the text of a nested element such as
/// `<b>` is part of it and the text of the first child comes first; a
/// `<style>` element, a hidden element and any other node give nothing.
pub proof fn law_node_text(t: Seq<(HtmlNodeView, nat)>, i: int)
    requires
        0 <= i < t.len(),
    ensures
        t[i].0 is Text ==> node_text(t, i) == t[i].0->Text_0,
        shown_element(t, i) ==> node_text(t, i) == inner_text(t, i),
        shown_element(t, i) && t[i].1 > 0 && i + 1 < t.len() ==> node_text(t, i + 1).is_prefix_of(
            node_text(t, i),
        ),
        !shown_element(t, i) && !(t[i].0 is Text) ==> node_text(t, i).len() == 0,
{
    if shown_element(t, i) && t[i].1 > 0 && i + 1 < t.len() {
        let e = node_end(t, i + 1);
        let rest = if i + 1 < e <= t.len() {
            trees_text(t, e, (t[i].1 - 1) as nat)
        } else {
            Seq::empty()
        };
        assert(node_text(t, i) == node_text(t, i + 1) + rest);
        assert((node_text(t, i + 1) + rest).take(node_text(t, i + 1).len() as int) =~= node_text(
            t,
            i + 1,
        ));
    }
}

fn append_chars(out: &mut Vec<char>, more: &Vec<char>)
    ensures
        final(out)@ == old(out)@ + more@,
{
    let mut i: usize = 0;
    while i < more.len()
        invariant
            i <= more.len(),
            out@ == old(out)@ + more@.take(i as int),
        decreases more.len() - i,
    {
        out.push(more[i]);
        i += 1;
        assert(out@ =~= old(out)@ + more@.take(i as int));
    }
    assert(more@.take(i as int) =~= more@);
}

/// The text of the node at `i` as pandas collects it inside a cell.
fn text_of_node(d: &Document, i: usize) -> (r: Vec<char>)
    requires
        i < d.len(),
    ensures
        r@ == node_text(document_view(d@), i as int),
    decreases d.len() - i, 1nat,
{
    match &d[i].0 {
        HtmlNode::Text(s) => chars_of(s.as_str()),
        HtmlNode::Element { .. } => {
            if is_shown_element(d, i) {
                text_inside(d, i)
            } else {
                Vec::new()
            }
        },
        HtmlNode::Other => Vec::new(),
    }
}

/// The text of the children of the node at `i`.
fn text_inside(d: &Document, i: usize) -> (r: Vec<char>)
    requires
        i < d.len(),
    ensures
        r@ == inner_text(document_view(d@), i as int),
    decreases d.len() - i, 0nat,
{
    let ghost t = document_view(d@);
    let n = d[i].1;
    let mut out: Vec<char> = Vec::new();
    let mut j = i + 1;
    let mut k: usize = 0;
    while k < n && j < d.len()
        invariant
            t == document_view(d@),
            i < j <= d.len(),
            k <= n,
            n == t[i as int].1,
            out@ + trees_text(t, j as int, (n - k) as nat) == inner_text(t, i as int),
        decreases d.len() - j,
    {
        let part = text_of_node(d, j);
        let e = node_end_of(d, j);
        let ghost before = out@;
        append_chars(&mut out, &part);
        assert(out@ + trees_text(t, e as int, (n - k - 1) as nat) =~= before + trees_text(
            t,
            j as int,
            (n - k) as nat,
        ));
        j = e;
        k += 1;
    }
    assert(out@ + trees_text(t, j as int, (n - k) as nat) =~= out@);
    out
}

/// pandas' `_RE_WHITESPACE`: line breaks, or runs of two or more white space
/// characters (`\s` and U+001C to U+001F). A single NBSP inside a value survives.
pub const EXTRA_WHITESPACE_PATTERN: &'static str = "[\\r\\n]+|[\\s\\x1C-\\x1F]{2,}";

/// pandas' `_remove_whitespace`: each match of `EXTRA_WHITESPACE_PATTERN`
/// becomes one space, then the value is stripped like Python.
pub open spec fn cleaned_text(s: Seq<char>) -> Seq<char> {
    normalise_spec(regex_replaced_all(EXTRA_WHITESPACE_PATTERN@, s, " "@))
}

/// pandas' `_remove_whitespace`: line breaks, or runs of two or more
/// whitespace characters, collapse to one space; then the value is stripped.
pub fn remove_whitespace(text: &Vec<char>) -> (r: String)
    ensures
        r@ == cleaned_text(text@),
{
    let whole = sub_chars(text, 0, text.len());
    assert(text@.subrange(0, text.len() as int) =~= text@);
    let s = string_from_chars(whole);
    let collapsed = regex_replace_all(EXTRA_WHITESPACE_PATTERN, s.as_str(), " ");
    to_string(normalise_value(collapsed.as_str()))
}

/// Upper bound for colspan/rowspan so a broken page cannot exhaust memory.
pub const MAX_SPAN: usize = 1000;

/// A `colspan` or `rowspan` value: the number it gives when trimmed, at most
/// `MAX_SPAN`, and 1 when it is missing or no number.
pub open spec fn span_value(value: Option<Seq<char>>) -> nat {
    match value {
        Some(v) => {
            let t = trim_spec(v, false);
            if unsigned_text(t) && unsigned_value(t) <= usize::MAX {
                if unsigned_value(t) < MAX_SPAN {
                    unsigned_value(t)
                } else {
                    MAX_SPAN as nat
                }
            } else {
                1
            }
        },
        None => 1,
    }
}

/// The span that the attribute `name` of the cell at `i` gives.
fn span_of(d: &Document, i: usize, name: &str) -> (r: usize)
    requires
        i < d.len(),
    ensures
        r == span_value(attribute(document_view(d@), i as int, name@)),
{
    match attribute_of(d, i, name) {
        Some(v) => match parse_unsigned(v.as_str(), usize::MAX as u64) {
            Some(n) => {
                if n < MAX_SPAN as u64 {
                    n as usize
                } else {
                    MAX_SPAN
                }
            },
            None => 1,
        },
        None => 1,
    }
}

/// The children of the node at `i` that pandas reads.
pub open spec fn visible_children(t: Seq<(HtmlNodeView, nat)>, i: int) -> Seq<int> {
    children(t, i).filter(|k: int| shown_element(t, k))
}

/// Whether the node at `k` is a cell, `<td>` or `<th>`.
pub open spec fn is_cell(t: Seq<(HtmlNodeView, nat)>, k: int) -> bool {
    is_element(t, k, "td"@) || is_element(t, k, "th"@)
}

/// The cells of the row at `r`.
pub open spec fn row_cells(t: Seq<(HtmlNodeView, nat)>, r: int) -> Seq<int> {
    cells_among(t, visible_children(t, r))
}

/// The rows directly inside the section at `s`.
pub open spec fn section_rows(t: Seq<(HtmlNodeView, nat)>, s: int) -> Seq<int> {
    named_among(t, visible_children(t, s), "tr"@)
}

/// The children of the node at `i` that pandas reads.
fn visible_children_of(d: &Document, i: usize) -> (r: Vec<usize>)
    requires
        i < d.len(),
    ensures
        positions(r@) == visible_children(document_view(d@), i as int),
        forall|x: int| 0 <= x < r.len() ==> #[trigger] r@[x] < d.len(),
{
    let ghost t = document_view(d@);
    let all = children_of(d, i);
    let ghost cs = children(t, i as int);
    let ghost keep = |k: int| shown_element(t, k);
    let mut r: Vec<usize> = Vec::new();
    let mut x: usize = 0;
    assert(cs.take(0) =~= Seq::<int>::empty());
    while x < all.len()
        invariant
            x <= all.len(),
            t == document_view(d@),
            positions(all@) == cs,
            keep == (|k: int| shown_element(t, k)),
            positions(r@) == cs.take(x as int).filter(keep),
            forall|y: int| 0 <= y < all.len() ==> #[trigger] all@[y] < d.len(),
            forall|y: int| 0 <= y < r.len() ==> #[trigger] r@[y] < d.len(),
        decreases all.len() - x,
    {
        assert(cs.take(x + 1).drop_last() =~= cs.take(x as int));
        assert(cs.take(x + 1).last() == all@[x as int] as int);
        reveal(Seq::filter);
        let ghost before = r@;
        if is_shown_element(d, all[x]) {
            r.push(all[x]);
            assert(positions(r@) =~= positions(before).push(all@[x as int] as int));
        }
        x += 1;
    }
    assert(cs.take(x as int) =~= cs);
    r
}

/// The positions in `ks` of elements named `name`.
pub open spec fn named_among(t: Seq<(HtmlNodeView, nat)>, ks: Seq<int>, name: Seq<char>) -> Seq<int> {
    ks.filter(|k: int| is_element(t, k, name))
}

/// The positions in `ks` of cells.
pub open spec fn cells_among(t: Seq<(HtmlNodeView, nat)>, ks: Seq<int>) -> Seq<int> {
    ks.filter(|k: int| is_cell(t, k))
}

/// The positions in `v` of elements that are cells (`cells`) or else named `name`.
fn select_elements(d: &Document, v: &Vec<usize>, cells: bool, name: &str) -> (r: Vec<usize>)
    requires
        forall|x: int| 0 <= x < v.len() ==> #[trigger] v@[x] < d.len(),
    ensures
        cells ==> positions(r@) == cells_among(document_view(d@), positions(v@)),
        !cells ==> positions(r@) == named_among(document_view(d@), positions(v@), name@),
        forall|x: int| 0 <= x < r.len() ==> #[trigger] r@[x] < d.len(),
{
    let ghost t = document_view(d@);
    let ghost ps = positions(v@);
    let mut r: Vec<usize> = Vec::new();
    let mut x: usize = 0;
    assert(ps.take(0) =~= Seq::<int>::empty());
    while x < v.len()
        invariant
            x <= v.len(),
            t == document_view(d@),
            ps == positions(v@),
            cells ==> positions(r@) == cells_among(t, ps.take(x as int)),
            !cells ==> positions(r@) == named_among(t, ps.take(x as int), name@),
            forall|y: int| 0 <= y < v.len() ==> #[trigger] v@[y] < d.len(),
            forall|y: int| 0 <= y < r.len() ==> #[trigger] r@[y] < d.len(),
        decreases v.len() - x,
    {
        assert(ps.take(x + 1).drop_last() =~= ps.take(x as int));
        assert(ps.take(x + 1).last() == v@[x as int] as int);
        reveal(Seq::filter);
        let k = v[x];
        let chosen = if cells {
            element_is(d, k, "td") || element_is(d, k, "th")
        } else {
            element_is(d, k, name)
        };
        let ghost before = r@;
        if chosen {
            r.push(k);
            assert(positions(r@) =~= positions(before).push(k as int));
        }
        x += 1;
    }
    assert(ps.take(x as int) =~= ps);
    r
}

/// What the cell at `c` holds: its cleaned text and its spans.
pub open spec fn cell_at(t: Seq<(HtmlNodeView, nat)>, c: int) -> CellView {
    CellView {
        text: cleaned_text(inner_text(t, c)),
        rowspan: span_value(attribute(t, c, "rowspan"@)),
        colspan: span_value(attribute(t, c, "colspan"@)),
    }
}

/// The cells of the rows at `rows`.
pub open spec fn rows_cells(t: Seq<(HtmlNodeView, nat)>, rows: Seq<int>) -> Seq<Seq<CellView>> {
    rows.map_values(|r: int| row_cells(t, r).map_values(|c: int| cell_at(t, c)))
}

/// The cells of the row at `row`.
fn cells_of_row(d: &Document, row: usize) -> (r: Vec<Cell>)
    requires
        row < d.len(),
    ensures
        cell_views(r@) == row_cells(document_view(d@), row as int).map_values(
            |c: int| cell_at(document_view(d@), c),
        ),
{
    let ghost t = document_view(d@);
    let visible = visible_children_of(d, row);
    let cells = select_elements(d, &visible, true, "");
    let ghost want = row_cells(t, row as int).map_values(|c: int| cell_at(t, c));
    let mut r: Vec<Cell> = Vec::new();
    let mut x: usize = 0;
    while x < cells.len()
        invariant
            x <= cells.len(),
            t == document_view(d@),
            positions(cells@) == row_cells(t, row as int),
            want == row_cells(t, row as int).map_values(|c: int| cell_at(t, c)),
            cell_views(r@) == want.take(x as int),
            r.len() == x,
            want.len() == cells.len(),
            forall|y: int| 0 <= y < cells.len() ==> #[trigger] cells@[y] < d.len(),
        decreases cells.len() - x,
    {
        let c = cells[x];
        let text = remove_whitespace(&text_inside(d, c));
        let rowspan = span_of(d, c, "rowspan");
        let colspan = span_of(d, c, "colspan");
        let ghost before = r@;
        r.push(Cell { text, rowspan, colspan });
        assert(want[x as int] == cell_at(t, c as int));
        assert(r@[x as int]@ == cell_at(t, c as int));
        assert(cell_views(r@) =~= cell_views(before).push(r@[x as int]@));
        assert(cell_views(r@) =~= want.take(x + 1));
        x += 1;
    }
    assert(want.take(x as int) =~= want);
    r
}

/// The cells of each row at `rows`.
fn cells_of_rows(d: &Document, rows: &Vec<usize>) -> (r: Vec<Vec<Cell>>)
    requires
        forall|x: int| 0 <= x < rows.len() ==> #[trigger] rows@[x] < d.len(),
    ensures
        cell_rows(r@) == rows_cells(document_view(d@), positions(rows@)),
{
    let ghost want = rows_cells(document_view(d@), positions(rows@));
    let mut r: Vec<Vec<Cell>> = Vec::new();
    let mut x: usize = 0;
    while x < rows.len()
        invariant
            x <= rows.len(),
            want == rows_cells(document_view(d@), positions(rows@)),
            cell_rows(r@) == want.take(x as int),
            r.len() == x,
            want.len() == rows.len(),
            forall|y: int| 0 <= y < rows.len() ==> #[trigger] rows@[y] < d.len(),
        decreases rows.len() - x,
    {
        let cells = cells_of_row(d, rows[x]);
        assert(want[x as int] == row_cells(document_view(d@), rows@[x as int] as int).map_values(
            |c: int| cell_at(document_view(d@), c),
        ));
        let ghost before = r@;
        r.push(cells);
        assert(cell_rows(r@) =~= cell_rows(before).push(cell_views(r@[x as int]@)));
        assert(cell_rows(r@) =~= want.take(x + 1));
        x += 1;
    }
    assert(want.take(x as int) =~= want);
    r
}

/// Whether the node at `p` is a text node with a character other than `\n`
/// (pandas only considers tables whose text matches `.+`).
pub open spec fn nonblank_text(t: Seq<(HtmlNodeView, nat)>, p: int) -> bool {
    &&& 0 <= p < t.len()
    &&& t[p].0 is Text
    &&& exists|c: int| 0 <= c < t[p].0->Text_0.len() && t[p].0->Text_0[c] != '\n'
}

/// Whether the table at `k` is one that pandas reads: visible, with text.
pub open spec fn candidate_table(t: Seq<(HtmlNodeView, nat)>, k: int) -> bool {
    &&& is_element(t, k, "table"@)
    &&& !hidden(t, k)
    &&& exists|p: int| k < p < node_end(t, k) && #[trigger] nonblank_text(t, p)
}

/// Whether `k` is the first table that pandas reads.
pub open spec fn first_candidate(t: Seq<(HtmlNodeView, nat)>, k: int) -> bool {
    &&& 0 <= k < t.len()
    &&& candidate_table(t, k)
    &&& forall|j: int| 0 <= j < k ==> !#[trigger] candidate_table(t, j)
}

/// The first table in document order that pandas reads. (scraper's `select`
/// visits nodes in the order html5ever created them, which is document order
/// unless the parser moved nodes while repairing misnested table markup.)
pub open spec fn first_table(t: Seq<(HtmlNodeView, nat)>) -> Option<int> {
    if exists|k: int| #[trigger] first_candidate(t, k) {
        Some(choose|k: int| #[trigger] first_candidate(t, k))
    } else {
        None
    }
}

proof fn lemma_first_candidate_unique(t: Seq<(HtmlNodeView, nat)>, a: int, b: int)
    requires
        first_candidate(t, a),
        first_candidate(t, b),
    ensures
        a == b,
{
    if a < b {
        assert(!candidate_table(t, a));
    } else if b < a {
        assert(!candidate_table(t, b));
    }
}

/// Whether the node at `p` is text with a character other than `\n`.
fn is_nonblank_text(d: &Document, p: usize) -> (r: bool)
    requires
        p < d.len(),
    ensures
        r == nonblank_text(document_view(d@), p as int),
{
    match &d[p].0 {
        HtmlNode::Text(s) => {
            assert(document_view(d@)[p as int].0 == d@[p as int].0@);
            let cs = chars_of(s.as_str());
            let mut i: usize = 0;
            while i < cs.len()
                invariant
                    i <= cs.len(),
                    cs@ == s@,
                    p < d.len(),
                    document_view(d@)[p as int].0 == HtmlNodeView::Text(s@),
                    forall|c: int| 0 <= c < i ==> cs@[c] == '\n',
                decreases cs.len() - i,
            {
                if cs[i] != '\n' {
                    assert(document_view(d@)[p as int].0->Text_0[i as int] != '\n');
                    return true;
                }
                i += 1;
            }
            false
        },
        _ => false,
    }
}

/// Whether the table at `k` is one that pandas reads.
fn is_candidate_table(d: &Document, k: usize) -> (r: bool)
    requires
        k < d.len(),
    ensures
        r == candidate_table(document_view(d@), k as int),
{
    if !element_is(d, k, "table") || is_hidden(d, k) {
        return false;
    }
    let end = node_end_of(d, k);
    let mut p = k + 1;
    while p < end
        invariant
            k < p <= end <= d.len(),
            end == node_end(document_view(d@), k as int),
            is_element(document_view(d@), k as int, "table"@),
            !hidden(document_view(d@), k as int),
            forall|q: int| k < q < p ==> !#[trigger] nonblank_text(document_view(d@), q),
        decreases end - p,
    {
        if is_nonblank_text(d, p) {
            assert(k < p < node_end(document_view(d@), k as int) && nonblank_text(
                document_view(d@),
                p as int,
            ));
            return true;
        }
        p += 1;
    }
    false
}

/// The first table in document order that pandas reads.
fn find_table(d: &Document) -> (r: Option<usize>)
    ensures
        match r {
            Some(k) => first_table(document_view(d@)) == Some(k as int) && k < d.len(),
            None => first_table(document_view(d@)) is None,
        },
{
    let ghost t = document_view(d@);
    let mut k: usize = 0;
    while k < d.len()
        invariant
            k <= d.len(),
            t == document_view(d@),
            forall|j: int| 0 <= j < k ==> !#[trigger] candidate_table(t, j),
        decreases d.len() - k,
    {
        if is_candidate_table(d, k) {
            proof {
                assert(first_candidate(t, k as int));
                let c = choose|c: int| #[trigger] first_candidate(t, c);
                lemma_first_candidate_unique(t, c, k as int);
            }
            return Some(k);
        }
        k += 1;
    }
    proof {
        assert forall|c: int| !#[trigger] first_candidate(t, c) by {
            if first_candidate(t, c) {
                assert(!candidate_table(t, c));
            }
        }
    }
    None
}

/// The header, body and footer rows of the sections at `sections`: `<thead>`,
/// `<tbody>` and `<tfoot>` give their rows, a `<tr>` directly in the table
/// belongs to the body.
pub open spec fn sorted_rows(t: Seq<(HtmlNodeView, nat)>, sections: Seq<int>) -> (
    Seq<int>,
    Seq<int>,
    Seq<int>,
)
    decreases sections.len(),
{
    if sections.len() == 0 {
        (Seq::empty(), Seq::empty(), Seq::empty())
    } else {
        let (h, b, f) = sorted_rows(t, sections.drop_last());
        let k = sections.last();
        if is_element(t, k, "thead"@) {
            (h + section_rows(t, k), b, f)
        } else if is_element(t, k, "tbody"@) {
            (h, b + section_rows(t, k), f)
        } else if is_element(t, k, "tfoot"@) {
            (h, b, f + section_rows(t, k))
        } else if is_element(t, k, "tr"@) {
            (h, b.push(k), f)
        } else {
            (h, b, f)
        }
    }
}

fn append_positions(v: &mut Vec<usize>, more: &Vec<usize>, bound: usize)
    requires
        forall|x: int| 0 <= x < old(v).len() ==> #[trigger] old(v)@[x] < bound,
        forall|x: int| 0 <= x < more.len() ==> #[trigger] more@[x] < bound,
    ensures
        positions(final(v)@) == positions(old(v)@) + positions(more@),
        forall|x: int| 0 <= x < final(v).len() ==> #[trigger] final(v)@[x] < bound,
{
    let mut i: usize = 0;
    while i < more.len()
        invariant
            i <= more.len(),
            positions(v@) == positions(old(v)@) + positions(more@).take(i as int),
            forall|x: int| 0 <= x < more.len() ==> #[trigger] more@[x] < bound,
            forall|x: int| 0 <= x < v.len() ==> #[trigger] v@[x] < bound,
        decreases more.len() - i,
    {
        let ghost prev = v@;
        v.push(more[i]);
        assert(positions(v@) =~= positions(prev).push(more@[i as int] as int));
        i += 1;
        assert(positions(more@).take(i as int) =~= positions(more@).take(i - 1).push(
            more@[i - 1] as int,
        ));
        assert(positions(v@) =~= positions(old(v)@) + positions(more@).take(i as int));
    }
    assert(positions(more@).take(i as int) =~= positions(more@));
}

/// The header, body and footer rows of the table at `k`.
fn rows_of_table(d: &Document, k: usize) -> (r: (Vec<usize>, Vec<usize>, Vec<usize>))
    requires
        k < d.len(),
    ensures
        (positions(r.0@), positions(r.1@), positions(r.2@)) == sorted_rows(
            document_view(d@),
            visible_children(document_view(d@), k as int),
        ),
        forall|x: int| 0 <= x < r.0.len() ==> #[trigger] r.0@[x] < d.len(),
        forall|x: int| 0 <= x < r.1.len() ==> #[trigger] r.1@[x] < d.len(),
        forall|x: int| 0 <= x < r.2.len() ==> #[trigger] r.2@[x] < d.len(),
{
    let ghost t = document_view(d@);
    let sections = visible_children_of(d, k);
    let ghost ss = positions(sections@);
    let mut header: Vec<usize> = Vec::new();
    let mut body: Vec<usize> = Vec::new();
    let mut footer: Vec<usize> = Vec::new();
    let mut i: usize = 0;
    assert(ss.take(0) =~= Seq::<int>::empty());
    assert(positions(header@) =~= Seq::<int>::empty());
    assert(positions(body@) =~= Seq::<int>::empty());
    assert(positions(footer@) =~= Seq::<int>::empty());
    while i < sections.len()
        invariant
            i <= sections.len(),
            t == document_view(d@),
            ss == positions(sections@),
            ss == visible_children(t, k as int),
            (positions(header@), positions(body@), positions(footer@)) == sorted_rows(
                t,
                ss.take(i as int),
            ),
            forall|x: int| 0 <= x < sections.len() ==> #[trigger] sections@[x] < d.len(),
            forall|x: int| 0 <= x < header.len() ==> #[trigger] header@[x] < d.len(),
            forall|x: int| 0 <= x < body.len() ==> #[trigger] body@[x] < d.len(),
            forall|x: int| 0 <= x < footer.len() ==> #[trigger] footer@[x] < d.len(),
        decreases sections.len() - i,
    {
        let s = sections[i];
        assert(ss.take(i + 1).drop_last() =~= ss.take(i as int));
        assert(ss.take(i + 1).last() == s as int);
        if element_is(d, s, "thead") || element_is(d, s, "tbody") || element_is(d, s, "tfoot") {
            let visible = visible_children_of(d, s);
            let rows = select_elements(d, &visible, false, "tr");
            if element_is(d, s, "thead") {
                append_positions(&mut header, &rows, d.len());
            } else if element_is(d, s, "tbody") {
                append_positions(&mut body, &rows, d.len());
            } else {
                append_positions(&mut footer, &rows, d.len());
            }
        } else if element_is(d, s, "tr") {
            let ghost before = positions(body@);
            body.push(s);
            assert(positions(body@) =~= before.push(s as int));
        }
        i += 1;
    }
    assert(ss.take(i as int) =~= ss);
    (header, body, footer)
}

/// Whether every cell of the row at `r` is a `<th>`.
pub open spec fn header_like(t: Seq<(HtmlNodeView, nat)>, r: int) -> bool {
    forall|x: int| 0 <= x < row_cells(t, r).len() ==> is_element(t, #[trigger] row_cells(t, r)[x], "th"@)
}

/// How many rows at the start of `rows` have only `<th>` cells.
pub open spec fn leading_header_rows(t: Seq<(HtmlNodeView, nat)>, rows: Seq<int>) -> nat
    decreases rows.len(),
{
    if rows.len() > 0 && header_like(t, rows[0]) {
        1 + leading_header_rows(t, rows.drop_first())
    } else {
        0
    }
}

/// The header rows and body rows of the table at `k`: those of `<thead>`, or
/// else the leading rows made only of `<th>`; `<tfoot>` rows end the body.
pub open spec fn table_rows(t: Seq<(HtmlNodeView, nat)>, k: int) -> (Seq<int>, Seq<int>) {
    let (h, b, f) = sorted_rows(t, visible_children(t, k));
    if h.len() == 0 {
        let n = leading_header_rows(t, b) as int;
        (b.take(n), b.skip(n) + f)
    } else {
        (h, b + f)
    }
}

/// Whether every cell of the row at `r` is a `<th>`.
fn is_header_like(d: &Document, r: usize) -> (b: bool)
    requires
        r < d.len(),
    ensures
        b == header_like(document_view(d@), r as int),
{
    let visible = visible_children_of(d, r);
    let cells = select_elements(d, &visible, true, "");
    let mut x: usize = 0;
    while x < cells.len()
        invariant
            x <= cells.len(),
            positions(cells@) == row_cells(document_view(d@), r as int),
            forall|y: int| 0 <= y < cells.len() ==> #[trigger] cells@[y] < d.len(),
            forall|y: int|
                0 <= y < x ==> is_element(
                    document_view(d@),
                    #[trigger] row_cells(document_view(d@), r as int)[y],
                    "th"@,
                ),
        decreases cells.len() - x,
    {
        if !element_is(d, cells[x], "th") {
            assert(row_cells(document_view(d@), r as int)[x as int] == cells@[x as int] as int);
            return false;
        }
        x += 1;
    }
    true
}

pub proof fn lemma_leading_header_rows(t: Seq<(HtmlNodeView, nat)>, rows: Seq<int>, n: int)
    requires
        0 <= n <= rows.len(),
        forall|x: int| 0 <= x < n ==> header_like(t, #[trigger] rows[x]),
    ensures
        leading_header_rows(t, rows) == n + leading_header_rows(t, rows.skip(n)),
    decreases n,
{
    if n > 0 {
        assert(header_like(t, rows[0]));
        lemma_leading_header_rows(t, rows.drop_first(), n - 1);
        assert(rows.drop_first().skip(n - 1) =~= rows.skip(n));
    } else {
        assert(rows.skip(0) =~= rows);
    }
}

/// The header rows and body rows of the table at `k`.
fn header_and_body(d: &Document, k: usize) -> (r: (Vec<usize>, Vec<usize>))
    requires
        k < d.len(),
    ensures
        (positions(r.0@), positions(r.1@)) == table_rows(document_view(d@), k as int),
        forall|x: int| 0 <= x < r.0.len() ==> #[trigger] r.0@[x] < d.len(),
        forall|x: int| 0 <= x < r.1.len() ==> #[trigger] r.1@[x] < d.len(),
{
    let ghost t = document_view(d@);
    let (header, body, footer) = rows_of_table(d, k);
    if header.len() > 0 {
        let mut b = body;
        append_positions(&mut b, &footer, d.len());
        return (header, b);
    }
    let mut n: usize = 0;
    while n < body.len() && is_header_like(d, body[n])
        invariant
            n <= body.len(),
            forall|y: int| 0 <= y < body.len() ==> #[trigger] body@[y] < d.len(),
            forall|y: int| 0 <= y < n ==> header_like(t, #[trigger] positions(body@)[y]),
            t == document_view(d@),
        decreases body.len() - n,
    {
        n += 1;
    }
    proof {
        let b = positions(body@);
        lemma_leading_header_rows(t, b, n as int);
        if n < body.len() {
            assert(b.skip(n as int)[0] == b[n as int]);
        } else {
            assert(b.skip(n as int) =~= Seq::<int>::empty());
        }
    }
    let mut head: Vec<usize> = Vec::new();
    let mut rest: Vec<usize> = Vec::new();
    let mut x: usize = 0;
    while x < body.len()
        invariant
            x <= body.len(),
            n <= body.len(),
            x <= n ==> positions(head@) == positions(body@).take(x as int),
            x <= n ==> rest@.len() == 0,
            x > n ==> positions(head@) == positions(body@).take(n as int),
            x > n ==> positions(rest@) == positions(body@).subrange(n as int, x as int),
            forall|y: int| 0 <= y < body.len() ==> #[trigger] body@[y] < d.len(),
            forall|y: int| 0 <= y < head.len() ==> #[trigger] head@[y] < d.len(),
            forall|y: int| 0 <= y < rest.len() ==> #[trigger] rest@[y] < d.len(),
        decreases body.len() - x,
    {
        let ghost h0 = head@;
        let ghost r0 = rest@;
        if x < n {
            head.push(body[x]);
            assert(positions(head@) =~= positions(body@).take(x + 1));
        } else {
            rest.push(body[x]);
            assert(positions(rest@) =~= positions(body@).subrange(n as int, x + 1));
        }
        x += 1;
    }
    if n == body.len() {
        assert(positions(rest@) =~= positions(body@).skip(n as int));
    } else {
        assert(positions(rest@) =~= positions(body@).skip(n as int));
    }
    assert(positions(head@) =~= positions(body@).take(n as int));
    append_positions(&mut rest, &footer, d.len());
    (head, rest)
}

/// Whether some text of `row` is not empty.
pub open spec fn any_text(row: Seq<Seq<char>>) -> bool {
    exists|x: int| 0 <= x < row.len() && #[trigger] row[x].len() > 0
}

/// The last of `rows` with some text, or no columns at all.
pub open spec fn last_with_text(rows: Seq<Seq<Seq<char>>>) -> Seq<Seq<char>>
    decreases rows.len(),
{
    if rows.len() == 0 {
        Seq::empty()
    } else if any_text(rows.last()) {
        rows.last()
    } else {
        last_with_text(rows.drop_last())
    }
}

/// The row that names the columns: the only header row, or of several (where
/// pandas would build a MultiIndex) the last one carrying text.
pub open spec fn header_row(headers: Seq<Seq<Seq<char>>>) -> Option<Seq<Seq<char>>> {
    if headers.len() == 0 {
        None
    } else if headers.len() == 1 {
        Some(headers[0])
    } else {
        Some(last_with_text(headers))
    }
}

/// The length of the longest of `rows`.
pub open spec fn widest(rows: Seq<Seq<Seq<char>>>) -> nat
    decreases rows.len(),
{
    if rows.len() == 0 {
        0
    } else {
        let w = widest(rows.drop_last());
        if rows.last().len() > w {
            rows.last().len()
        } else {
            w
        }
    }
}

/// `row` cut or filled up with empty texts to `width` (`Vec::resize`).
pub open spec fn padded(row: Seq<Seq<char>>, width: nat) -> Seq<Seq<char>> {
    if row.len() >= width {
        row.take(width as int)
    } else {
        row + Seq::new((width - row.len()) as nat, |i: int| Seq::<char>::empty())
    }
}

/// Whether pandas' placeholder name `Unnamed` occurs in `name`, in any case.
pub open spec fn unnamed(name: Seq<char>) -> bool {
    has_infix(ascii_lowered(name), "unnamed"@)
}

/// The positions of the columns that keep their names.
pub open spec fn kept_columns(names: Seq<Seq<char>>) -> Seq<int> {
    Seq::new(names.len(), |i: int| i).filter(|i: int| !unnamed(names[i]))
}

/// The values at the positions `kept`.
pub open spec fn picked(values: Seq<Seq<char>>, kept: Seq<int>) -> Seq<Seq<char>> {
    kept.map_values(|i: int| values[i])
}

/// The table that the expanded header and body rows give, if there is a header.
pub open spec fn table_spec(headers: Seq<Seq<Seq<char>>>, body: Seq<Seq<Seq<char>>>) -> Option<TableView> {
    match header_row(headers) {
        None => None,
        Some(h) => {
            let width = if widest(headers) >= widest(body) {
                widest(headers)
            } else {
                widest(body)
            };
            let names = pandas_names(padded(h, width));
            let kept = kept_columns(names);
            let columns = picked(names, kept);
            let rows = body.map_values(|r: Seq<Seq<char>>| picked(padded(r, width), kept)).filter(
                |v: Seq<Seq<char>>| any_text(v),
            ).map_values(|v: Seq<Seq<char>>| zip_record(columns, v));
            Some(TableView { columns, rows })
        },
    }
}

/// Why no table could be read.
#[derive(Debug, Clone, Copy, PartialEq, Eq, Structural)]
pub enum ExtractError {
    /// The page holds no visible table with text.
    NoTable,
    /// The table has no header row.
    NoHeader,
}

impl ExtractError {
    /// The message shown for the error.
    pub fn message(&self) -> (r: String)
        ensures
            r@ == (match self {
                ExtractError::NoTable => "Keine Tabelle in der Dualis-Antwort gefunden – ist der Login fehlgeschlagen oder hat sich die Seite geändert?"@,
                ExtractError::NoHeader => "Die Dualis-Tabelle hat keine Kopfzeile."@,
            }),
    {
        match self {
            ExtractError::NoTable => to_string(
                "Keine Tabelle in der Dualis-Antwort gefunden – ist der Login fehlgeschlagen oder hat sich die Seite geändert?",
            ),
            ExtractError::NoHeader => to_string("Die Dualis-Tabelle hat keine Kopfzeile."),
        }
    }
}

/// `texts` cut or filled up with empty strings to `width`.
pub fn pad(texts_in: Vec<String>, width: usize) -> (r: Vec<String>)
    ensures
        texts(r@) == padded(texts(texts_in@), width as nat),
        r.len() == width,
{
    let mut r: Vec<String> = Vec::new();
    let mut i: usize = 0;
    while i < width
        invariant
            i <= width,
            r.len() == i,
            forall|x: int|
                0 <= x < i ==> #[trigger] r@[x]@ == padded(texts(texts_in@), width as nat)[x],
        decreases width - i,
    {
        if i < texts_in.len() {
            r.push(texts_in[i].clone());
        } else {
            r.push(String::new());
        }
        i += 1;
    }
    assert(texts(r@) =~= padded(texts(texts_in@), width as nat));
    r
}

fn has_text(row: &Vec<String>) -> (r: bool)
    ensures
        r == any_text(texts(row@)),
{
    let mut x: usize = 0;
    while x < row.len()
        invariant
            x <= row.len(),
            forall|y: int| 0 <= y < x ==> row@[y]@.len() == 0,
        decreases row.len() - x,
    {
        if !row[x].as_str().is_empty() {
            assert(texts(row@)[x as int].len() > 0);
            return true;
        }
        x += 1;
    }
    proof {
        assert forall|y: int| 0 <= y < texts(row@).len() implies #[trigger] texts(row@)[y].len()
            == 0 by {
            assert(texts(row@)[y] == row@[y]@);
        }
    }
    false
}

/// The row that names the columns.
fn pick_header(headers: &Vec<Vec<String>>) -> (r: Option<Vec<String>>)
    ensures
        match r {
            Some(h) => header_row(row_texts(headers@)) == Some(texts(h@)),
            None => header_row(row_texts(headers@)) is None,
        },
{
    let ghost hs = row_texts(headers@);
    if headers.len() == 0 {
        return None;
    }
    if headers.len() == 1 {
        return Some(headers[0].clone());
    }
    let mut i = headers.len();
    assert(hs.take(i as int) =~= hs);
    while i > 0
        invariant
            i <= headers.len(),
            headers.len() > 1,
            hs == row_texts(headers@),
            last_with_text(hs) == last_with_text(hs.take(i as int)),
        decreases i,
    {
        assert(hs.take(i as int).last() == texts(headers@[i - 1]@));
        assert(hs.take(i as int).drop_last() =~= hs.take(i - 1));
        if has_text(&headers[i - 1]) {
            return Some(headers[i - 1].clone());
        }
        i -= 1;
    }
    assert(last_with_text(hs.take(0)) =~= Seq::<Seq<char>>::empty());
    Some(Vec::new())
}

/// The length of the longest row.
fn widest_row(rows: &Vec<Vec<String>>) -> (r: usize)
    ensures
        r == widest(row_texts(rows@)),
{
    let ghost rs = row_texts(rows@);
    let mut w: usize = 0;
    let mut i: usize = 0;
    assert(rs.take(0) =~= Seq::<Seq<Seq<char>>>::empty());
    while i < rows.len()
        invariant
            i <= rows.len(),
            rs == row_texts(rows@),
            w == widest(rs.take(i as int)),
        decreases rows.len() - i,
    {
        assert(rs.take(i + 1).drop_last() =~= rs.take(i as int));
        assert(rs.take(i + 1).last() == texts(rows@[i as int]@));
        if rows[i].len() > w {
            w = rows[i].len();
        }
        i += 1;
    }
    assert(rs.take(i as int) =~= rs);
    w
}

/// The positions of the columns that keep their names.
fn kept_positions(names: &Vec<String>) -> (r: Vec<usize>)
    ensures
        positions(r@) == kept_columns(texts(names@)),
        forall|x: int| 0 <= x < r.len() ==> #[trigger] r@[x] < names.len(),
{
    let ghost ns = texts(names@);
    let ghost all = Seq::new(ns.len(), |i: int| i);
    let mut r: Vec<usize> = Vec::new();
    let mut i: usize = 0;
    let pat = chars_of("unnamed");
    proof {
        reveal_strlit("unnamed");
    }
    assert(all.take(0) =~= Seq::<int>::empty());
    while i < names.len()
        invariant
            i <= names.len(),
            ns == texts(names@),
            all == Seq::new(ns.len(), |i: int| i),
            pat@ == "unnamed"@,
            pat.len() == 7,
            positions(r@) == all.take(i as int).filter(|i: int| !unnamed(ns[i])),
            forall|x: int| 0 <= x < r.len() ==> #[trigger] r@[x] < i,
        decreases names.len() - i,
    {
        assert(all.take(i + 1).drop_last() =~= all.take(i as int));
        assert(all.take(i + 1).last() == i as int);
        reveal(Seq::filter);
        let low = lowered(&chars_of(names[i].as_str()));
        let ghost before = r@;
        if !contains_chars(&low, &pat) {
            r.push(i);
            assert(positions(r@) =~= positions(before).push(i as int));
        }
        i += 1;
    }
    assert(all.take(i as int) =~= all);
    r
}

/// The values at the positions `kept`.
fn pick(values: &Vec<String>, kept: &Vec<usize>) -> (r: Vec<String>)
    requires
        forall|x: int| 0 <= x < kept.len() ==> #[trigger] kept@[x] < values.len(),
    ensures
        texts(r@) == picked(texts(values@), positions(kept@)),
        r.len() == kept.len(),
{
    let mut r: Vec<String> = Vec::new();
    let mut x: usize = 0;
    while x < kept.len()
        invariant
            x <= kept.len(),
            r.len() == x,
            forall|y: int| 0 <= y < kept.len() ==> #[trigger] kept@[y] < values.len(),
            forall|y: int|
                0 <= y < x ==> #[trigger] r@[y]@ == picked(texts(values@), positions(kept@))[y],
        decreases kept.len() - x,
    {
        r.push(values[kept[x]].clone());
        x += 1;
    }
    assert(texts(r@) =~= picked(texts(values@), positions(kept@)));
    r
}

/// The row that pairs each column with its value.
fn record_of(columns: &Vec<String>, values: &Vec<String>) -> (r: Record)
    requires
        columns.len() == values.len(),
    ensures
        r@ == zip_record(texts(columns@), texts(values@)),
{
    let mut record = StrMap::new();
    let mut i: usize = 0;
    let ghost cs = texts(columns@);
    let ghost vs = texts(values@);
    assert(cs.take(0) =~= Seq::<Seq<char>>::empty());
    while i < columns.len()
        invariant
            i <= columns.len() == values.len(),
            cs == texts(columns@),
            vs == texts(values@),
            record@ == zip_record(cs.take(i as int), vs),
        decreases columns.len() - i,
    {
        assert(cs.take(i + 1).drop_last() =~= cs.take(i as int));
        assert(cs.take(i + 1).last() == columns@[i as int]@);
        record.insert(columns[i].clone(), values[i].clone());
        i += 1;
    }
    assert(cs.take(i as int) =~= cs);
    record
}

/// The table that the expanded header and body rows give: the header row
/// names the columns the pandas way, columns named "Unnamed" are dropped and
/// so are rows without any text.
pub fn build_table(headers: &Vec<Vec<String>>, body: &Vec<Vec<String>>) -> (r: Result<
    Table,
    ExtractError,
>)
    ensures
        match table_spec(row_texts(headers@), row_texts(body@)) {
            Some(v) => r matches Ok(tb) && tb@ == v,
            None => r == Err::<Table, ExtractError>(ExtractError::NoHeader),
        },
{
    let header = match pick_header(headers) {
        Some(h) => h,
        None => {
            return Err(ExtractError::NoHeader);
        },
    };
    let wh = widest_row(headers);
    let wb = widest_row(body);
    let width = if wh >= wb {
        wh
    } else {
        wb
    };
    let names = column_names(pad(header, width));
    assert(names.len() == width);
    let kept = kept_positions(&names);
    let columns = pick(&names, &kept);
    let ghost bs = row_texts(body@);
    let ghost ks = positions(kept@);
    let ghost cols = texts(columns@);
    let ghost values = bs.map_values(|r: Seq<Seq<char>>| picked(padded(r, width as nat), ks));
    let ghost kept_rows = values.filter(|v: Seq<Seq<char>>| any_text(v));
    let mut rows: Vec<Record> = Vec::new();
    let mut i: usize = 0;
    assert(values.take(0) =~= Seq::<Seq<Seq<char>>>::empty());
    while i < body.len()
        invariant
            i <= body.len(),
            bs == row_texts(body@),
            ks == positions(kept@),
            cols == texts(columns@),
            columns.len() == kept.len(),
            forall|x: int| 0 <= x < kept.len() ==> #[trigger] kept@[x] < width,
            values == bs.map_values(|r: Seq<Seq<char>>| picked(padded(r, width as nat), ks)),
            rows@.map_values(|r: Record| r@) == values.take(i as int).filter(
                |v: Seq<Seq<char>>| any_text(v),
            ).map_values(|v: Seq<Seq<char>>| zip_record(cols, v)),
        decreases body.len() - i,
    {
        let padded_row = pad(body[i].clone(), width);
        let vals = pick(&padded_row, &kept);
        assert(values[i as int] == texts(vals@));
        assert(values.take(i + 1).drop_last() =~= values.take(i as int));
        reveal(Seq::filter);
        let ghost before = rows@;
        if has_text(&vals) {
            let record = record_of(&columns, &vals);
            rows.push(record);
            assert(rows@.map_values(|r: Record| r@) =~= before.map_values(|r: Record| r@).push(
                zip_record(cols, texts(vals@)),
            ));
        }
        i += 1;
    }
    assert(values.take(i as int) =~= values);
    let table = Table { columns, rows };
    Ok(table)
}

/// The table that pandas reads from a document, or why there is none.
pub open spec fn extract_spec(t: Seq<(HtmlNodeView, nat)>) -> Result<TableView, ExtractError> {
    match first_table(t) {
        None => Err(ExtractError::NoTable),
        Some(k) => {
            let (h, b) = table_rows(t, k);
            match table_spec(
                expand_spans_spec(rows_cells(t, h)),
                expand_spans_spec(rows_cells(t, b)),
            ) {
                Some(v) => Ok(v),
                None => Err(ExtractError::NoHeader),
            }
        },
    }
}

/// The results table of a parsed document.
pub fn extract_from_document(d: &Document) -> (r: Result<Table, ExtractError>)
    ensures
        match extract_spec(document_view(d@)) {
            Ok(v) => r matches Ok(tb) && tb@ == v,
            Err(e) => r matches Err(x) && x == e,
        },
{
    let k = match find_table(d) {
        Some(k) => k,
        None => {
            return Err(ExtractError::NoTable);
        },
    };
    let (header_rows, body_rows) = header_and_body(d, k);
    let headers = expand_spans(&cells_of_rows(d, &header_rows));
    let body = expand_spans(&cells_of_rows(d, &body_rows));
    build_table(&headers, &body)
}

/// The results table of a Dualis page: the first visible table with text,
/// read the way `pandas.read_html` reads it.
pub fn extract_table(html: &str) -> (r: Result<Table, ExtractError>)
    ensures
        match extract_spec(parsed_document(html@)) {
            Ok(v) => r matches Ok(tb) && tb@ == v,
            Err(e) => r matches Err(x) && x == e,
        },
{
    let document = parse_document(html);
    extract_from_document(&document)
}

} // verus!
