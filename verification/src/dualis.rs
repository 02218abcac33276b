//! Reading a Dualis login response and decoding the results page.

use vstd::prelude::*;

use crate::matching::{regex_group, regex_group_of};
use crate::table::{lemma_some_values_concat, lemma_some_values_step, some_values};
use crate::text::{
    char_views, chars_of, find_char, first_index, pieces, split_chars, string_from_chars,
    sub_chars, to_string, trailing_stripped, trim_bounds, trim_end_char, trim_spec,
};

verus! {

/// The part of `s` before the first `sep`, or all of `s`.
pub open spec fn before_first(s: Seq<char>, sep: char) -> Seq<char> {
    if s.contains(sep) {
        s.take(first_index(s, sep))
    } else {
        s
    }
}

/// The session cookie in a `Set-Cookie` value: its first `name=value` pair,
/// with spaces removed.
pub open spec fn cookie_pair(set_cookie: Seq<char>) -> Seq<char> {
    before_first(set_cookie, ';').filter(|c: char| c != ' ')
}

/// The session id in a `REFRESH` value: capture group 1.
pub const SESSION_ARGUMENT_PATTERN: &'static str = "ARGUMENTS=(.*?),";

/// Credentials of one logged-in Dualis session.
#[derive(Debug, Clone, PartialEq, Eq)]
pub struct Session {
    pub cookie: String,
    pub id: String,
}

/// Why a login response holds no session.
#[derive(Debug, Clone, Copy, PartialEq, Eq, Structural)]
pub enum SessionError {
    NoCookie,
    NoRefresh,
    NoSessionId,
}

impl SessionError {
    /// The message shown for the error.
    pub fn message(&self) -> (r: String)
        ensures
            r@ == (match self {
                SessionError::NoCookie => "Dualis hat kein Sitzungs-Cookie gesendet"@,
                SessionError::NoRefresh => "Dualis hat keinen REFRESH-Header gesendet"@,
                SessionError::NoSessionId => "Dualis hat keine Sitzungskennung gesendet"@,
            }),
    {
        match self {
            SessionError::NoCookie => to_string("Dualis hat kein Sitzungs-Cookie gesendet"),
            SessionError::NoRefresh => to_string("Dualis hat keinen REFRESH-Header gesendet"),
            SessionError::NoSessionId => to_string("Dualis hat keine Sitzungskennung gesendet"),
        }
    }
}

/// The session that a login response with these `Set-Cookie` and `REFRESH`
/// header values describes: (cookie, session id), or why there is none.
pub open spec fn session_spec(set_cookie: Option<Seq<char>>, refresh: Option<Seq<char>>) -> Result<
    (Seq<char>, Seq<char>),
    SessionError,
> {
    let cookie = match set_cookie {
        Some(v) => cookie_pair(v),
        None => Seq::empty(),
    };
    if cookie.len() == 0 {
        Err(SessionError::NoCookie)
    } else if refresh is None {
        Err(SessionError::NoRefresh)
    } else {
        match regex_group_of(SESSION_ARGUMENT_PATTERN@, refresh->0, 1) {
            Some(id) => Ok((cookie, id)),
            None => Err(SessionError::NoSessionId),
        }
    }
}

/// The first `name=value` pair of a `Set-Cookie` value, without spaces.
fn cookie_of(set_cookie: &str) -> (r: Vec<char>)
    ensures
        r@ == cookie_pair(set_cookie@),
{
    let s = chars_of(set_cookie);
    let end = match find_char(&s, ';') {
        Some(e) => e,
        None => s.len(),
    };
    let ghost first = before_first(s@, ';');
    assert(first =~= s@.take(end as int));
    let mut r: Vec<char> = Vec::new();
    let mut i: usize = 0;
    let ghost keep = |c: char| c != ' ';
    assert(first.take(0) =~= Seq::<char>::empty());
    while i < end
        invariant
            i <= end <= s.len(),
            first == s@.take(end as int),
            r@ == first.take(i as int).filter(keep),
            keep == (|c: char| c != ' '),
        decreases end - i,
    {
        assert(first.take(i + 1).drop_last() =~= first.take(i as int));
        assert(first.take(i + 1).last() == s@[i as int]);
        reveal(Seq::filter);
        if s[i] != ' ' {
            r.push(s[i]);
        }
        i += 1;
    }
    assert(first.take(end as int) =~= first);
    r
}

/// Whether `pat` stands in `s` at position `i`.
fn matches_at(s: &Vec<char>, i: usize, pat: &Vec<char>) -> (r: bool)
    ensures
        r == (i + pat.len() <= s.len() && s@.subrange(i as int, i + pat.len()) == pat@),
{
    if i > s.len() || pat.len() > s.len() - i {
        return false;
    }
    let mut k: usize = 0;
    while k < pat.len()
        invariant
            k <= pat.len(),
            i + pat.len() <= s.len(),
            forall|x: int| 0 <= x < k ==> s@[i + x] == pat@[x],
        decreases pat.len() - k,
    {
        if s[i + k] != pat[k] {
            assert(s@.subrange(i as int, i + pat.len())[k as int] != pat@[k as int]);
            return false;
        }
        k += 1;
    }
    assert(s@.subrange(i as int, i + pat.len()) =~= pat@);
    true
}

/// Read the session from a login response's `Set-Cookie` and `REFRESH`
/// header values.
pub fn session_from_headers(set_cookie: Option<&str>, refresh: Option<&str>) -> (r: Result<
    Session,
    SessionError,
>)
    ensures
        match session_spec(
            match set_cookie {
                Some(v) => Some(v@),
                None => None,
            },
            match refresh {
                Some(v) => Some(v@),
                None => None,
            },
        ) {
            Ok((cookie, id)) => r matches Ok(s) && s.cookie@ == cookie && s.id@ == id,
            Err(e) => r matches Err(x) && x == e,
        },
{
    let cookie = match set_cookie {
        Some(v) => cookie_of(v),
        None => Vec::new(),
    };
    if cookie.len() == 0 {
        return Err(SessionError::NoCookie);
    }
    let refresh = match refresh {
        Some(v) => v,
        None => {
            return Err(SessionError::NoRefresh);
        },
    };
    match regex_group(SESSION_ARGUMENT_PATTERN, refresh, 1) {
        Some(id) => Ok(Session { cookie: string_from_chars(cookie), id }),
        None => Err(SessionError::NoSessionId),
    }
}

/// ASCII upper-case letters in lower case; every other character unchanged.
pub open spec fn ascii_lower(c: char) -> char {
    if 65 <= c as u32 <= 90 {
        ((c as u32) + 32) as char
    } else {
        c
    }
}

/// `str::to_ascii_lowercase`.
pub open spec fn ascii_lowered(s: Seq<char>) -> Seq<char> {
    s.map_values(|c: char| ascii_lower(c))
}

fn lower_char(c: char) -> (r: char)
    ensures
        r == ascii_lower(c),
{
    let n = c as u32;
    if 65 <= n && n <= 90 {
        ((n + 32) as u8) as char
    } else {
        c
    }
}

pub(crate) fn lowered(s: &Vec<char>) -> (r: Vec<char>)
    ensures
        r@ == ascii_lowered(s@),
{
    let mut r: Vec<char> = Vec::new();
    let mut i: usize = 0;
    while i < s.len()
        invariant
            i <= s.len(),
            r@ == ascii_lowered(s@.take(i as int)),
        decreases s.len() - i,
    {
        r.push(lower_char(s[i]));
        i += 1;
        assert(r@ =~= ascii_lowered(s@.take(i as int)));
    }
    assert(s@.take(i as int) =~= s@);
    r
}

/// A Latin-1 body: each byte is the character with its number.
pub open spec fn latin1_text(body: Seq<u8>) -> Seq<char> {
    body.map_values(|b: u8| b as char)
}

/// Decode `body` as ISO-8859-1.
pub fn decode_latin1(body: &[u8]) -> (r: String)
    ensures
        r@ == latin1_text(body@),
{
    let mut chars: Vec<char> = Vec::new();
    let mut i: usize = 0;
    while i < body.len()
        invariant
            i <= body.len(),
            chars@ == latin1_text(body@.take(i as int)),
        decreases body.len() - i,
    {
        chars.push(body[i] as char);
        i += 1;
        assert(chars@ =~= latin1_text(body@.take(i as int)));
    }
    assert(body@.take(i as int) =~= body@);
    string_from_chars(chars)
}

/// The label with ASCII letters in lower case and `_` read as `-`.
pub open spec fn label_key(label: Seq<char>) -> Seq<char> {
    ascii_lowered(label).map_values(|c: char| if c == '_' { '-' } else { c })
}

/// Labels that encoding_rs maps to windows-1252 but that name true ISO-8859-1.
pub open spec fn latin1_labels() -> Seq<Seq<char>> {
    seq![
        "iso-8859-1"@,
        "iso8859-1"@,
        "latin-1"@,
        "latin1"@,
        "l1"@,
        "cp819"@,
        "iso-ir-100"@,
    ]
}

/// Whether `label` names ISO-8859-1.
pub open spec fn latin1_label(label: Seq<char>) -> bool {
    latin1_labels().contains(label_key(label))
}

fn same_chars(a: &Vec<char>, b: &Vec<char>) -> (r: bool)
    ensures
        r == (a@ == b@),
{
    if a.len() != b.len() {
        return false;
    }
    let mut i: usize = 0;
    while i < a.len()
        invariant
            i <= a.len() == b.len(),
            forall|x: int| 0 <= x < i ==> a@[x] == b@[x],
        decreases a.len() - i,
    {
        if a[i] != b[i] {
            return false;
        }
        i += 1;
    }
    assert(a@ =~= b@);
    true
}

/// Whether `label` names ISO-8859-1, which Python decodes as true Latin-1.
pub fn is_latin1_label(label: &str) -> (r: bool)
    ensures
        r == latin1_label(label@),
{
    let low = lowered(&chars_of(label));
    let mut key: Vec<char> = Vec::new();
    let mut i: usize = 0;
    while i < low.len()
        invariant
            i <= low.len(),
            key@ == low@.take(i as int).map_values(|c: char| if c == '_' { '-' } else { c }),
        decreases low.len() - i,
    {
        key.push(if low[i] == '_' { '-' } else { low[i] });
        i += 1;
        assert(key@ =~= low@.take(i as int).map_values(|c: char| if c == '_' { '-' } else { c }));
    }
    assert(low@.take(i as int) =~= low@);
    let names = [
        "iso-8859-1",
        "iso8859-1",
        "latin-1",
        "latin1",
        "l1",
        "cp819",
        "iso-ir-100",
    ];
    let ghost all = latin1_labels();
    let mut k: usize = 0;
    while k < 7
        invariant
            k <= 7,
            names@.len() == 7,
            all == latin1_labels(),
            all.len() == 7,
            forall|x: int| 0 <= x < 7 ==> #[trigger] names@[x]@ == all[x],
            forall|x: int| 0 <= x < k ==> all[x] != key@,
            key@ == label_key(label@),
        decreases 7 - k,
    {
        if same_chars(&key, &chars_of(names[k])) {
            assert(all[k as int] == key@);
            assert(all.contains(key@));
            return true;
        }
        k += 1;
    }
    assert(!all.contains(key@));
    false
}

pub open spec fn is_quote(c: char) -> bool {
    c == '"' || c == '\''
}

pub open spec fn strip_leading_quotes(s: Seq<char>) -> Seq<char>
    decreases s.len(),
{
    if s.len() > 0 && is_quote(s[0]) {
        strip_leading_quotes(s.drop_first())
    } else {
        s
    }
}

pub open spec fn strip_trailing_quotes(s: Seq<char>) -> Seq<char>
    decreases s.len(),
{
    if s.len() > 0 && is_quote(s.last()) {
        strip_trailing_quotes(s.drop_last())
    } else {
        s
    }
}

/// `s` without the quotes at either end (`trim_matches` on `"` and `'`).
pub open spec fn strip_quotes(s: Seq<char>) -> Seq<char> {
    strip_trailing_quotes(strip_leading_quotes(s))
}

/// The charset that one `name=value` parameter of a `Content-Type` gives, if
/// its name is `charset` in any case.
pub open spec fn charset_param(p: Seq<char>) -> Option<Seq<char>> {
    if p.contains('=') {
        let e = first_index(p, '=');
        if ascii_lowered(trim_spec(p.take(e), false)) == "charset"@ {
            Some(strip_quotes(trim_spec(p.skip(e + 1), false)))
        } else {
            None
        }
    } else {
        None
    }
}

/// What each parameter after the media type of a `Content-Type` gives.
pub open spec fn charset_params(content_type: Seq<char>) -> Seq<Option<Seq<char>>> {
    pieces(content_type, ';').skip(1).map_values(|p: Seq<char>| charset_param(p))
}

/// The charset of the first `charset` parameter of a `Content-Type`.
pub open spec fn content_type_charset(content_type: Seq<char>) -> Option<Seq<char>> {
    let found = some_values(charset_params(content_type));
    if found.len() > 0 {
        Some(found[0])
    } else {
        None
    }
}

pub proof fn lemma_pieces_nonempty(s: Seq<char>, sep: char)
    ensures
        pieces(s, sep).len() >= 1,
    decreases s.len(),
{
    if s.len() > 0 {
        lemma_pieces_nonempty(s.drop_last(), sep);
    }
}

fn strip_quote_chars(s: &Vec<char>) -> (r: Vec<char>)
    ensures
        r@ == strip_quotes(s@),
{
    let mut i: usize = 0;
    assert(s@.skip(0) =~= s@);
    while i < s.len() && (s[i] == '"' || s[i] == '\'')
        invariant
            i <= s.len(),
            strip_leading_quotes(s@) == strip_leading_quotes(s@.skip(i as int)),
        decreases s.len() - i,
    {
        assert(s@.skip(i + 1) =~= s@.skip(i as int).drop_first());
        i += 1;
    }
    let ghost rest = s@.skip(i as int);
    assert(strip_leading_quotes(s@) == rest);
    let mut j: usize = s.len();
    assert(rest =~= s@.subrange(i as int, j as int));
    while j > i && (s[j - 1] == '"' || s[j - 1] == '\'')
        invariant
            i <= j <= s.len(),
            rest == s@.skip(i as int),
            strip_trailing_quotes(rest) == strip_trailing_quotes(s@.subrange(i as int, j as int)),
        decreases j,
    {
        assert(s@.subrange(i as int, j - 1) =~= s@.subrange(i as int, j as int).drop_last());
        j -= 1;
    }
    sub_chars(s, i, j)
}

/// The charset that the parameter `p` gives.
fn param_charset(p: &Vec<char>) -> (r: Option<String>)
    ensures
        match r {
            Some(v) => charset_param(p@) == Some(v@),
            None => charset_param(p@) is None,
        },
{
    match find_char(p, '=') {
        None => None,
        Some(e) => {
            let name = sub_chars(p, 0, e);
            assert(name@ =~= p@.take(e as int));
            let (a, b) = trim_bounds(&name, false);
            let key = lowered(&sub_chars(&name, a, b));
            let expected = chars_of("charset");
            proof {
                reveal_strlit("charset");
            }
            if !same_chars(&key, &expected) {
                return None;
            }
            let rest = sub_chars(p, e + 1, p.len());
            assert(rest@ =~= p@.skip(e + 1));
            let (c, d) = trim_bounds(&rest, false);
            let value = strip_quote_chars(&sub_chars(&rest, c, d));
            Some(string_from_chars(value))
        },
    }
}

/// The `charset` parameter of a `Content-Type` header value, if any.
pub fn charset_from_content_type(content_type: &str) -> (r: Option<String>)
    ensures
        match r {
            Some(v) => content_type_charset(content_type@) == Some(v@),
            None => content_type_charset(content_type@) is None,
        },
{
    let parts = split_chars(&chars_of(content_type), ';');
    let ghost all = pieces(content_type@, ';');
    let ghost ms = charset_params(content_type@);
    proof {
        lemma_pieces_nonempty(content_type@, ';');
    }
    assert(ms.take(0) =~= Seq::<Option<Seq<char>>>::empty());
    let mut k: usize = 1;
    while k < parts.len()
        invariant
            1 <= k <= parts.len(),
            char_views(parts@) == all,
            all == pieces(content_type@, ';'),
            ms == charset_params(content_type@),
            ms.len() == parts.len() - 1,
            some_values(ms.take(k - 1)).len() == 0,
        decreases parts.len() - k,
    {
        assert(ms[k - 1] == charset_param(parts@[k as int]@));
        proof {
            lemma_some_values_step(ms, k - 1);
        }
        match param_charset(&parts[k]) {
            Some(v) => {
                proof {
                    assert(some_values(ms.take(k as int)) =~= seq![v@]);
                    lemma_some_values_concat(ms.take(k as int), ms.skip(k as int));
                    assert(ms.take(k as int) + ms.skip(k as int) =~= ms);
                }
                return Some(v);
            },
            None => {},
        }
        k += 1;
    }
    assert(ms.take(k - 1) =~= ms);
    None
}

/// Finds a charset declared in a `<meta>` tag, in the HTML5 `<meta
/// charset="...">` form and in the older `http-equiv` form.
pub const META_CHARSET_PATTERN: &'static str =
    "(?is)<meta\\b[^>]*charset\\s*=\\s*[\"']?([a-zA-Z0-9_-]+)";

/// What capture group `group` of the leftmost-first match of the regular
/// expression `pattern` takes from `haystack`, as the regex crate matches bytes.
pub uninterp spec fn regex_capture_of(pattern: Seq<char>, haystack: Seq<u8>, group: nat) -> Option<
    Seq<u8>,
>;

/// regex's `bytes::Regex::new(pattern)`, `captures(haystack)` and `get(group)`:
/// the bytes that the group takes in the leftmost-first match. `None` where the
/// pattern does not compile, nothing matches or the group takes no part.
/// Claimed: the result is `regex_capture_of` the three arguments, a function of
/// them alone.
#[verifier::external_body]
fn regex_bytes_capture(pattern: &str, haystack: &[u8], group: usize) -> (r: Option<Vec<u8>>)
    ensures
        match r {
            Some(v) => regex_capture_of(pattern@, haystack@, group as nat) == Some(v@),
            None => regex_capture_of(pattern@, haystack@, group as nat) is None,
        },
{
    let re = match regex::bytes::Regex::new(pattern) {
        Ok(re) => re,
        Err(_) => return None,
    };
    let captures = re.captures(haystack)?;
    let found = captures.get(group)?;
    Some(found.as_bytes().to_vec())
}

/// What `String::from_utf8_lossy` makes of `bytes`.
pub uninterp spec fn utf8_lossy_text(bytes: Seq<u8>) -> Seq<char>;

/// std's `String::from_utf8_lossy`: the text that `bytes` encode in UTF-8,
/// with U+FFFD for each invalid sequence. Claimed: the result is
/// `utf8_lossy_text` of the bytes, a function of them alone.
#[verifier::external_body]
fn utf8_lossy(bytes: &[u8]) -> (r: String)
    ensures
        r@ == utf8_lossy_text(bytes@),
{
    String::from_utf8_lossy(bytes).into_owned()
}

/// What encoding_rs decodes `body` into with the encoding that `label` names,
/// if it knows the label.
pub uninterp spec fn encoding_decode(label: Seq<char>, body: Seq<u8>) -> Option<Seq<char>>;

/// encoding_rs's `Encoding::for_label` on the label's bytes and, for a label it
/// knows, `decode_without_bom_handling` of `body`; `None` for an unknown label.
/// Claimed: the result is `encoding_decode` of the label and body, a function
/// of them alone.
#[verifier::external_body]
fn decode_with_encoding(label: &str, body: &[u8]) -> (r: Option<String>)
    ensures
        match r {
            Some(v) => encoding_decode(label@, body@) == Some(v@),
            None => encoding_decode(label@, body@) is None,
        },
{
    let encoding = encoding_rs::Encoding::for_label(label.as_bytes())?;
    Some(encoding.decode_without_bom_handling(body).0.into_owned())
}

/// The charset that a `<meta>` tag in `body` declares.
pub open spec fn meta_charset_spec(body: Seq<u8>) -> Option<Seq<char>> {
    match regex_capture_of(META_CHARSET_PATTERN@, body, 1) {
        Some(b) => Some(utf8_lossy_text(b)),
        None => None,
    }
}

/// `<meta charset="...">` or the older `<meta http-equiv="Content-Type"
/// content="...; charset=...">`, matched on raw bytes since meta tags are pure
/// ASCII, so this needs no assumption about the body's own encoding.
pub fn meta_charset(body: &[u8]) -> (r: Option<String>)
    ensures
        match r {
            Some(v) => meta_charset_spec(body@) == Some(v@),
            None => meta_charset_spec(body@) is None,
        },
{
    match regex_bytes_capture(META_CHARSET_PATTERN, body, 1) {
        Some(bytes) => Some(utf8_lossy(bytes.as_slice())),
        None => None,
    }
}

/// The text of `body` decoded with the encoding that `label` names: true
/// Latin-1 for the ISO-8859-1 labels, UTF-8 for labels encoding_rs does not know.
pub open spec fn label_decoded(label: Seq<char>, body: Seq<u8>) -> Seq<char> {
    if latin1_label(label) {
        latin1_text(body)
    } else {
        match encoding_decode(label, body) {
            Some(t) => t,
            None => utf8_lossy_text(body),
        }
    }
}

/// Decode `body` with the encoding that `label` names.
pub fn decode_with_label(label: &str, body: &[u8]) -> (r: String)
    ensures
        r@ == label_decoded(label@, body@),
{
    if is_latin1_label(label) {
        return decode_latin1(body);
    }
    match decode_with_encoding(label, body) {
        Some(text) => text,
        None => utf8_lossy(body),
    }
}

/// Whether `t` occurs in `s`.
pub open spec fn has_infix(s: Seq<char>, t: Seq<char>) -> bool {
    exists|i: int| 0 <= i && i + t.len() <= s.len() && #[trigger] s.subrange(i, i + t.len()) == t
}

pub(crate) fn contains_chars(s: &Vec<char>, t: &Vec<char>) -> (r: bool)
    requires
        t.len() > 0,
    ensures
        r == has_infix(s@, t@),
{
    if t.len() > s.len() {
        return false;
    }
    let last = s.len() - t.len();
    let mut i: usize = 0;
    while i <= last
        invariant
            i <= last + 1,
            t.len() > 0,
            last == s.len() - t.len(),
            forall|x: int| 0 <= x < i ==> #[trigger] s@.subrange(x, x + t.len()) != t@,
        decreases last + 1 - i,
    {
        if matches_at(s, i, t) {
            assert(s@.subrange(i as int, i + t.len()) == t@);
            return true;
        }
        i += 1;
    }
    proof {
        assert forall|x: int| 0 <= x && x + t.len() <= s.len() implies #[trigger] s@.subrange(
            x,
            x + t.len(),
        ) != t@ by {
            assert(x < i);
        }
    }
    false
}

/// How a response body is turned into text.
#[derive(Debug, Clone, PartialEq, Eq)]
pub enum Decoding {
    /// With the encoding of this charset label.
    Charset(String),
    /// As ISO-8859-1, the fallback for text responses.
    Latin1,
    /// As UTF-8, replacing invalid sequences.
    Utf8,
}

pub enum DecodingView {
    Charset(Seq<char>),
    Latin1,
    Utf8,
}

impl View for Decoding {
    type V = DecodingView;

    open spec fn view(&self) -> DecodingView {
        match self {
            Decoding::Charset(l) => DecodingView::Charset(l@),
            Decoding::Latin1 => DecodingView::Latin1,
            Decoding::Utf8 => DecodingView::Utf8,
        }
    }
}

/// How a body is decoded, given its `Content-Type` and the charset its
/// `<meta>` tag declares: the header's charset, else the meta charset, else
/// ISO-8859-1 for text and UTF-8 for anything else.
pub open spec fn decoding_spec(content_type: Seq<char>, meta: Option<Seq<char>>) -> DecodingView {
    match content_type_charset(content_type) {
        Some(label) => DecodingView::Charset(label),
        None => match meta {
            Some(label) => DecodingView::Charset(label),
            None => if has_infix(ascii_lowered(content_type), "text"@) {
                DecodingView::Latin1
            } else {
                DecodingView::Utf8
            },
        },
    }
}

/// Choose how to decode a body with this `Content-Type` and meta charset.
pub fn decoding_for(content_type: &str, meta: Option<String>) -> (r: Decoding)
    ensures
        r@ == decoding_spec(
            content_type@,
            match meta {
                Some(m) => Some(m@),
                None => None,
            },
        ),
{
    match charset_from_content_type(content_type) {
        Some(label) => Decoding::Charset(label),
        None => match meta {
            Some(label) => Decoding::Charset(label),
            None => {
                let low = lowered(&chars_of(content_type));
                let text = chars_of("text");
                proof {
                    reveal_strlit("text");
                }
                if contains_chars(&low, &text) {
                    Decoding::Latin1
                } else {
                    Decoding::Utf8
                }
            },
        },
    }
}

/// The text of a response body with this `Content-Type` header value.
pub open spec fn decoded_body(content_type: Option<Seq<char>>, body: Seq<u8>) -> Seq<char> {
    let ct = match content_type {
        Some(c) => c,
        None => Seq::empty(),
    };
    let meta = if content_type_charset(ct) is None {
        meta_charset_spec(body)
    } else {
        None
    };
    match decoding_spec(ct, meta) {
        DecodingView::Charset(label) => label_decoded(label, body),
        DecodingView::Latin1 => latin1_text(body),
        DecodingView::Utf8 => utf8_lossy_text(body),
    }
}

/// Decode a response the way Python's `requests` decodes it, so cached names stay equal:
/// the charset from `Content-Type`, else a `<meta charset>` in the body itself
/// (Dualis omits it from the header but declares it in the HTML), else
/// ISO-8859-1 for text responses.
pub fn decode_body(content_type: Option<&str>, body: &[u8]) -> (r: String)
    ensures
        r@ == decoded_body(
            match content_type {
                Some(c) => Some(c@),
                None => None,
            },
            body@,
        ),
{
    let ct = match content_type {
        Some(c) => c,
        None => "",
    };
    proof {
        reveal_strlit("");
    }
    assert(ct@ == match content_type {
        Some(c) => c@,
        None => Seq::<char>::empty(),
    });
    let meta = match charset_from_content_type(ct) {
        Some(_) => None,
        None => meta_charset(body),
    };
    match decoding_for(ct, meta) {
        Decoding::Charset(label) => decode_with_label(label.as_str(), body),
        Decoding::Latin1 => decode_latin1(body),
        Decoding::Utf8 => utf8_lossy(body),
    }
}

/// The path of Dualis' CGI endpoint.
pub const SCRIPT_PATH: &'static str = "/scripts/mgrqispi.dll";

/// Appended to the user name for the login.
pub const USERNAME_DOMAIN: &'static str = "@student.dhbw-mannheim.de";

/// The base URL without trailing slashes, to which the paths are appended.
pub fn base_url_of(base_url: &str) -> (r: String)
    ensures
        r@ == trailing_stripped(base_url@, '/'),
{
    trim_end_char(base_url, '/')
}

/// Where the login form is posted.
pub fn login_url(base_url: &str) -> (r: String)
    ensures
        r@ == base_url@ + SCRIPT_PATH@,
{
    let mut r = to_string(base_url);
    r.append(SCRIPT_PATH);
    r
}

/// The fields of the login form, in order.
pub open spec fn login_form_spec(user: Seq<char>, password: Seq<char>) -> Seq<(Seq<char>, Seq<char>)> {
    seq![
        ("usrname"@, user + USERNAME_DOMAIN@),
        ("pass"@, password),
        ("APPNAME"@, "CampusNet"@),
        ("PRGNAME"@, "LOGINCHECK"@),
        ("ARGUMENTS"@, "clino,usrname,pass,menuno,menu_type,browser,platform"@),
        ("clino"@, "000000000000001"@),
        ("menuno"@, "000324"@),
        ("menu_type"@, "classic"@),
        ("browser"@, ""@),
        ("platform"@, ""@),
    ]
}

/// What pairs of strings hold.
pub open spec fn pair_views(v: Seq<(String, String)>) -> Seq<(Seq<char>, Seq<char>)> {
    v.map_values(|p: (String, String)| (p.0@, p.1@))
}

fn push_pair(form: &mut Vec<(String, String)>, name: &str, value: String)
    ensures
        pair_views(final(form)@) == pair_views(old(form)@).push((name@, value@)),
{
    form.push((to_string(name), value));
    assert(pair_views(form@) =~= pair_views(old(form)@).push((name@, value@)));
}

/// The login form for `user` (without the domain) and `password`.
pub fn login_form(user: &str, password: &str) -> (r: Vec<(String, String)>)
    ensures
        pair_views(r@) == login_form_spec(user@, password@),
{
    let mut form: Vec<(String, String)> = Vec::new();
    let mut name = to_string(user);
    name.append(USERNAME_DOMAIN);
    push_pair(&mut form, "usrname", name);
    push_pair(&mut form, "pass", to_string(password));
    push_pair(&mut form, "APPNAME", to_string("CampusNet"));
    push_pair(&mut form, "PRGNAME", to_string("LOGINCHECK"));
    push_pair(
        &mut form,
        "ARGUMENTS",
        to_string("clino,usrname,pass,menuno,menu_type,browser,platform"),
    );
    push_pair(&mut form, "clino", to_string("000000000000001"));
    push_pair(&mut form, "menuno", to_string("000324"));
    push_pair(&mut form, "menu_type", to_string("classic"));
    push_pair(&mut form, "browser", to_string(""));
    push_pair(&mut form, "platform", to_string(""));
    assert(pair_views(form@) =~= login_form_spec(user@, password@));
    form
}

/// The URL of the results page of `session_id` for `semester_id` (empty for
/// all results).
pub open spec fn results_url_spec(base_url: Seq<char>, session_id: Seq<char>, semester_id: Seq<char>) -> Seq<char> {
    base_url + SCRIPT_PATH@ + "?APPNAME=CampusNet&PRGNAME=COURSERESULTS&ARGUMENTS="@ + session_id
        + ",-N000307,"@ + semester_id
}

/// Where the results page of a session is fetched.
pub fn results_url(base_url: &str, session_id: &str, semester_id: &str) -> (r: String)
    ensures
        r@ == results_url_spec(base_url@, session_id@, semester_id@),
{
    let mut r = to_string(base_url);
    r.append(SCRIPT_PATH);
    r.append("?APPNAME=CampusNet&PRGNAME=COURSERESULTS&ARGUMENTS=");
    r.append(session_id);
    r.append(",-N000307,");
    r.append(semester_id);
    r
}

/// A charset in the `Content-Type` header decides how a body is decoded,
/// whatever a `<meta>` tag in the body declares.
pub proof fn law_header_charset_wins(content_type: Seq<char>, body: Seq<u8>)
    requires
        content_type_charset(content_type) is Some,
    ensures
        decoded_body(Some(content_type), body) == label_decoded(
            content_type_charset(content_type)->0,
            body,
        ),
{
}

/// Without a charset in the header, the charset of a `<meta>` tag decides.
pub proof fn law_meta_charset_when_header_has_none(content_type: Seq<char>, body: Seq<u8>)
    requires
        content_type_charset(content_type) is None,
        meta_charset_spec(body) is Some,
    ensures
        decoded_body(Some(content_type), body) == label_decoded(meta_charset_spec(body)->0, body),
{
}

} // verus!
