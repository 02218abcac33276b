//! Configuration from environment variables and an optional `.env` file.

use vstd::prelude::*;

use crate::compare::{all_digits, digit_value, digits_value, is_digit};
use crate::matching::{regex_replace_first, regex_replaced_first};
use crate::table::{
    lemma_some_values_contains, lemma_some_values_none, lemma_some_values_step, some_values, texts,
    StrMap,
};
use crate::text::{
    char_views, pieces, split_chars,
    chars_of, find_char, first_index, sub_chars, trim_text, string_from_chars, to_string, trim_end_index, trim_end_spec,
    trim_spec, trim_start_index, trim_start_spec, decimal, digit_char, white_space,
};

verus! {

pub const DEFAULT_DUALIS_URL: &'static str = "https://dualis.dhbw.de";

/// Whether a backslash before `c` escapes it inside a value quoted with `quote`.
pub open spec fn escapable(quote: char, c: char) -> bool {
    if quote == '"' {
        c == '\\' || c == '\'' || c == '"' || c == 'a' || c == 'b' || c == 'f' || c == 'n' || c
            == 'r' || c == 't' || c == 'v'
    } else {
        c == '\\' || c == '\''
    }
}

/// The character that the escape `\c` stands for.
pub open spec fn unescaped(c: char) -> char {
    if c == 'a' {
        '\u{07}'
    } else if c == 'b' {
        '\u{08}'
    } else if c == 'f' {
        '\u{0c}'
    } else if c == 'n' {
        '\n'
    } else if c == 'r' {
        '\r'
    } else if c == 't' {
        '\t'
    } else if c == 'v' {
        '\u{0b}'
    } else {
        c
    }
}

pub open spec fn prepend(p: Seq<char>, rest: Option<Seq<char>>) -> Option<Seq<char>> {
    match rest {
        Some(r) => Some(p + r),
        None => None,
    }
}

/// The quoted value that starts at `s[i]` and ends before the closing `quote`,
/// with escapes resolved; `None` when the quote is never closed.
pub open spec fn unquote(s: Seq<char>, quote: char, i: int) -> Option<Seq<char>>
    decreases s.len() - i,
{
    if i < 0 || i >= s.len() {
        None
    } else if s[i] == quote {
        Some(Seq::empty())
    } else if s[i] == '\\' && i + 1 < s.len() && escapable(quote, s[i + 1]) {
        prepend(seq![unescaped(s[i + 1])], unquote(s, quote, i + 2))
    } else {
        prepend(seq![s[i]], unquote(s, quote, i + 1))
    }
}

/// An inline comment of an unquoted `.env` value, with the white space before it.
pub const INLINE_COMMENT_PATTERN: &'static str = "\\s+#.*";

/// A value of a `.env` line, read like python-dotenv: unquoted values lose an
/// inline comment and trailing white space; quoted values keep `#` and resolve
/// backslash escapes; an unterminated quote keeps the text as written.
pub open spec fn dotenv_value_spec(raw: Seq<char>) -> Seq<char> {
    if raw.len() > 0 && (raw[0] == '"' || raw[0] == '\'') {
        match unquote(raw, raw[0], 1) {
            Some(v) => v,
            None => raw,
        }
    } else {
        trim_end_spec(regex_replaced_first(INLINE_COMMENT_PATTERN@, raw, ""@), false)
    }
}

fn escapes(quote: char, c: char) -> (r: bool)
    ensures
        r == escapable(quote, c),
{
    if quote == '"' {
        c == '\\' || c == '\'' || c == '"' || c == 'a' || c == 'b' || c == 'f' || c == 'n' || c
            == 'r' || c == 't' || c == 'v'
    } else {
        c == '\\' || c == '\''
    }
}

fn unescape(c: char) -> (r: char)
    ensures
        r == unescaped(c),
{
    if c == 'a' {
        '\u{07}'
    } else if c == 'b' {
        '\u{08}'
    } else if c == 'f' {
        '\u{0c}'
    } else if c == 'n' {
        '\n'
    } else if c == 'r' {
        '\r'
    } else if c == 't' {
        '\t'
    } else if c == 'v' {
        '\u{0b}'
    } else {
        c
    }
}

/// Parse one `.env` value like python-dotenv.
pub fn parse_dotenv_value(raw: &str) -> (r: String)
    ensures
        r@ == dotenv_value_spec(raw@),
{
    let s = chars_of(raw);
    if s.len() > 0 && (s[0] == '"' || s[0] == '\'') {
        let quote = s[0];
        let mut value: Vec<char> = Vec::new();
        let mut i: usize = 1;
        assert(value@ + Seq::<char>::empty() =~= Seq::<char>::empty());
        assert(prepend(value@, unquote(s@, quote, 1)) =~= unquote(s@, quote, 1)) by {
            match unquote(s@, quote, 1) {
                Some(v) => {
                    assert(value@ + v =~= v);
                },
                None => {},
            }
        }
        while i < s.len()
            invariant
                1 <= i <= s.len(),
                s@ == raw@,
                quote == s@[0],
                quote == '"' || quote == '\'',
                unquote(s@, quote, 1) == prepend(value@, unquote(s@, quote, i as int)),
            decreases s.len() - i,
        {
            let c = s[i];
            if c == quote {
                assert(unquote(s@, quote, i as int) == Some(Seq::<char>::empty()));
                assert(value@ + Seq::<char>::empty() =~= value@);
                assert(unquote(s@, quote, 1) == Some(value@));
                assert(raw@[0] == quote);
                assert(dotenv_value_spec(raw@) == value@);
                return string_from_chars(value);
            }
            if c == '\\' && i + 1 < s.len() && escapes(quote, s[i + 1]) {
                let ghost before = value@;
                value.push(unescape(s[i + 1]));
                proof {
                    match unquote(s@, quote, i + 2) {
                        Some(v) => {
                            assert(before + (seq![unescaped(s@[i + 1])] + v) =~= value@ + v);
                        },
                        None => {},
                    }
                }
                i += 2;
            } else {
                let ghost before = value@;
                value.push(c);
                proof {
                    match unquote(s@, quote, i + 1) {
                        Some(v) => {
                            assert(before + (seq![c] + v) =~= value@ + v);
                        },
                        None => {},
                    }
                }
                i += 1;
            }
        }
        to_string(raw)
    } else {
        let without_comment = regex_replace_first(INLINE_COMMENT_PATTERN, raw, "");
        let stripped = chars_of(without_comment.as_str());
        let end = trim_end_index(&stripped, 0, false);
        assert(stripped@.subrange(0, stripped.len() as int) =~= stripped@);
        let mut r: Vec<char> = Vec::new();
        let mut i: usize = 0;
        while i < end
            invariant
                i <= end <= stripped.len(),
                r@ == stripped@.take(i as int),
            decreases end - i,
        {
            r.push(stripped[i]);
            i += 1;
            assert(r@ =~= stripped@.take(i as int));
        }
        assert(stripped@.take(end as int) =~= stripped@.subrange(0, end as int));
        string_from_chars(r)
    }
}

/// The line without a leading `export` keyword.
pub open spec fn export_stripped(t: Seq<char>) -> Seq<char> {
    if t.len() > 6 && t.take(6) == seq!['e', 'x', 'p', 'o', 'r', 't'] && (t[6] == ' ' || t[6]
        == '\t') {
        trim_start_spec(t.skip(6), false)
    } else {
        t
    }
}

/// The key and value that a `.env` line sets, if any.
pub open spec fn dotenv_entry(line: Seq<char>) -> Option<(Seq<char>, Seq<char>)> {
    let t = trim_spec(line, false);
    if t.len() == 0 || t[0] == '#' {
        None
    } else {
        let u = export_stripped(t);
        if u.contains('=') {
            let e = first_index(u, '=');
            let key = trim_spec(u.take(e), false);
            if key.len() == 0 {
                None
            } else {
                Some((key, dotenv_value_spec(trim_start_spec(u.skip(e + 1), false))))
            }
        } else {
            None
        }
    }
}

/// The settings of the lines, a later line overriding an earlier one.
pub open spec fn dotenv_fold(lines: Seq<Seq<char>>) -> Map<Seq<char>, Seq<char>>
    decreases lines.len(),
{
    if lines.len() == 0 {
        Map::empty()
    } else {
        let before = dotenv_fold(lines.drop_last());
        match dotenv_entry(lines.last()) {
            Some((k, v)) => before.insert(k, v),
            None => before,
        }
    }
}

/// A later line overrides an earlier one: where line `i` of `lines` sets `k`
/// to `v` and no later line sets `k`, the settings hold `v` under `k`.
pub proof fn lemma_dotenv_last_assignment(
    lines: Seq<Seq<char>>,
    i: int,
    k: Seq<char>,
    v: Seq<char>,
)
    requires
        0 <= i < lines.len(),
        dotenv_entry(lines[i]) == Some((k, v)),
        forall|j: int|
            i < j < lines.len() ==> !(#[trigger] dotenv_entry(lines[j]) matches Some((k2, _))
                && k2 == k),
    ensures
        dotenv_fold(lines).contains_key(k),
        dotenv_fold(lines)[k] == v,
    decreases lines.len(),
{
    if i < lines.len() - 1 {
        let last = lines.len() - 1;
        assert(lines.drop_last()[i] == lines[i]);
        assert forall|j: int| i < j < lines.drop_last().len() implies !(#[trigger] dotenv_entry(
            lines.drop_last()[j],
        ) matches Some((k2, _)) && k2 == k) by {
            assert(lines.drop_last()[j] == lines[j]);
        }
        lemma_dotenv_last_assignment(lines.drop_last(), i, k, v);
        assert(lines.last() == lines[last]);
    }
}

/// The settings of a `.env` file take each key from the last line that sets
/// it: where line `i` of the file sets `k` to `v` and no later line sets `k`,
/// the settings map `k` to `v`.
pub proof fn law_dotenv_last_line_wins(content: Seq<char>, i: int, k: Seq<char>, v: Seq<char>)
    requires
        0 <= i < pieces(content, '\n').len(),
        dotenv_entry(pieces(content, '\n')[i]) == Some((k, v)),
        forall|j: int|
            i < j < pieces(content, '\n').len() ==> !(#[trigger] dotenv_entry(
                pieces(content, '\n')[j],
            ) matches Some((k2, _)) && k2 == k),
    ensures
        dotenv_spec(content).contains_key(k),
        dotenv_spec(content)[k] == v,
{
    lemma_dotenv_last_assignment(pieces(content, '\n'), i, k, v);
}

/// A key that no line of `lines` sets is not among its settings.
pub proof fn law_dotenv_unset_key(lines: Seq<Seq<char>>, k: Seq<char>)
    requires
        forall|j: int|
            0 <= j < lines.len() ==> !(#[trigger] dotenv_entry(lines[j]) matches Some((k2, _))
                && k2 == k),
    ensures
        !dotenv_fold(lines).contains_key(k),
    decreases lines.len(),
{
    if lines.len() > 0 {
        assert forall|j: int| 0 <= j < lines.drop_last().len() implies !(#[trigger] dotenv_entry(
            lines.drop_last()[j],
        ) matches Some((k2, _)) && k2 == k) by {
            assert(lines.drop_last()[j] == lines[j]);
        }
        law_dotenv_unset_key(lines.drop_last(), k);
        assert(lines.last() == lines[lines.len() - 1]);
    }
}

/// The settings of a `.env` file.
pub open spec fn dotenv_spec(content: Seq<char>) -> Map<Seq<char>, Seq<char>> {
    dotenv_fold(pieces(content, '\n'))
}

/// The key and value that a `.env` line sets, if any.
fn dotenv_line(line: &Vec<char>) -> (r: Option<(String, String)>)
    ensures
        match r {
            Some((k, v)) => dotenv_entry(line@) == Some((k@, v@)),
            None => dotenv_entry(line@) is None,
        },
{
    let (a, b) = crate::text::trim_bounds(line, false);
    if a == b || line[a] == '#' {
        return None;
    }
    let t = sub_chars(line, a, b);
    let u = if t.len() > 6 && t[0] == 'e' && t[1] == 'x' && t[2] == 'p' && t[3] == 'o' && t[4]
        == 'r' && t[5] == 't' && (t[6] == ' ' || t[6] == '\t') {
        assert(t@.take(6) =~= seq!['e', 'x', 'p', 'o', 'r', 't']);
        let rest = sub_chars(&t, 6, t.len());
        assert(rest@ =~= t@.skip(6));
        let start = trim_start_index(&rest, false);
        sub_chars(&rest, start, rest.len())
    } else {
        proof {
            if t.len() > 6 && (t@[6] == ' ' || t@[6] == '\t') {
                if t@.take(6) == seq!['e', 'x', 'p', 'o', 'r', 't'] {
                    assert(t@.take(6)[0] == t@[0]);
                    assert(t@.take(6)[1] == t@[1]);
                    assert(t@.take(6)[2] == t@[2]);
                    assert(t@.take(6)[3] == t@[3]);
                    assert(t@.take(6)[4] == t@[4]);
                    assert(t@.take(6)[5] == t@[5]);
                }
            }
        }
        t
    };
    assert(u@ == export_stripped(trim_spec(line@, false)));
    match find_char(&u, '=') {
        None => None,
        Some(e) => {
            let head = sub_chars(&u, 0, e);
            assert(head@ =~= u@.take(e as int));
            let (ka, kb) = crate::text::trim_bounds(&head, false);
            if ka == kb {
                return None;
            }
            let key = sub_chars(&head, ka, kb);
            let rest = sub_chars(&u, e + 1, u.len());
            assert(rest@ =~= u@.skip(e + 1));
            let start = trim_start_index(&rest, false);
            let raw_value = sub_chars(&rest, start, rest.len());
            let value = parse_dotenv_value(&string_from_chars(raw_value));
            Some((string_from_chars(key), value))
        },
    }
}

/// Parse `.env` like python-dotenv, so existing files keep working: unquoted values may contain spaces and ` #` starts a
/// comment; quoted values keep `#` and support backslash escapes.
pub fn parse_dotenv(content: &str) -> (r: StrMap)
    ensures
        r@ == dotenv_spec(content@),
{
    let s = chars_of(content);
    let lines = split_chars(&s, '\n');
    let ghost lv = char_views(lines@);
    let mut values = StrMap::new();
    let mut i: usize = 0;
    assert(lv.take(0) =~= Seq::<Seq<char>>::empty());
    while i < lines.len()
        invariant
            i <= lines.len(),
            lv == char_views(lines@),
            values@ == dotenv_fold(lv.take(i as int)),
        decreases lines.len() - i,
    {
        assert(lv.take(i + 1).drop_last() =~= lv.take(i as int));
        assert(lv.take(i + 1).last() == lines@[i as int]@);
        match dotenv_line(&lines[i]) {
            Some((k, v)) => {
                values.insert(k, v);
            },
            None => {},
        }
        i += 1;
    }
    assert(lv.take(lines.len() as int) =~= lv);
    values
}

/// The settings that must be given.
pub open spec fn required_names() -> Seq<Seq<char>> {
    seq!["DUALIS_USER"@, "DUALIS_PASSWD"@, "GOTIFY_URL"@, "GOTIFY_TOKEN"@]
}

/// A setting counts as given when its value is not blank.
pub open spec fn setting(env: Map<Seq<char>, Seq<char>>, key: Seq<char>) -> Option<Seq<char>> {
    if env.contains_key(key) && trim_spec(env[key], false).len() > 0 {
        Some(env[key])
    } else {
        None
    }
}

/// The required settings that are not given, in order.
pub open spec fn missing_names(env: Map<Seq<char>, Seq<char>>) -> Seq<Seq<char>> {
    some_values(
        required_names().map_values(
            |k: Seq<char>|
                if setting(env, k) is None {
                    Some(k)
                } else {
                    None
                },
        ),
    )
}

/// `[+]?[0-9]+`, the texts that `str::parse` reads as an unsigned number.
pub open spec fn unsigned_text(s: Seq<char>) -> bool {
    let b: int = if s.len() > 0 && s[0] == '+' {
        1
    } else {
        0
    };
    s.len() > b && all_digits(s.skip(b))
}

/// The number that an unsigned text denotes.
pub open spec fn unsigned_value(s: Seq<char>) -> nat {
    if s.len() > 0 && s[0] == '+' {
        digits_value(s.skip(1))
    } else {
        digits_value(s)
    }
}

/// The notification priority: 5 unless given, else a number from 0 to 10.
pub open spec fn priority_spec(env: Map<Seq<char>, Seq<char>>) -> Option<u8> {
    match setting(env, "GOTIFY_PRIORITY"@) {
        None => Some(5),
        Some(v) => {
            let t = trim_spec(v, false);
            if unsigned_text(t) && unsigned_value(t) <= 10 {
                Some(unsigned_value(t) as u8)
            } else {
                None
            }
        },
    }
}

/// The check interval in minutes, if given: a positive number.
pub open spec fn interval_spec(env: Map<Seq<char>, Seq<char>>) -> Option<Option<nat>> {
    match setting(env, "CHECK_INTERVAL_MINUTES"@) {
        None => Some(None),
        Some(v) => {
            let t = trim_spec(v, false);
            if unsigned_text(t) && 0 < unsigned_value(t) <= u64::MAX {
                Some(Some(unsigned_value(t)))
            } else {
                None
            }
        },
    }
}

/// What a configuration says.
pub struct ConfigView {
    pub user: Seq<char>,
    pub passwd: Seq<char>,
    pub semester_id: Seq<char>,
    pub user_agent: Seq<char>,
    pub gotify_url: Seq<char>,
    pub gotify_token: Seq<char>,
    pub gotify_priority: u8,
    pub check_interval: Option<nat>,
    pub data_dir: Seq<char>,
    pub dualis_base_url: Seq<char>,
}

/// What a configuration error says.
pub enum ConfigErrorView {
    Missing(Seq<Seq<char>>, bool),
    InvalidPriority(Seq<char>),
    InvalidInterval(Seq<char>),
}

/// The configuration that the settings `env` describe, or why they describe none.
pub open spec fn config_spec(env: Map<Seq<char>, Seq<char>>) -> Result<ConfigView, ConfigErrorView> {
    if missing_names(env).len() > 0 {
        Err(
            ConfigErrorView::Missing(
                missing_names(env),
                setting(env, "DISCORD_WEBHOOK"@) is Some,
            ),
        )
    } else if priority_spec(env) is None {
        Err(ConfigErrorView::InvalidPriority(setting(env, "GOTIFY_PRIORITY"@)->0))
    } else if interval_spec(env) is None {
        Err(ConfigErrorView::InvalidInterval(setting(env, "CHECK_INTERVAL_MINUTES"@)->0))
    } else {
        Ok(
            ConfigView {
                user: trim_spec(setting(env, "DUALIS_USER"@)->0, false),
                passwd: setting(env, "DUALIS_PASSWD"@)->0,
                semester_id: match setting(env, "SEMESTER_ID"@) {
                    Some(v) => trim_spec(v, false),
                    None => Seq::empty(),
                },
                user_agent: match setting(env, "AGENT_NAME"@) {
                    Some(v) => v,
                    None => "Dualis Notifier"@,
                },
                gotify_url: trim_spec(setting(env, "GOTIFY_URL"@)->0, false),
                gotify_token: trim_spec(setting(env, "GOTIFY_TOKEN"@)->0, false),
                gotify_priority: priority_spec(env)->0,
                check_interval: match interval_spec(env)->0 {
                    Some(m) => Some(m * 60),
                    None => None,
                },
                data_dir: match setting(env, "DATA_DIR"@) {
                    Some(v) => v,
                    None => "."@,
                },
                dualis_base_url: DEFAULT_DUALIS_URL@,
            },
        )
    }
}

/// The settings of the notifier.
#[derive(Debug, Clone, PartialEq, Eq)]
pub struct Config {
    pub user: String,
    pub passwd: String,
    /// Empty to fetch every result Dualis shows without a semester filter.
    pub semester_id: String,
    pub user_agent: String,
    pub gotify_url: String,
    pub gotify_token: String,
    pub gotify_priority: u8,
    /// Seconds between checks; `None` runs a single check, e.g. from cron.
    pub check_interval: Option<u64>,
    /// Where `grades.csv` and `grades.html` are kept.
    pub data_dir: String,
    /// Only changed by tests, which point it at a mock server.
    pub dualis_base_url: String,
}

impl View for Config {
    type V = ConfigView;

    open spec fn view(&self) -> ConfigView {
        ConfigView {
            user: self.user@,
            passwd: self.passwd@,
            semester_id: self.semester_id@,
            user_agent: self.user_agent@,
            gotify_url: self.gotify_url@,
            gotify_token: self.gotify_token@,
            gotify_priority: self.gotify_priority,
            check_interval: match self.check_interval {
                Some(s) => Some(s as nat),
                None => None,
            },
            data_dir: self.data_dir@,
            dualis_base_url: self.dualis_base_url@,
        }
    }
}

/// Why the settings describe no configuration.
#[derive(Debug, Clone, PartialEq, Eq)]
pub enum ConfigError {
    /// Required settings are missing; `discord` tells whether the retired
    /// Discord webhook is still configured.
    Missing { names: Vec<String>, discord: bool },
    InvalidPriority(String),
    InvalidInterval(String),
}

impl View for ConfigError {
    type V = ConfigErrorView;

    open spec fn view(&self) -> ConfigErrorView {
        match self {
            ConfigError::Missing { names, discord } => ConfigErrorView::Missing(
                texts(names@),
                *discord,
            ),
            ConfigError::InvalidPriority(v) => ConfigErrorView::InvalidPriority(v@),
            ConfigError::InvalidInterval(v) => ConfigErrorView::InvalidInterval(v@),
        }
    }
}

/// The given value of a setting, if it is not blank.
fn get_setting(lookup: &StrMap, key: &str) -> (r: Option<String>)
    ensures
        match r {
            Some(v) => setting(lookup@, key@) == Some(v@),
            None => setting(lookup@, key@) is None,
        },
{
    match lookup.get(key) {
        Some(v) => {
            if trim_text(v.as_str()).is_empty() {
                None
            } else {
                Some(v.clone())
            }
        },
        None => None,
    }
}

/// The number that `text`, trimmed, denotes if it is unsigned and at most `limit`.
pub(crate) fn parse_unsigned(text: &str, limit: u64) -> (r: Option<u64>)
    ensures
        match r {
            Some(n) => unsigned_text(trim_spec(text@, false)) && n == unsigned_value(
                trim_spec(text@, false),
            ) && n <= limit,
            None => !(unsigned_text(trim_spec(text@, false)) && unsigned_value(
                trim_spec(text@, false),
            ) <= limit),
        },
{
    let t = chars_of(trim_text(text));
    let ghost ts = t@;
    let b: usize = if t.len() > 0 && t[0] == '+' {
        1
    } else {
        0
    };
    if t.len() <= b {
        return None;
    }
    let ghost digits = ts.skip(b as int);
    assert(ts.skip(0) =~= ts);
    let mut acc: u128 = 0;
    let mut i = b;
    while i < t.len()
        invariant
            b <= i <= t.len(),
            ts == t@,
            ts == trim_spec(text@, false),
            digits == ts.skip(b as int),
            b == (if ts.len() > 0 && ts[0] == '+' {
                1int
            } else {
                0int
            }),
            acc <= limit ==> acc == digits_value(digits.take(i - b)) && all_digits(
                digits.take(i - b),
            ),
            acc > limit ==> !(all_digits(digits) && digits_value(digits) <= limit),
            acc <= 10 * (limit as int) + 9,
        decreases t.len() - i,
    {
        let c = t[i];
        proof {
            assert(digits[i - b] == c);
            assert(digits.take(i - b + 1).drop_last() =~= digits.take(i - b));
            assert(digits.take(i - b + 1).last() == c);
        }
        if !crate::compare::is_digit_char(c) {
            proof {
                assert(!is_digit(digits[i - b]));
            }
            return None;
        }
        if acc <= limit as u128 {
            let d = (c as u32 - 48) as u128;
            acc = acc * 10 + d;
            proof {
                assert(all_digits(digits.take(i - b + 1))) by {
                    assert forall|x: int| 0 <= x < i - b + 1 implies is_digit(
                        #[trigger] digits.take(i - b + 1)[x],
                    ) by {
                        if x < i - b {
                            assert(digits.take(i - b + 1)[x] == digits.take(i - b)[x]);
                        }
                    }
                }
                if acc > limit {
                    crate::compare::lemma_digits_value_prefix(digits, i - b + 1);
                }
            }
        }
        i += 1;
    }
    assert(digits.take(t.len() - b) =~= digits);
    if acc <= limit as u128 {
        Some(acc as u64)
    } else {
        None
    }
}

/// The names in order, with `sep` between each two.
pub open spec fn joined(names: Seq<Seq<char>>, sep: Seq<char>) -> Seq<char>
    decreases names.len(),
{
    if names.len() == 0 {
        Seq::empty()
    } else if names.len() == 1 {
        names[0]
    } else {
        joined(names.drop_last(), sep) + sep + names.last()
    }
}

/// What `{value:?}` writes for a text: std's `Debug` for `str`.
pub uninterp spec fn debug_quoted(s: Seq<char>) -> Seq<char>;

/// The text quoted and escaped as std's `Debug` for `str` writes it (`format!("{s:?}")`).
/// Claimed: the result is `debug_quoted` of the text, a function of the text alone.
#[verifier::external_body]
fn debug_quoted_text(s: &str) -> (r: String)
    ensures
        r@ == debug_quoted(s@),
{
    format!("{s:?}")
}

/// The message that a configuration error is reported with.
pub open spec fn error_message(e: ConfigErrorView) -> Seq<char> {
    match e {
        ConfigErrorView::Missing(names, discord) => {
            let base = "Fehlende Konfiguration: "@ + joined(names, ", "@)
                + ". Trage die Werte in .env ein (siehe .env.example)."@;
            if discord {
                base
                    + " DISCORD_WEBHOOK wird nicht mehr unterstützt – Benachrichtigungen laufen jetzt über Gotify (GOTIFY_URL und GOTIFY_TOKEN)."@
            } else {
                base
            }
        },
        ConfigErrorView::InvalidPriority(v) => "GOTIFY_PRIORITY muss eine Zahl von 0 bis 10 sein, nicht "@
            + debug_quoted(v),
        ConfigErrorView::InvalidInterval(v) => "CHECK_INTERVAL_MINUTES muss eine positive ganze Zahl sein, nicht "@
            + debug_quoted(v),
    }
}

/// The names joined with `", "`.
fn join_names(names: &Vec<String>) -> (r: String)
    ensures
        r@ == joined(texts(names@), ", "@),
{
    let mut out = String::new();
    let mut i: usize = 0;
    while i < names.len()
        invariant
            i <= names.len(),
            out@ == joined(texts(names@).take(i as int), ", "@),
        decreases names.len() - i,
    {
        let ghost t = texts(names@);
        assert(t.take(i + 1).drop_last() =~= t.take(i as int));
        if i > 0 {
            out.append(", ");
        }
        out.append(names[i].as_str());
        proof {
            if i == 0 {
                assert(t.take(1) =~= seq![names@[0]@]);
            }
        }
        i += 1;
    }
    assert(texts(names@).take(names.len() as int) =~= texts(names@));
    out
}

impl ConfigError {
    /// The message shown to the user.
    pub fn message(&self) -> (r: String)
        ensures
            r@ == error_message(self@),
    {
        match self {
            ConfigError::Missing { names, discord } => {
                let mut m = to_string("Fehlende Konfiguration: ");
                let list = join_names(names);
                m.append(list.as_str());
                m.append(". Trage die Werte in .env ein (siehe .env.example).");
                if *discord {
                    m.append(
                        " DISCORD_WEBHOOK wird nicht mehr unterstützt – Benachrichtigungen laufen jetzt über Gotify (GOTIFY_URL und GOTIFY_TOKEN).",
                    );
                }
                m
            },
            ConfigError::InvalidPriority(v) => {
                let mut m = to_string("GOTIFY_PRIORITY muss eine Zahl von 0 bis 10 sein, nicht ");
                let q = debug_quoted_text(v.as_str());
                m.append(q.as_str());
                m
            },
            ConfigError::InvalidInterval(v) => {
                let mut m = to_string(
                    "CHECK_INTERVAL_MINUTES muss eine positive ganze Zahl sein, nicht ",
                );
                let q = debug_quoted_text(v.as_str());
                m.append(q.as_str());
                m
            },
        }
    }
}

/// Whether reading `env` reaches the interval and finds one too long to count in seconds.
pub open spec fn interval_overflows(env: Map<Seq<char>, Seq<char>>) -> bool {
    &&& missing_names(env).len() == 0
    &&& priority_spec(env) is Some
    &&& interval_spec(env) matches Some(Some(m)) && m * 60 > u64::MAX
}

/// Whether reading `lookup` reaches the interval and finds one too long to
/// count in seconds: the one input that `Config::from_lookup` does not take.
pub fn interval_overflow(lookup: &StrMap) -> (r: bool)
    ensures
        r == interval_overflows(lookup@),
{
    let ghost env = lookup@;
    let ghost flags = required_names().map_values(
        |k: Seq<char>|
            if setting(env, k) is None {
                Some(k)
            } else {
                None
            },
    );
    let user = get_setting(lookup, "DUALIS_USER");
    let passwd = get_setting(lookup, "DUALIS_PASSWD");
    let url = get_setting(lookup, "GOTIFY_URL");
    let token = get_setting(lookup, "GOTIFY_TOKEN");
    assert(flags[0] is None <==> user is Some);
    assert(flags[1] is None <==> passwd is Some);
    assert(flags[2] is None <==> url is Some);
    assert(flags[3] is None <==> token is Some);
    if user.is_none() || passwd.is_none() || url.is_none() || token.is_none() {
        proof {
            let i: int = if user.is_none() {
                0
            } else if passwd.is_none() {
                1
            } else if url.is_none() {
                2
            } else {
                3
            };
            lemma_some_values_contains(flags, i);
        }
        return false;
    }
    proof {
        lemma_some_values_none(flags);
    }
    match get_setting(lookup, "GOTIFY_PRIORITY") {
        None => {},
        Some(v) => {
            if parse_unsigned(v.as_str(), 10).is_none() {
                return false;
            }
        },
    }
    match get_setting(lookup, "CHECK_INTERVAL_MINUTES") {
        None => false,
        Some(v) => match parse_unsigned(v.as_str(), u64::MAX) {
            Some(n) => n > 307445734561825860,
            None => false,
        },
    }
}

/// The decimal text of a number is a run of digits that reads back as the number.
pub proof fn lemma_decimal_reads_back(n: nat)
    ensures
        decimal(n).len() > 0,
        all_digits(decimal(n)),
        digits_value(decimal(n)) == n,
    decreases n,
{
    if n < 10 {
        assert(decimal(n) == seq![digit_char(n)]);
        assert(decimal(n).drop_last() =~= Seq::<char>::empty());
        assert(digit_value(digit_char(n)) == n);
        assert(digits_value(Seq::<char>::empty()) == 0);
        assert(digits_value(decimal(n)) == 10 * digits_value(decimal(n).drop_last()) + digit_value(
            decimal(n).last(),
        ));
    } else {
        lemma_decimal_reads_back(n / 10);
        let d = decimal(n);
        assert(d.drop_last() == decimal(n / 10));
        assert(d.last() == digit_char(n % 10));
        assert(digit_value(digit_char(n % 10)) == n % 10);
        assert(n == 10 * (n / 10) + n % 10);
        assert(digits_value(d) == 10 * digits_value(d.drop_last()) + digit_value(d.last()));
        assert forall|i: int| 0 <= i < d.len() implies is_digit(#[trigger] d[i]) by {
            if i < d.len() - 1 {
                assert(d[i] == decimal(n / 10)[i]);
            }
        }
    }
}

/// Every priority from 0 to 10 is accepted and no other number is: with
/// `GOTIFY_PRIORITY` set to the decimal text of `n`, the priority is `n` where
/// `n` is at most 10 and invalid otherwise; a configuration whose other
/// settings are valid is then read with priority `n`.
pub proof fn law_priority_range(env: Map<Seq<char>, Seq<char>>, n: nat)
    requires
        env.contains_key("GOTIFY_PRIORITY"@),
        env["GOTIFY_PRIORITY"@] == decimal(n),
    ensures
        priority_spec(env) == if n <= 10 {
            Some(n as u8)
        } else {
            None
        },
        n <= 10 && missing_names(env).len() == 0 && interval_spec(env) is Some ==> (config_spec(
            env,
        ) matches Ok(c) && c.gotify_priority == n),
{
    let d = decimal(n);
    lemma_decimal_reads_back(n);
    assert(!white_space(d[0]) && !white_space(d.last())) by {
        assert(is_digit(d[0]));
        assert(is_digit(d[d.len() - 1]));
    }
    assert(trim_start_spec(d, false) == d);
    assert(trim_spec(d, false) == d);
    assert(d[0] != '+') by {
        assert(is_digit(d[0]));
    }
    assert(d.skip(0) =~= d);
    assert(unsigned_text(d));
    assert(unsigned_value(d) == n);
}

/// Every positive number of minutes is accepted as the check interval and zero
/// is not: with `CHECK_INTERVAL_MINUTES` set to the decimal text of `n`, the
/// interval is `n` minutes where `n` is positive and fits in a `u64`, invalid
/// otherwise; a configuration whose other settings are valid then checks every
/// `60 * n` seconds.
pub proof fn law_interval_minutes(env: Map<Seq<char>, Seq<char>>, n: nat)
    requires
        env.contains_key("CHECK_INTERVAL_MINUTES"@),
        env["CHECK_INTERVAL_MINUTES"@] == decimal(n),
    ensures
        interval_spec(env) == if 0 < n <= u64::MAX {
            Some(Some(n))
        } else {
            None
        },
        0 < n <= u64::MAX && missing_names(env).len() == 0 && priority_spec(env) is Some ==> (
        config_spec(env) matches Ok(c) && c.check_interval == Some(60 * n)),
{
    let d = decimal(n);
    lemma_decimal_reads_back(n);
    assert(!white_space(d[0]) && !white_space(d.last())) by {
        assert(is_digit(d[0]));
        assert(is_digit(d[d.len() - 1]));
    }
    assert(trim_start_spec(d, false) == d);
    assert(trim_spec(d, false) == d);
    assert(d[0] != '+') by {
        assert(is_digit(d[0]));
    }
    assert(d.skip(0) =~= d);
    assert(unsigned_text(d));
    assert(unsigned_value(d) == n);
}

/// `texts` of a vector after a push.
proof fn lemma_texts_push(v: Seq<String>, s: String)
    ensures
        texts(v.push(s)) == texts(v).push(s@),
{
    assert(texts(v.push(s)) =~= texts(v).push(s@));
}

impl Config {
    /// Read the configuration from `lookup`, the settings by name; a blank
    /// setting counts as not given.
    pub fn from_lookup(lookup: &StrMap) -> (r: Result<Config, ConfigError>)
        requires
            !interval_overflows(lookup@),
        ensures
            match config_spec(lookup@) {
                Ok(v) => r matches Ok(c) && c@ == v,
                Err(v) => r matches Err(e) && e@ == v,
            },
    {
        let ghost env = lookup@;
        let ghost flags = required_names().map_values(
            |k: Seq<char>|
                if setting(env, k) is None {
                    Some(k)
                } else {
                    None
                },
        );
        let user = get_setting(lookup, "DUALIS_USER");
        let passwd = get_setting(lookup, "DUALIS_PASSWD");
        let url = get_setting(lookup, "GOTIFY_URL");
        let token = get_setting(lookup, "GOTIFY_TOKEN");
        let mut missing: Vec<String> = Vec::new();
        assert(flags.take(0) =~= Seq::<Option<Seq<char>>>::empty());
        if user.is_none() {
            let ghost before = missing@;
            missing.push(to_string("DUALIS_USER"));
            proof {
                lemma_texts_push(before, missing@.last());
            }
        }
        proof {
            lemma_some_values_step(flags, 0);
        }
        assert(texts(missing@) == some_values(flags.take(1)));
        if passwd.is_none() {
            let ghost before = missing@;
            missing.push(to_string("DUALIS_PASSWD"));
            proof {
                lemma_texts_push(before, missing@.last());
            }
        }
        proof {
            lemma_some_values_step(flags, 1);
        }
        assert(texts(missing@) == some_values(flags.take(2)));
        if url.is_none() {
            let ghost before = missing@;
            missing.push(to_string("GOTIFY_URL"));
            proof {
                lemma_texts_push(before, missing@.last());
            }
        }
        proof {
            lemma_some_values_step(flags, 2);
        }
        assert(texts(missing@) == some_values(flags.take(3)));
        if token.is_none() {
            let ghost before = missing@;
            missing.push(to_string("GOTIFY_TOKEN"));
            proof {
                lemma_texts_push(before, missing@.last());
            }
        }
        proof {
            lemma_some_values_step(flags, 3);
            assert(flags.take(4) =~= flags);
        }
        assert(texts(missing@) == missing_names(env));
        if missing.len() > 0 {
            let discord = get_setting(lookup, "DISCORD_WEBHOOK").is_some();
            return Err(ConfigError::Missing { names: missing, discord });
        }
        let gotify_priority: u8 = match get_setting(lookup, "GOTIFY_PRIORITY") {
            None => 5,
            Some(v) => match parse_unsigned(v.as_str(), 10) {
                Some(n) => n as u8,
                None => {
                    return Err(ConfigError::InvalidPriority(v));
                },
            },
        };
        let check_interval: Option<u64> = match get_setting(lookup, "CHECK_INTERVAL_MINUTES") {
            None => None,
            Some(v) => match parse_unsigned(v.as_str(), u64::MAX) {
                Some(n) => {
                    if n == 0 {
                        return Err(ConfigError::InvalidInterval(v));
                    }
                    Some(n * 60)
                },
                None => {
                    return Err(ConfigError::InvalidInterval(v));
                },
            },
        };
        let user = match user {
            Some(v) => to_string(trim_text(v.as_str())),
            None => String::new(),
        };
        let passwd = match passwd {
            Some(v) => v,
            None => String::new(),
        };
        let gotify_url = match url {
            Some(v) => to_string(trim_text(v.as_str())),
            None => String::new(),
        };
        let gotify_token = match token {
            Some(v) => to_string(trim_text(v.as_str())),
            None => String::new(),
        };
        let semester_id = match get_setting(lookup, "SEMESTER_ID") {
            Some(v) => to_string(trim_text(v.as_str())),
            None => String::new(),
        };
        let user_agent = match get_setting(lookup, "AGENT_NAME") {
            Some(v) => v,
            None => to_string("Dualis Notifier"),
        };
        let data_dir = match get_setting(lookup, "DATA_DIR") {
            Some(v) => v,
            None => to_string("."),
        };
        Ok(
            Config {
                user,
                passwd,
                semester_id,
                user_agent,
                gotify_url,
                gotify_token,
                gotify_priority,
                check_interval,
                data_dir,
                dualis_base_url: to_string(DEFAULT_DUALIS_URL),
            },
        )
    }
}

/// The settings with the environment's values over those of `.env`.
pub open spec fn settings_spec(
    dotenv: Map<Seq<char>, Seq<char>>,
    env: Seq<(Seq<char>, Seq<char>)>,
) -> Map<Seq<char>, Seq<char>>
    decreases env.len(),
{
    if env.len() == 0 {
        dotenv
    } else {
        settings_spec(dotenv, env.drop_last()).insert(env.last().0, env.last().1)
    }
}

/// The settings to read: those of `.env`, where the environment sets a
/// variable (`env`, name and value) its value instead, as variables that are
/// already set take precedence over `.env`.
pub fn settings_lookup(dotenv: StrMap, env: &Vec<(String, String)>) -> (r: StrMap)
    ensures
        r@ == settings_spec(dotenv@, env@.map_values(|p: (String, String)| (p.0@, p.1@))),
        forall|i: int| 0 <= i < env.len() ==> r@.contains_key(#[trigger] env@[i].0@),
{
    let ghost pairs = env@.map_values(|p: (String, String)| (p.0@, p.1@));
    let mut r = dotenv;
    let mut i: usize = 0;
    assert(pairs.take(0) =~= Seq::<(Seq<char>, Seq<char>)>::empty());
    while i < env.len()
        invariant
            i <= env.len(),
            pairs == env@.map_values(|p: (String, String)| (p.0@, p.1@)),
            r@ == settings_spec(dotenv@, pairs.take(i as int)),
            forall|j: int| 0 <= j < i ==> r@.contains_key(#[trigger] env@[j].0@),
        decreases env.len() - i,
    {
        assert(pairs.take(i + 1).drop_last() =~= pairs.take(i as int));
        assert(pairs.take(i + 1).last() == (env@[i as int].0@, env@[i as int].1@));
        r.insert(env[i].0.clone(), env[i].1.clone());
        i += 1;
    }
    assert(pairs.take(i as int) =~= pairs);
    r
}

/// A variable that the environment sets wins over `.env`: where the
/// environment sets a name once, the settings hold its value.
pub proof fn law_environment_wins(
    dotenv: Map<Seq<char>, Seq<char>>,
    env: Seq<(Seq<char>, Seq<char>)>,
    i: int,
)
    requires
        0 <= i < env.len(),
        forall|j: int| 0 <= j < env.len() && j != i ==> #[trigger] env[j].0 != env[i].0,
    ensures
        settings_spec(dotenv, env).contains_key(env[i].0),
        settings_spec(dotenv, env)[env[i].0] == env[i].1,
    decreases env.len(),
{
    if i < env.len() - 1 {
        assert(env.last().0 != env[i].0);
        law_environment_wins(dotenv, env.drop_last(), i);
    }
}

} // verus!
