//! The form in which two grade values are compared.
//!
//! Cached values went through pandas' type inference: `,` was read as a
//! thousands separator (`1,7` became `17`), numbers were re-formatted (`5.0`
//! became `5`) and NA markers became empty. Comparing through the same rules
//! keeps such caches valid. The patterns below are those pandas applied.

use vstd::prelude::*;

use crate::matching::{regex_is_match, regex_matches};
use crate::text::{
    chars_of, decimal, decimal_chars, find_char, normalise_spec, normalise_value, same_text,
    string_from_chars, to_string, trailing_stripped,
};

verus! {

pub open spec fn is_digit(c: char) -> bool {
    48 <= c as u32 <= 57
}

pub open spec fn digit_value(c: char) -> nat {
    (c as u32 - 48) as nat
}

pub open spec fn all_digits(s: Seq<char>) -> bool {
    forall|i: int| 0 <= i < s.len() ==> is_digit(#[trigger] s[i])
}

/// Length of a leading `+` or `-`.
pub open spec fn sign_len(s: Seq<char>) -> int {
    if s.len() > 0 && (s[0] == '+' || s[0] == '-') {
        1
    } else {
        0
    }
}

/// The texts that `str::parse::<i64>` reads as a number, where it fits: an
/// optional sign and at least one ASCII digit.
pub open spec fn integer_text(s: Seq<char>) -> bool {
    s.len() > sign_len(s) && all_digits(s.skip(sign_len(s)))
}

/// Numbers whose `,` pandas read as a thousands separator.
pub const THOUSANDS_PATTERN: &'static str =
    "^[\\-\\+]?([0-9]+,|[0-9])*(\\.[0-9]*)?([0-9]?(E|e)\\-?[0-9]+)?$";

/// Integers, which pandas read as `int64` where they fit.
pub const INTEGER_PATTERN: &'static str = "^[\\-\\+]?[0-9]+$";

/// Floating-point numbers, which pandas read as `float64`.
pub const FLOAT_PATTERN: &'static str =
    "^[\\-\\+]?([0-9]+\\.?[0-9]*|\\.[0-9]+)([eE][\\-\\+]?[0-9]+)?$";

/// The cell texts that pandas read as missing.
pub open spec fn na_text(v: Seq<char>) -> bool {
    ||| v == "#N/A"@
    ||| v == "#N/A N/A"@
    ||| v == "#NA"@
    ||| v == "-1.#IND"@
    ||| v == "-1.#QNAN"@
    ||| v == "-NaN"@
    ||| v == "-nan"@
    ||| v == "1.#IND"@
    ||| v == "1.#QNAN"@
    ||| v == "<NA>"@
    ||| v == "N/A"@
    ||| v == "NA"@
    ||| v == "NULL"@
    ||| v == "NaN"@
    ||| v == "None"@
    ||| v == "n/a"@
    ||| v == "nan"@
    ||| v == "null"@
}

/// The value of a sequence of decimal digits.
pub open spec fn digits_value(s: Seq<char>) -> nat
    decreases s.len(),
{
    if s.len() == 0 {
        0
    } else {
        10 * digits_value(s.drop_last()) + digit_value(s.last())
    }
}

/// The number that an integer text denotes.
pub open spec fn int_value(s: Seq<char>) -> int {
    let n = digits_value(s.skip(sign_len(s))) as int;
    if sign_len(s) == 1 && s[0] == '-' {
        -n
    } else {
        n
    }
}

/// Whether an integer text fits in an `i64`, as `str::parse::<i64>` requires.
pub open spec fn fits_i64(s: Seq<char>) -> bool {
    i64::MIN <= int_value(s) <= i64::MAX
}

/// How `i64::to_string` writes the number.
pub open spec fn canonical_int(s: Seq<char>) -> Seq<char> {
    if int_value(s) < 0 {
        seq!['-'] + decimal((-int_value(s)) as nat)
    } else {
        decimal(int_value(s) as nat)
    }
}

/// `v` without its commas when it has one and is a number with thousands
/// separators (`thousands`: whether it matches `THOUSANDS_PATTERN`).
pub open spec fn grouped_by(v: Seq<char>, thousands: bool) -> Seq<char> {
    if v.contains(',') && thousands {
        v.filter(|c: char| c != ',')
    } else {
        v
    }
}

/// `v` without its commas when pandas read them as thousands separators.
pub open spec fn grouped_text(v: Seq<char>) -> Seq<char> {
    grouped_by(v, regex_matches(THOUSANDS_PATTERN@, v))
}

/// The comparison form of the text `g` that pandas read: the integer that
/// `str::parse::<i64>` finds in it where it matches `INTEGER_PATTERN`
/// (`integer`), else `g` as a number where it matches `FLOAT_PATTERN`
/// (`float`), else `g` as a text.
pub open spec fn form_of(g: Seq<char>, integer: bool, float: bool) -> (bool, Seq<char>) {
    if integer && integer_text(g) && fits_i64(g) {
        (false, canonical_int(g))
    } else if float {
        (true, g)
    } else {
        (false, g)
    }
}

/// The comparison form of `raw`: `(true, t)` when it is the number written `t`,
/// which Python formats with `format(float(t), "g")`; `(false, t)` when it is the text `t`.
pub open spec fn key_form_spec(raw: Seq<char>) -> (bool, Seq<char>) {
    let v = normalise_spec(raw);
    if na_text(v) {
        (false, Seq::empty())
    } else {
        let g = grouped_text(v);
        form_of(g, regex_matches(INTEGER_PATTERN@, g), regex_matches(FLOAT_PATTERN@, g))
    }
}

/// The comparison form of a value: a text compared as it is, or a number whose
/// text still has to be formatted like Python's `format(float(text), "g")`.
#[derive(Debug, Clone, PartialEq, Eq)]
pub enum KeyForm {
    Text(String),
    Number(String),
}

pub(crate) fn is_digit_char(c: char) -> (r: bool)
    ensures
        r == is_digit(c),
{
    let n = c as u32;
    48 <= n && n <= 57
}

fn sign_length(s: &Vec<char>) -> (b: usize)
    ensures
        b == sign_len(s@),
{
    if s.len() > 0 && (s[0] == '+' || s[0] == '-') {
        1
    } else {
        0
    }
}

/// Whether `str::parse::<i64>` reads `s` as a number, overflow aside.
pub fn is_integer_text(s: &Vec<char>) -> (r: bool)
    ensures
        r == integer_text(s@),
{
    let b = sign_length(s);
    let ghost t = s@.skip(b as int);
    if b >= s.len() {
        return false;
    }
    let mut i = b;
    while i < s.len()
        invariant
            b <= i <= s.len(),
            b == sign_len(s@),
            t == s@.skip(b as int),
            forall|x: int| b <= x < i ==> is_digit(#[trigger] s@[x]),
        decreases s.len() - i,
    {
        if !is_digit_char(s[i]) {
            assert(t[i - b] == s@[i as int]);
            assert(!is_digit(t[i - b]));
            return false;
        }
        i += 1;
    }
    assert forall|x: int| 0 <= x < t.len() implies is_digit(#[trigger] t[x]) by {
        assert(t[x] == s@[b + x]);
    }
    true
}

/// The comparison form ignores the white space around a value, as pandas' reading did.
pub proof fn law_comparison_form_ignores_padding(raw: Seq<char>)
    ensures
        key_form_spec(normalise_spec(raw)) == key_form_spec(raw),
{
    crate::text::lemma_trim_idempotent(raw, true);
}

/// `s` without its commas.
fn remove_commas(s: &Vec<char>) -> (r: Vec<char>)
    ensures
        r@ == s@.filter(|c: char| c != ','),
{
    let mut r: Vec<char> = Vec::new();
    let mut i: usize = 0;
    while i < s.len()
        invariant
            i <= s.len(),
            r@ == s@.take(i as int).filter(|c: char| c != ','),
        decreases s.len() - i,
    {
        proof {
            reveal_with_fuel(Seq::<_>::filter, 1);
            assert(s@.take(i + 1).drop_last() =~= s@.take(i as int));
        }
        if s[i] != ',' {
            r.push(s[i]);
        }
        i += 1;
    }
    assert(s@.take(s.len() as int) =~= s@);
    r
}

/// A sequence of digits is worth at least any of its prefixes.
pub proof fn lemma_digits_value_prefix(s: Seq<char>, n: int)
    requires
        0 <= n <= s.len(),
    ensures
        digits_value(s) >= digits_value(s.take(n)),
    decreases s.len() - n,
{
    if n < s.len() {
        lemma_digits_value_prefix(s, n + 1);
        assert(s.take(n + 1).drop_last() =~= s.take(n));
    } else {
        assert(s.take(n) =~= s);
    }
}

/// How `i64::to_string` writes an integer text, if `str::parse::<i64>` accepts it.
fn canonical_i64(s: &Vec<char>) -> (r: Option<Vec<char>>)
    requires
        integer_text(s@),
    ensures
        match r {
            Some(c) => fits_i64(s@) && c@ == canonical_int(s@),
            None => !fits_i64(s@),
        },
{
    let b = sign_length(s);
    let negative = b == 1 && s[0] == '-';
    let ghost t = s@.skip(b as int);
    let limit: u128 = 0x8000_0000_0000_0000;
    let mut acc: u128 = 0;
    let mut i = b;
    while i < s.len()
        invariant
            b <= i <= s.len(),
            b == sign_len(s@),
            limit == 0x8000_0000_0000_0000,
            t == s@.skip(b as int),
            all_digits(t),
            acc <= limit ==> acc == digits_value(t.take(i - b)),
            acc > limit ==> digits_value(t.take(i - b)) > limit,
            acc <= 10 * limit + 9,
        decreases s.len() - i,
    {
        proof {
            assert(t[i - b] == s@[i as int]);
            assert(is_digit(t[i - b]));
            assert(t.take(i - b + 1).drop_last() =~= t.take(i - b));
            assert(t.take(i - b + 1).last() == s@[i as int]);
        }
        let d = (s[i] as u32 - 48) as u128;
        assert(d <= 9);
        if acc <= limit {
            acc = acc * 10 + d;
        }
        i += 1;
    }
    assert(t.take(i - b) =~= t);
    let fits = if negative {
        acc <= limit
    } else {
        acc < limit
    };
    if !fits {
        return None;
    }
    let mut r: Vec<char> = Vec::new();
    if negative && acc != 0 {
        r.push('-');
    }
    let digits = decimal_chars(acc);
    let mut k: usize = 0;
    let ghost start = r@;
    while k < digits.len()
        invariant
            k <= digits.len(),
            r@ == start + digits@.take(k as int),
        decreases digits.len() - k,
    {
        r.push(digits[k]);
        k += 1;
        assert(digits@.take(k as int) =~= digits@.take(k - 1).push(digits@[k - 1]));
    }
    assert(digits@.take(k as int) =~= digits@);
    assert(r@ =~= canonical_int(s@));
    Some(r)
}

/// Whether `v` is one of the texts that pandas read as missing.
pub fn is_na_text(v: &str) -> (r: bool)
    ensures
        r == na_text(v@),
{
    same_text(v, "#N/A") || same_text(v, "#N/A N/A") || same_text(v, "#NA") || same_text(v, "-1.#IND")
        || same_text(v, "-1.#QNAN") || same_text(v, "-NaN") || same_text(v, "-nan") || same_text(
        v,
        "1.#IND",
    ) || same_text(v, "1.#QNAN") || same_text(v, "<NA>") || same_text(v, "N/A") || same_text(
        v,
        "NA",
    ) || same_text(v, "NULL") || same_text(v, "NaN") || same_text(v, "None") || same_text(v, "n/a")
        || same_text(v, "nan") || same_text(v, "null")
}

fn has_comma(s: &Vec<char>) -> (r: bool)
    ensures
        r == s@.contains(','),
{
    let mut i: usize = 0;
    while i < s.len()
        invariant
            i <= s.len(),
            forall|x: int| 0 <= x < i ==> s@[x] != ',',
        decreases s.len() - i,
    {
        if s[i] == ',' {
            return true;
        }
        i += 1;
    }
    false
}

/// `v` without its commas when it has one and `thousands` holds.
pub fn grouped_value(v: &str, thousands: bool) -> (r: String)
    ensures
        r@ == grouped_by(v@, thousands),
{
    let chars = chars_of(v);
    if thousands && has_comma(&chars) {
        string_from_chars(remove_commas(&chars))
    } else {
        to_string(v)
    }
}

/// The comparison form of the text `g`, given whether it matches
/// `INTEGER_PATTERN` and whether it matches `FLOAT_PATTERN`.
pub fn key_form_of(g: String, integer: bool, float: bool) -> (r: KeyForm)
    ensures
        match r {
            KeyForm::Text(t) => !form_of(g@, integer, float).0 && t@ == form_of(g@, integer, float).1,
            KeyForm::Number(t) => form_of(g@, integer, float).0 && t@ == form_of(g@, integer, float).1,
        },
{
    let digits = chars_of(g.as_str());
    if integer && is_integer_text(&digits) {
        match canonical_i64(&digits) {
            Some(c) => {
                return KeyForm::Text(string_from_chars(c));
            },
            None => {},
        }
    }
    if float {
        KeyForm::Number(g)
    } else {
        KeyForm::Text(g)
    }
}

/// The form in which `raw` is compared with other values: pandas' reading of
/// the cell, as a text, or as a number still to be formatted with `format(float, "g")`.
pub fn comparison_key(raw: &str) -> (r: KeyForm)
    ensures
        match r {
            KeyForm::Text(t) => !key_form_spec(raw@).0 && t@ == key_form_spec(raw@).1,
            KeyForm::Number(t) => key_form_spec(raw@).0 && t@ == key_form_spec(raw@).1,
        },
{
    let v = normalise_value(raw);
    if is_na_text(v) {
        return KeyForm::Text(String::new());
    }
    let grouped = grouped_value(v, regex_is_match(THOUSANDS_PATTERN, v));
    let integer = regex_is_match(INTEGER_PATTERN, grouped.as_str());
    let float = regex_is_match(FLOAT_PATTERN, grouped.as_str());
    key_form_of(grouped, integer, float)
}

/// A formatted number without the zeros that end its fraction, and without
/// a `.` that is left at its end; a number without `.` stays as it is.
pub open spec fn trimmed_fraction(number: Seq<char>) -> Seq<char> {
    if number.contains('.') {
        trailing_stripped(trailing_stripped(number, '0'), '.')
    } else {
        number
    }
}

/// `number` without trailing zeros in its fraction and without a dangling `.`.
pub fn trim_fraction(number: &str) -> (r: &str)
    ensures
        r@ == trimmed_fraction(number@),
{
    let v = chars_of(number);
    if find_char(&v, '.').is_none() {
        return number;
    }
    let mut j: usize = v.len();
    assert(v@.take(j as int) =~= v@);
    while j > 0 && v[j - 1] == '0'
        invariant
            j <= v.len(),
            trailing_stripped(v@, '0') == trailing_stripped(v@.take(j as int), '0'),
        decreases j,
    {
        assert(v@.take(j - 1) =~= v@.take(j as int).drop_last());
        j -= 1;
    }
    let ghost zeros_gone = v@.take(j as int);
    assert(trailing_stripped(v@, '0') == zeros_gone);
    let mut k: usize = j;
    assert(zeros_gone.take(k as int) =~= zeros_gone);
    while k > 0 && v[k - 1] == '.'
        invariant
            k <= j <= v.len(),
            zeros_gone == v@.take(j as int),
            trailing_stripped(zeros_gone, '.') == trailing_stripped(zeros_gone.take(k as int), '.'),
        decreases k,
    {
        assert(zeros_gone.take(k - 1) =~= zeros_gone.take(k as int).drop_last());
        k -= 1;
    }
    assert(zeros_gone.take(k as int) =~= v@.subrange(0, k as int));
    number.substring_char(0, k)
}

} // verus!
