//! Character-level text handling shared by the parsers: whitespace classes,
//! trimming and conversions between strings and character vectors.

use vstd::prelude::*;

verus! {

/// The Unicode `White_Space` property, which `char::is_whitespace` tests.
pub open spec fn white_space(c: char) -> bool {
    let n = c as u32;
    ||| 0x09 <= n <= 0x0d
    ||| n == 0x20
    ||| n == 0x85
    ||| n == 0xa0
    ||| n == 0x1680
    ||| 0x2000 <= n <= 0x200a
    ||| n == 0x2028
    ||| n == 0x2029
    ||| n == 0x202f
    ||| n == 0x205f
    ||| n == 0x3000
}

/// Python's `str.isspace()`: Unicode white space plus the ASCII separators U+001C–U+001F.
pub open spec fn python_space(c: char) -> bool {
    white_space(c) || (0x1c <= c as u32 <= 0x1f)
}

/// The class of characters that a trim removes: Python's (`python`) or Rust's.
pub open spec fn space_of(c: char, python: bool) -> bool {
    if python {
        python_space(c)
    } else {
        white_space(c)
    }
}

/// `s` without its leading characters of the given space class.
pub open spec fn trim_start_spec(s: Seq<char>, python: bool) -> Seq<char>
    decreases s.len(),
{
    if s.len() > 0 && space_of(s[0], python) {
        trim_start_spec(s.drop_first(), python)
    } else {
        s
    }
}

/// `s` without its trailing characters of the given space class.
pub open spec fn trim_end_spec(s: Seq<char>, python: bool) -> Seq<char>
    decreases s.len(),
{
    if s.len() > 0 && space_of(s.last(), python) {
        trim_end_spec(s.drop_last(), python)
    } else {
        s
    }
}

/// `s` without leading and trailing characters of the given space class.
pub open spec fn trim_spec(s: Seq<char>, python: bool) -> Seq<char> {
    trim_end_spec(trim_start_spec(s, python), python)
}

/// Python's `str.strip()`, which the cached values went through.
pub open spec fn normalise_spec(s: Seq<char>) -> Seq<char> {
    trim_spec(s, true)
}

proof fn lemma_trim_start_idempotent(s: Seq<char>, python: bool)
    ensures
        trim_start_spec(trim_start_spec(s, python), python) == trim_start_spec(s, python),
        trim_start_spec(s, python).len() == 0 || !space_of(trim_start_spec(s, python)[0], python),
    decreases s.len(),
{
    if s.len() > 0 && space_of(s[0], python) {
        lemma_trim_start_idempotent(s.drop_first(), python);
    }
}

proof fn lemma_trim_end_idempotent(s: Seq<char>, python: bool)
    ensures
        trim_end_spec(trim_end_spec(s, python), python) == trim_end_spec(s, python),
        trim_end_spec(s, python).len() <= s.len(),
        trim_end_spec(s, python) == s.take(trim_end_spec(s, python).len() as int),
    decreases s.len(),
{
    if s.len() > 0 && space_of(s.last(), python) {
        lemma_trim_end_idempotent(s.drop_last(), python);
        let t = trim_end_spec(s, python);
        assert(s.drop_last().take(t.len() as int) =~= s.take(t.len() as int));
    } else {
        assert(s.take(s.len() as int) =~= s);
    }
}

/// Trimming a trimmed text changes nothing.
pub proof fn lemma_trim_idempotent(s: Seq<char>, python: bool)
    ensures
        trim_spec(trim_spec(s, python), python) == trim_spec(s, python),
{
    let a = trim_start_spec(s, python);
    let b = trim_end_spec(a, python);
    lemma_trim_start_idempotent(s, python);
    lemma_trim_end_idempotent(a, python);
    if b.len() > 0 {
        assert(b[0] == a.take(b.len() as int)[0]);
    }
    assert(trim_start_spec(b, python) == b);
}

/// Whether `c` has the Unicode `White_Space` property.
pub fn is_whitespace(c: char) -> (r: bool)
    ensures
        r == white_space(c),
{
    let n = c as u32;
    (0x09 <= n && n <= 0x0d) || n == 0x20 || n == 0x85 || n == 0xa0 || n == 0x1680 || (0x2000
        <= n && n <= 0x200a) || n == 0x2028 || n == 0x2029 || n == 0x202f || n == 0x205f || n
        == 0x3000
}

/// Python's `str.isspace()` also treats the ASCII separators U+001C–U+001F as space.
pub fn is_python_space(c: char) -> (r: bool)
    ensures
        r == python_space(c),
{
    let n = c as u32;
    is_whitespace(c) || (0x1c <= n && n <= 0x1f)
}

fn is_space_of(c: char, python: bool) -> (r: bool)
    ensures
        r == space_of(c, python),
{
    if python {
        is_python_space(c)
    } else {
        is_whitespace(c)
    }
}

/// The characters of `s`, in order.
pub fn chars_of(s: &str) -> (v: Vec<char>)
    ensures
        v@ == s@,
{
    let mut v: Vec<char> = Vec::new();
    for c in it: s.chars()
        invariant
            v@ == it.seq().take(it.index() as int),
    {
        v.push(c);
    }
    proof {
        assert(v@ == s@);
    }
    v
}


/// Position of the first character of `s` outside the space class.
pub fn trim_start_index(s: &Vec<char>, python: bool) -> (i: usize)
    ensures
        i <= s.len(),
        trim_start_spec(s@, python) == s@.subrange(i as int, s.len() as int),
{
    let mut i: usize = 0;
    assert(s@.subrange(0, s.len() as int) =~= s@);
    while i < s.len() && is_space_of(s[i], python)
        invariant
            i <= s.len(),
            trim_start_spec(s@, python) == trim_start_spec(
                s@.subrange(i as int, s.len() as int),
                python,
            ),
        decreases s.len() - i,
    {
        assert(s@.subrange(i as int, s.len() as int).drop_first() =~= s@.subrange(
            i + 1,
            s.len() as int,
        ));
        i += 1;
    }
    i
}

/// End of `s[start..]` once its trailing characters of the space class are removed.
pub fn trim_end_index(s: &Vec<char>, start: usize, python: bool) -> (j: usize)
    requires
        start <= s.len(),
    ensures
        start <= j <= s.len(),
        trim_end_spec(s@.subrange(start as int, s.len() as int), python) == s@.subrange(
            start as int,
            j as int,
        ),
{
    let mut j: usize = s.len();
    while j > start && is_space_of(s[j - 1], python)
        invariant
            start <= j <= s.len(),
            trim_end_spec(s@.subrange(start as int, s.len() as int), python) == trim_end_spec(
                s@.subrange(start as int, j as int),
                python,
            ),
        decreases j,
    {
        assert(s@.subrange(start as int, j as int).drop_last() =~= s@.subrange(
            start as int,
            j - 1,
        ));
        j -= 1;
    }
    j
}

/// Bounds of `s` once leading and trailing characters of the space class are removed.
pub fn trim_bounds(s: &Vec<char>, python: bool) -> (r: (usize, usize))
    ensures
        r.0 <= r.1 <= s.len(),
        trim_spec(s@, python) == s@.subrange(r.0 as int, r.1 as int),
{
    let i = trim_start_index(s, python);
    let j = trim_end_index(s, i, python);
    (i, j)
}

/// Strip surrounding whitespace exactly like Python's `str.strip()`.
pub fn normalise_value(value: &str) -> (r: &str)
    ensures
        r@ == normalise_spec(value@),
{
    let chars = chars_of(value);
    let (i, j) = trim_bounds(&chars, true);
    value.substring_char(i, j)
}

/// `str::trim`: strip surrounding Unicode white space.
pub fn trim_text(value: &str) -> (r: &str)
    ensures
        r@ == trim_spec(value@, false),
{
    let chars = chars_of(value);
    let (i, j) = trim_bounds(&chars, false);
    value.substring_char(i, j)
}


/// std's `String::from_iter` over `chars`: the string made of those
/// characters, in order. Claimed: the string holds exactly `chars`.
#[verifier::external_body]
pub fn string_from_chars(chars: Vec<char>) -> (s: String)
    ensures
        s@ == chars@,
{
    String::from_iter(chars)
}

/// The string with the characters of `s`.
pub fn to_string(s: &str) -> (r: String)
    ensures
        r@ == s@,
{
    s.to_owned()
}

/// Whether two strings hold the same characters.
pub fn same_text(a: &str, b: &str) -> (r: bool)
    ensures
        r == (a@ == b@),
{
    a.to_owned() == b.to_owned()
}

/// Whether `list` holds a string with the characters of `s`.
pub fn contains_text(list: &Vec<String>, s: &str) -> (r: bool)
    ensures
        r == list@.map_values(|t: String| t@).contains(s@),
{
    let wanted = s.to_owned();
    let mut i: usize = 0;
    while i < list.len()
        invariant
            i <= list.len(),
            wanted@ == s@,
            forall|j: int| 0 <= j < i ==> #[trigger] list@[j]@ != s@,
        decreases list.len() - i,
    {
        if list[i] == wanted {
            assert(list@.map_values(|t: String| t@)[i as int] == s@);
            return true;
        }
        i += 1;
    }
    false
}

/// The decimal digit `d` as a character.
pub open spec fn digit_char(d: nat) -> char {
    if d == 0 {
        '0'
    } else if d == 1 {
        '1'
    } else if d == 2 {
        '2'
    } else if d == 3 {
        '3'
    } else if d == 4 {
        '4'
    } else if d == 5 {
        '5'
    } else if d == 6 {
        '6'
    } else if d == 7 {
        '7'
    } else if d == 8 {
        '8'
    } else {
        '9'
    }
}

fn digit(d: u128) -> (c: char)
    requires
        d < 10,
    ensures
        c == digit_char(d as nat),
{
    if d == 0 {
        '0'
    } else if d == 1 {
        '1'
    } else if d == 2 {
        '2'
    } else if d == 3 {
        '3'
    } else if d == 4 {
        '4'
    } else if d == 5 {
        '5'
    } else if d == 6 {
        '6'
    } else if d == 7 {
        '7'
    } else if d == 8 {
        '8'
    } else {
        '9'
    }
}

/// The decimal representation of `n`, as `n.to_string()` writes it.
pub open spec fn decimal(n: nat) -> Seq<char>
    decreases n,
{
    if n < 10 {
        seq![digit_char(n)]
    } else {
        decimal(n / 10).push(digit_char(n % 10))
    }
}

/// Different numbers have different decimal representations.
pub proof fn lemma_decimal_injective(a: nat, b: nat)
    requires
        decimal(a) == decimal(b),
    ensures
        a == b,
    decreases a,
{
    lemma_decimal_len(a);
    lemma_decimal_len(b);
    if a >= 10 && b >= 10 {
        assert(decimal(a).drop_last() == decimal(a / 10));
        assert(decimal(b).drop_last() == decimal(b / 10));
        lemma_decimal_injective(a / 10, b / 10);
        assert(decimal(a).last() == digit_char(a % 10));
        assert(decimal(b).last() == digit_char(b % 10));
        assert(a % 10 == b % 10);
    } else if a < 10 && b < 10 {
        assert(decimal(a)[0] == digit_char(a));
        assert(decimal(b)[0] == digit_char(b));
    }
}

/// A decimal representation has one digit for numbers below ten and more above.
pub proof fn lemma_decimal_len(n: nat)
    ensures
        decimal(n).len() >= 1,
        n < 10 <==> decimal(n).len() == 1,
    decreases n,
{
    if n >= 10 {
        lemma_decimal_len(n / 10);
    }
}

/// The decimal digits of `n`.
pub fn decimal_chars(n: u128) -> (r: Vec<char>)
    ensures
        r@ == decimal(n as nat),
    decreases n,
{
    let c = digit(n % 10);
    if n < 10 {
        let mut r: Vec<char> = Vec::new();
        r.push(c);
        assert(r@ =~= seq![digit_char(n as nat)]);
        r
    } else {
        let mut r = decimal_chars(n / 10);
        r.push(c);
        r
    }
}

/// The characters of `v` from `from` up to `to`.
pub fn sub_chars(v: &Vec<char>, from: usize, to: usize) -> (r: Vec<char>)
    requires
        from <= to <= v.len(),
    ensures
        r@ == v@.subrange(from as int, to as int),
{
    let mut r: Vec<char> = Vec::new();
    let mut i = from;
    while i < to
        invariant
            from <= i <= to <= v.len(),
            r@ == v@.subrange(from as int, i as int),
        decreases to - i,
    {
        r.push(v[i]);
        i += 1;
        assert(r@ =~= v@.subrange(from as int, i as int));
    }
    r
}

/// Whether `i` is the first position of `c` in `s`.
pub open spec fn first_at(s: Seq<char>, c: char, i: int) -> bool {
    0 <= i < s.len() && s[i] == c && forall|r: int| 0 <= r < i ==> #[trigger] s[r] != c
}

/// The first position of `c` in `s`.
pub open spec fn first_index(s: Seq<char>, c: char) -> int {
    choose|i: int| first_at(s, c, i)
}

/// The first position of `c` in `v`, if any.
pub fn find_char(v: &Vec<char>, c: char) -> (r: Option<usize>)
    ensures
        match r {
            Some(i) => v@.contains(c) && i == first_index(v@, c) && i < v.len(),
            None => !v@.contains(c),
        },
{
    let mut i: usize = 0;
    while i < v.len()
        invariant
            i <= v.len(),
            forall|r: int| 0 <= r < i ==> #[trigger] v@[r] != c,
        decreases v.len() - i,
    {
        if v[i] == c {
            proof {
                assert(first_at(v@, c, i as int));
                let j = first_index(v@, c);
                assert(first_at(v@, c, j));
                if j < i {
                    assert(v@[j] == c);
                }
                if j > i {
                    assert(v@[i as int] == c);
                }
            }
            return Some(i);
        }
        i += 1;
    }
    None
}

/// Append the characters of `s` to `v`.
pub fn push_str_chars(v: &mut Vec<char>, s: &str)
    ensures
        final(v)@ == old(v)@ + s@,
{
    let chars = chars_of(s);
    let mut i: usize = 0;
    while i < chars.len()
        invariant
            i <= chars.len(),
            chars@ == s@,
            v@ == old(v)@ + chars@.take(i as int),
        decreases chars.len() - i,
    {
        v.push(chars[i]);
        i += 1;
        assert(chars@.take(i as int) =~= chars@.take(i - 1).push(chars@[i - 1]));
    }
    assert(chars@.take(i as int) =~= chars@);
}

/// `s` cut at each `sep` into the pieces between (`str::split`); as many
/// pieces as there are separators, plus one.
pub open spec fn pieces(s: Seq<char>, sep: char) -> Seq<Seq<char>>
    decreases s.len(),
{
    if s.len() == 0 {
        seq![Seq::empty()]
    } else {
        let before = pieces(s.drop_last(), sep);
        if s.last() == sep {
            before.push(Seq::empty())
        } else {
            before.drop_last().push(before.last().push(s.last()))
        }
    }
}

/// What the character vectors of `v` hold.
pub open spec fn char_views(v: Seq<Vec<char>>) -> Seq<Seq<char>> {
    v.map_values(|l: Vec<char>| l@)
}

/// `s` cut at each `sep`.
pub fn split_chars(s: &Vec<char>, sep: char) -> (r: Vec<Vec<char>>)
    ensures
        char_views(r@) == pieces(s@, sep),
{
    let mut done: Vec<Vec<char>> = Vec::new();
    let mut current: Vec<char> = Vec::new();
    let mut i: usize = 0;
    assert(s@.take(0) =~= Seq::<char>::empty());
    assert(char_views(done@).push(current@) =~= pieces(s@.take(0), sep));
    while i < s.len()
        invariant
            i <= s.len(),
            char_views(done@).push(current@) == pieces(s@.take(i as int), sep),
        decreases s.len() - i,
    {
        let ghost before = pieces(s@.take(i as int), sep);
        assert(s@.take(i + 1).drop_last() =~= s@.take(i as int));
        assert(s@.take(i + 1).last() == s@[i as int]);
        if s[i] == sep {
            let finished = current;
            done.push(finished);
            current = Vec::new();
            assert(char_views(done@).push(current@) =~= before.push(Seq::empty()));
        } else {
            current.push(s[i]);
            assert(char_views(done@).push(current@) =~= before.drop_last().push(
                before.last().push(s@[i as int]),
            ));
        }
        i += 1;
    }
    assert(s@.take(s.len() as int) =~= s@);
    done.push(current);
    assert(char_views(done@) =~= pieces(s@, sep));
    done
}

/// `s` without the copies of `c` at its end (`trim_end_matches`).
pub open spec fn trailing_stripped(s: Seq<char>, c: char) -> Seq<char>
    decreases s.len(),
{
    if s.len() > 0 && s.last() == c {
        trailing_stripped(s.drop_last(), c)
    } else {
        s
    }
}

/// `s` without the copies of `c` at its end.
pub fn trim_end_char(s: &str, c: char) -> (r: String)
    ensures
        r@ == trailing_stripped(s@, c),
{
    let v = chars_of(s);
    let mut j: usize = v.len();
    assert(v@.take(j as int) =~= v@);
    while j > 0 && v[j - 1] == c
        invariant
            j <= v.len(),
            trailing_stripped(v@, c) == trailing_stripped(v@.take(j as int), c),
        decreases j,
    {
        assert(v@.take(j - 1) =~= v@.take(j as int).drop_last());
        j -= 1;
    }
    string_from_chars(sub_chars(&v, 0, j))
}

} // verus!
