//! Characters and strings: building strings, decimal digits, character classes.
use vstd::prelude::*;

verus! {

/// Appends one character (std's `String::push`).
pub assume_specification[ String::push ](s: &mut String, ch: char)
    ensures
        final(s)@ == old(s)@.push(ch),
;

/// Appends a string slice (std's `String::push_str`).
pub assume_specification[ String::push_str ](s: &mut String, string: &str)
    ensures
        final(s)@ == old(s)@ + string@,
;

/// The characters of `s`, in order.
pub fn chars_of(s: &str) -> (r: Vec<char>)
    ensures
        r@ == s@,
{
    let mut v: Vec<char> = Vec::new();
    for c in it: s.chars()
        invariant
            v@ == it.seq().take(it.index() as int),
    {
        v.push(c);
    }
    v
}

/// A string holding the characters `cs[from..to]`.
pub fn string_of(cs: &[char], from: usize, to: usize) -> (r: String)
    requires
        from <= to <= cs@.len(),
    ensures
        r@ == cs@.subrange(from as int, to as int),
{
    let mut s = String::new();
    let mut i = from;
    while i < to
        invariant
            from <= i <= to <= cs@.len(),
            s@ == cs@.subrange(from as int, i as int),
        decreases to - i,
    {
        s.push(cs[i]);
        i = i + 1;
        assert(s@ =~= cs@.subrange(from as int, i as int));
    }
    s
}

/// The decimal digit for `d < 10`.
pub open spec fn digit_char(d: nat) -> char {
    (48 + d) as char
}

/// The decimal numeral of `n`, without leading zeros.
pub open spec fn decimal(n: nat) -> Seq<char>
    decreases n,
{
    if n < 10 {
        seq![digit_char(n)]
    } else {
        decimal(n / 10).push(digit_char(n % 10))
    }
}

/// The decimal numeral of `n`, with a minus sign when it is negative.
pub open spec fn signed_decimal(n: int) -> Seq<char> {
    if n < 0 {
        seq!['-'] + decimal((-n) as nat)
    } else {
        decimal(n as nat)
    }
}

/// Appends the decimal numeral of `n`.
pub fn push_decimal(s: &mut String, n: u64)
    ensures
        final(s)@ == old(s)@ + decimal(n as nat),
    decreases n,
{
    if n >= 10 {
        push_decimal(s, n / 10);
    }
    let d = (n % 10) as u8;
    s.push((48u8 + d) as char);
    proof {
        if n >= 10 {
            assert(decimal(n as nat) == decimal((n / 10) as nat).push(digit_char((n % 10) as nat)));
        }
    }
}

/// Appends the decimal numeral of `n`, with a minus sign when it is negative.
pub fn push_signed_decimal(s: &mut String, n: i64)
    ensures
        final(s)@ == old(s)@ + signed_decimal(n as int),
{
    if n < 0 {
        s.push('-');
        let m: u64 = ((-(n + 1)) as u64) + 1;
        push_decimal(s, m);
        assert(s@ =~= old(s)@ + signed_decimal(n as int));
    } else {
        push_decimal(s, n as u64);
    }
}


/// Whether a non-ASCII `c` has the Unicode `White_Space` property.
pub uninterp spec fn non_ascii_white_space(c: char) -> bool;

/// Whether a non-ASCII `c` has the Unicode `Alphabetic` property.
pub uninterp spec fn non_ascii_alphabetic(c: char) -> bool;

/// Whether a non-ASCII `c` is alphabetic or numeric in Unicode's sense.
pub uninterp spec fn non_ascii_alphanumeric(c: char) -> bool;

/// The ASCII letters.
pub open spec fn ascii_letter(c: char) -> bool {
    ('a' <= c && c <= 'z') || ('A' <= c && c <= 'Z')
}

/// The ASCII decimal digits.
pub open spec fn ascii_digit(c: char) -> bool {
    '0' <= c && c <= '9'
}

/// Unicode `White_Space`: among ASCII characters the space and tab to
/// carriage return (U+0009 to U+000D).
pub open spec fn unicode_white_space(c: char) -> bool {
    if (c as u32) < 128 {
        c == ' ' || ('\t' <= c && c <= '\r')
    } else {
        non_ascii_white_space(c)
    }
}

/// Unicode `Alphabetic`: among ASCII characters the letters.
pub open spec fn unicode_alphabetic(c: char) -> bool {
    if (c as u32) < 128 {
        ascii_letter(c)
    } else {
        non_ascii_alphabetic(c)
    }
}

/// Alphabetic or numeric: among ASCII characters the letters and digits.
pub open spec fn unicode_alphanumeric(c: char) -> bool {
    if (c as u32) < 128 {
        ascii_letter(c) || ascii_digit(c)
    } else {
        non_ascii_alphanumeric(c)
    }
}

/// std's `char::is_whitespace`: whether `c` has the Unicode `White_Space`
/// property, to which std's documentation refers; among ASCII characters
/// that property holds of the space and of U+0009 to U+000D.
#[verifier::external_body]
pub(crate) fn is_whitespace(c: char) -> (r: bool)
    ensures
        (c as u32) >= 128 ==> r == non_ascii_white_space(c),
        r == unicode_white_space(c),
{
    c.is_whitespace()
}

/// std's `char::is_alphabetic`: whether `c` has the Unicode `Alphabetic`
/// property; among ASCII characters these are the letters.
#[verifier::external_body]
pub(crate) fn is_alphabetic(c: char) -> (r: bool)
    ensures
        (c as u32) >= 128 ==> r == non_ascii_alphabetic(c),
        r == unicode_alphabetic(c),
{
    c.is_alphabetic()
}

/// std's `char::is_alphanumeric`: whether `c` is alphabetic or numeric in
/// Unicode's sense; among ASCII characters these are the letters and digits.
#[verifier::external_body]
pub(crate) fn is_alphanumeric(c: char) -> (r: bool)
    ensures
        (c as u32) >= 128 ==> r == non_ascii_alphanumeric(c),
        r == unicode_alphanumeric(c),
{
    c.is_alphanumeric()
}

/// The first position at or after `i` that does not hold whitespace (or the end).
pub open spec fn ws_end(t: Seq<char>, i: int) -> int
    decreases t.len() - i,
{
    if 0 <= i < t.len() && unicode_white_space(t[i]) {
        ws_end(t, i + 1)
    } else {
        i
    }
}

/// The end of `t[lo..hi]` once trailing whitespace is cut.
pub open spec fn ws_back(t: Seq<char>, lo: int, hi: int) -> int
    decreases hi - lo,
{
    if lo < hi && unicode_white_space(t[hi - 1]) {
        ws_back(t, lo, hi - 1)
    } else {
        hi
    }
}

/// `t` without leading and trailing whitespace, as std's `str::trim` cuts it.
pub open spec fn trim(t: Seq<char>) -> Seq<char> {
    t.subrange(ws_end(t, 0), ws_back(t, ws_end(t, 0), t.len() as int))
}

pub proof fn lemma_ws_end_bounds(t: Seq<char>, i: int)
    requires
        0 <= i <= t.len(),
    ensures
        i <= ws_end(t, i) <= t.len(),
        ws_end(t, i) < t.len() ==> !unicode_white_space(t[ws_end(t, i)]),
    decreases t.len() - i,
{
    if i < t.len() && unicode_white_space(t[i]) {
        lemma_ws_end_bounds(t, i + 1);
    }
}

pub proof fn lemma_ws_back_bounds(t: Seq<char>, lo: int, hi: int)
    requires
        0 <= lo <= hi <= t.len(),
    ensures
        lo <= ws_back(t, lo, hi) <= hi,
    decreases hi - lo,
{
    if lo < hi && unicode_white_space(t[hi - 1]) {
        lemma_ws_back_bounds(t, lo, hi - 1);
    }
}

/// Skips whitespace from `i`.
pub fn skip_ws(t: &Vec<char>, i: usize) -> (r: usize)
    requires
        i <= t@.len(),
    ensures
        r as int == ws_end(t@, i as int),
        i <= r <= t@.len(),
{
    let mut j = i;
    while j < t.len() && is_whitespace(t[j])
        invariant
            i <= j <= t@.len(),
            ws_end(t@, i as int) == ws_end(t@, j as int),
        decreases t.len() - j,
    {
        j = j + 1;
    }
    j
}

/// Cuts trailing whitespace from `t[lo..hi]`; returns the new end.
pub fn skip_ws_back(t: &Vec<char>, lo: usize, hi: usize) -> (r: usize)
    requires
        lo <= hi <= t@.len(),
    ensures
        r as int == ws_back(t@, lo as int, hi as int),
        lo <= r <= hi,
{
    let mut j = hi;
    while j > lo && is_whitespace(t[j - 1])
        invariant
            lo <= j <= hi,
            hi <= t@.len(),
            ws_back(t@, lo as int, hi as int) == ws_back(t@, lo as int, j as int),
        decreases j - lo,
    {
        j = j - 1;
    }
    j
}

/// The characters of `t` without leading and trailing whitespace.
pub fn trimmed(t: &Vec<char>) -> (r: Vec<char>)
    ensures
        r@ == trim(t@),
{
    let lo = skip_ws(t, 0);
    let hi = skip_ws_back(t, lo, t.len());
    let mut out: Vec<char> = Vec::new();
    let mut i = lo;
    while i < hi
        invariant
            lo <= i <= hi <= t@.len(),
            out@ == t@.subrange(lo as int, i as int),
        decreases hi - i,
    {
        out.push(t[i]);
        i = i + 1;
        assert(out@ =~= t@.subrange(lo as int, i as int));
    }
    out
}
} // verus!
