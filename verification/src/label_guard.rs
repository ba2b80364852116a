//! Text that candid_parser can number the fields of.
//!
//! When candid_parser reads a record, it numbers each field after the one
//! before it: a labelled field with id `n` sets the next number to `n + 1`,
//! and each unlabelled field takes the next number and adds one.  Built with
//! overflow checks, that addition panics once it passes `u32::MAX`.  The
//! check here refuses every text in which a field label could come close
//! enough to `u32::MAX` for that: it looks at each token that stands just
//! before a `sep` (`=` for values, `:` for types) or a `/` (a comment may sit
//! in between), reads it in every way the lexer could have cut it (a decimal
//! or `0x` number, an identifier, or a quoted name without escapes) and asks
//! that its id plus the number of `;` in the text stay below `u32::MAX`
//! (each unlabelled field that follows a labelled one in its record comes
//! after a `;`).  Quoted names with escapes there are refused.  It refuses
//! more than it must.
use vstd::prelude::*;
use crate::text::{chars_of, string_of, ws_back, is_whitespace};
use crate::value::{idl_hash, idl_hash_of};

verus! {

broadcast use vstd::std_specs::vec::group_vec_axioms;

/// Above any id that matters here.
pub open spec fn cap() -> nat {
    0x2_0000_0000
}

/// The number of `;` in `t`.
pub open spec fn semicolons(t: Seq<char>) -> nat
    decreases t.len(),
{
    if t.len() == 0 {
        0
    } else {
        semicolons(t.drop_last()) + if t.last() == ';' { 1nat } else { 0nat }
    }
}

/// The numbers that are too big as an id in `t`: those that, with one more
/// for each `;` of `t`, reach `u32::MAX`.
pub open spec fn too_big(v: nat, t: Seq<char>) -> bool {
    v + semicolons(t) >= 0xffff_ffff
}

proof fn lemma_semicolons_bound(t: Seq<char>)
    ensures
        semicolons(t) <= t.len(),
    decreases t.len(),
{
    if t.len() > 0 {
        lemma_semicolons_bound(t.drop_last());
    }
}

/// The number of `;` in `t`.
fn count_semicolons(t: &Vec<char>) -> (r: u64)
    requires
        t@.len() < 0x8000_0000,
    ensures
        r == semicolons(t@),
{
    let mut r: u64 = 0;
    let mut i: usize = 0;
    while i < t.len()
        invariant
            i <= t@.len(),
            t@.len() < 0x8000_0000,
            r == semicolons(t@.take(i as int)),
            r <= i,
        decreases t.len() - i,
    {
        assert(t@.take(i + 1).drop_last() =~= t@.take(i as int));
        if t[i] == ';' {
            r = r + 1;
        }
        i = i + 1;
    }
    assert(t@.take(i as int) =~= t@);
    r
}

pub open spec fn dec_digit(c: char) -> bool {
    '0' <= c && c <= '9'
}

pub open spec fn hex_digit_char(c: char) -> bool {
    ('0' <= c && c <= '9') || ('a' <= c && c <= 'f') || ('A' <= c && c <= 'F')
}

pub open spec fn word_char(c: char) -> bool {
    ('0' <= c && c <= '9') || ('a' <= c && c <= 'z') || ('A' <= c && c <= 'Z') || c == '_'
}

pub open spec fn hex_value_of(c: char) -> nat {
    if '0' <= c && c <= '9' {
        (c as nat - 48) as nat
    } else if 'a' <= c && c <= 'f' {
        (c as nat - 87) as nat
    } else {
        (c as nat - 55) as nat
    }
}

/// The number that `t[k..e]` spells in `radix` (10 or 16), underscores
/// skipped, after `acc`; at most `cap()`.  `None` when some character is
/// no digit.
pub open spec fn number_from(t: Seq<char>, k: int, e: int, radix: nat, acc: nat) -> Option<nat>
    decreases e - k,
{
    if k >= e || k < 0 || e > t.len() {
        Some(acc)
    } else if t[k] == '_' {
        number_from(t, k + 1, e, radix, acc)
    } else if (radix == 10 && dec_digit(t[k])) || (radix == 16 && hex_digit_char(t[k])) {
        let d = if radix == 10 { (t[k] as nat - 48) as nat } else { hex_value_of(t[k]) };
        let next = acc * radix + d;
        number_from(t, k + 1, e, radix, if next > cap() { cap() } else { next })
    } else {
        None
    }
}

/// Whether the token `t[k..e]`, read as the lexer could, is a safe id.
pub open spec fn reading_safe(t: Seq<char>, k: int, e: int) -> bool {
    if dec_digit(t[k]) {
        &&& (number_from(t, k, e, 10, 0) matches Some(v) ==> !too_big(v, t))
        &&& (k + 1 < e && t[k] == '0' && t[k + 1] == 'x' ==> (number_from(t, k + 2, e, 16, 0) matches Some(v)
            ==> !too_big(v, t)))
    } else {
        !too_big(idl_hash_of(vstd::utf8::encode_utf8(t.subrange(k, e))) as nat, t)
    }
}

/// The start of the run of word characters that ends at `e`.
pub open spec fn word_start(t: Seq<char>, e: int) -> int
    decreases e,
{
    if 0 < e <= t.len() && word_char(t[e - 1]) {
        word_start(t, e - 1)
    } else {
        e
    }
}

/// The last `"` before `j`, if any.
pub open spec fn quote_before(t: Seq<char>, j: int) -> int
    decreases j,
{
    if j <= 0 || j > t.len() {
        -1
    } else if t[j - 1] == '"' {
        j - 1
    } else {
        quote_before(t, j - 1)
    }
}

/// Whether the token that ends at `e` is safe however the lexer cut it.
pub open spec fn token_safe(t: Seq<char>, e: int) -> bool {
    if e <= 0 || e > t.len() {
        true
    } else if t[e - 1] == '"' {
        let i = quote_before(t, e - 1);
        i < 0 || {
            &&& !(i > 0 && t[i - 1] == '\\')
            &&& forall|m: int| i < m < e - 1 ==> #[trigger] t[m] != '\\'
            &&& !too_big(idl_hash_of(vstd::utf8::encode_utf8(t.subrange(i + 1, e - 1))) as nat, t)
        }
    } else {
        forall|k: int| word_start(t, e) <= k < e && word_char(#[trigger] t[k]) ==> reading_safe(t, k, e)
    }
}

/// Whether candid_parser can number the fields of `t`, where labels stand
/// before `sep`.
pub open spec fn labels_safe(t: Seq<char>, sep: char) -> bool {
    &&& t.len() < 0x8000_0000
    &&& forall|j: int| 0 <= j < t.len() && (t[j] == sep || t[j] == '/') ==> token_safe(t, #[trigger] ws_back(t, 0, j))
}

proof fn lemma_word_start(t: Seq<char>, e: int)
    requires
        0 <= e <= t.len(),
    ensures
        0 <= word_start(t, e) <= e,
        forall|k: int| word_start(t, e) <= k < e ==> word_char(#[trigger] t[k]),
    decreases e,
{
    if 0 < e && word_char(t[e - 1]) {
        lemma_word_start(t, e - 1);
    }
}

proof fn lemma_quote_before(t: Seq<char>, j: int)
    requires
        0 <= j <= t.len(),
    ensures
        -1 <= quote_before(t, j) < j,
        quote_before(t, j) >= 0 ==> t[quote_before(t, j)] == '"',
    decreases j,
{
    if j > 0 && t[j - 1] != '"' {
        lemma_quote_before(t, j - 1);
    }
}

fn scan_number(t: &Vec<char>, k: usize, e: usize, radix: u64) -> (r: Option<u64>)
    requires
        k <= e <= t@.len(),
        radix == 10 || radix == 16,
    ensures
        r matches Some(v) ==> number_from(t@, k as int, e as int, radix as nat, 0) == Some(v as nat) && v <= cap(),
        r is None ==> number_from(t@, k as int, e as int, radix as nat, 0) is None,
{
    let mut acc: u64 = 0;
    let mut i = k;
    while i < e
        invariant
            k <= i <= e <= t@.len(),
            radix == 10 || radix == 16,
            acc <= cap(),
            number_from(t@, k as int, e as int, radix as nat, 0) == number_from(t@, i as int, e as int, radix as nat, acc as nat),
        decreases e - i,
    {
        let c = t[i];
        if c == '_' {
        } else if radix == 10 && '0' <= c && c <= '9' {
            let next = acc * 10 + (c as u64 - 48);
            acc = if next > 0x2_0000_0000 { 0x2_0000_0000 } else { next };
        } else if radix == 16 && is_hex_digit_char(c) {
            let d: u64 = if '0' <= c && c <= '9' {
                c as u64 - 48
            } else if 'a' <= c && c <= 'f' {
                c as u64 - 87
            } else {
                c as u64 - 55
            };
            let next = acc * 16 + d;
            acc = if next > 0x2_0000_0000 { 0x2_0000_0000 } else { next };
        } else {
            return None;
        }
        i = i + 1;
    }
    Some(acc)
}

fn is_hex_digit_char(c: char) -> (r: bool)
    ensures
        r == hex_digit_char(c),
{
    ('0' <= c && c <= '9') || ('a' <= c && c <= 'f') || ('A' <= c && c <= 'F')
}

fn is_word_char(c: char) -> (r: bool)
    ensures
        r == word_char(c),
{
    ('0' <= c && c <= '9') || ('a' <= c && c <= 'z') || ('A' <= c && c <= 'Z') || c == '_'
}

fn check_reading(t: &Vec<char>, k: usize, e: usize, n: u64) -> (r: bool)
    requires
        k < e <= t@.len(),
        t@.len() < 0x8000_0000,
        n == semicolons(t@),
    ensures
        r == reading_safe(t@, k as int, e as int),
{
    proof {
        lemma_semicolons_bound(t@);
    }
    if '0' <= t[k] && t[k] <= '9' {
        let dec_ok = match scan_number(t, k, e, 10) {
            Some(v) => v + n < 0xffff_ffff,
            None => true,
        };
        let hex_ok = if k + 1 < e && t[k] == '0' && t[k + 1] == 'x' {
            match scan_number(t, k + 2, e, 16) {
                Some(v) => v + n < 0xffff_ffff,
                None => true,
            }
        } else {
            true
        };
        dec_ok && hex_ok
    } else {
        let w = string_of(t.as_slice(), k, e);
        let h = idl_hash(w.as_str());
        (h as u64) + n < 0xffff_ffff
    }
}

fn check_token(t: &Vec<char>, e: usize, n: u64) -> (r: bool)
    requires
        e <= t@.len(),
        t@.len() < 0x8000_0000,
        n == semicolons(t@),
    ensures
        r == token_safe(t@, e as int),
{
    if e == 0 {
        return true;
    }
    proof {
        lemma_semicolons_bound(t@);
    }
    if t[e - 1] == '"' {
        let mut i = e - 1;
        while i > 0 && t[i - 1] != '"'
            invariant
                0 <= i <= e - 1,
                e <= t@.len(),
                quote_before(t@, e - 1) == quote_before(t@, i as int),
            decreases i,
        {
            i = i - 1;
        }
        if i == 0 {
            return true;
        }
        let q = i - 1;
        proof {
            assert(quote_before(t@, i as int) == q);
        }
        if q > 0 && t[q - 1] == '\\' {
            return false;
        }
        let mut m = q + 1;
        while m < e - 1
            invariant
                q + 1 <= m <= e - 1,
                e <= t@.len(),
                quote_before(t@, e - 1) == q as int,
                e >= 1,
                t@[e - 1] == '"',
                forall|x: int| q < x < m ==> t@[x] != '\\',
            decreases e - 1 - m,
        {
            if t[m] == '\\' {
                proof {
                    assert(quote_before(t@, e - 1) == q);
                    assert(q < m < e - 1 && t@[m as int] == '\\');
                    assert(t@[e - 1] == '"');
                    let ii = quote_before(t@, e - 1);
                    assert(!(forall|x: int| ii < x < e - 1 ==> #[trigger] t@[x] != '\\'));
                }
                return false;
            }
            m = m + 1;
        }
        let w = string_of(t.as_slice(), q + 1, e - 1);
        let h = idl_hash(w.as_str());
        (h as u64) + n < 0xffff_ffff
    } else {
        let mut s = e;
        while s > 0 && is_word_char(t[s - 1])
            invariant
                s <= e <= t@.len(),
                word_start(t@, e as int) == word_start(t@, s as int),
            decreases s,
        {
            s = s - 1;
        }
        proof {
            lemma_word_start(t@, e as int);
        }
        let mut k = s;
        while k < e
            invariant
                s <= k <= e <= t@.len(),
                t@.len() < 0x8000_0000,
                n == semicolons(t@),
                s == word_start(t@, e as int),
                forall|x: int| s <= x < k && word_char(#[trigger] t@[x]) ==> reading_safe(t@, x, e as int),
            decreases e - k,
        {
            if is_word_char(t[k]) {
                if !check_reading(t, k, e, n) {
                    return false;
                }
            }
            k = k + 1;
        }
        true
    }
}

/// Whether candid_parser can number the fields of `text`, where labels
/// stand before `sep`.
pub(crate) fn check_labels(text: &str, sep: char) -> (r: bool)
    ensures
        r == labels_safe(text@, sep),
{
    let t = chars_of(text);
    if t.len() >= 0x8000_0000 {
        return false;
    }
    let n = count_semicolons(&t);
    let mut j: usize = 0;
    while j < t.len()
        invariant
            j <= t@.len(),
            t@ == text@,
            t@.len() < 0x8000_0000,
            n == semicolons(t@),
            forall|x: int| 0 <= x < j && (t@[x] == sep || t@[x] == '/') ==> token_safe(t@, #[trigger] ws_back(t@, 0, x)),
        decreases t.len() - j,
    {
        if t[j] == sep || t[j] == '/' {
            let mut e = j;
            while e > 0 && is_whitespace(t[e - 1])
                invariant
                    e <= j < t@.len(),
                    ws_back(t@, 0, j as int) == ws_back(t@, 0, e as int),
                decreases e,
            {
                e = e - 1;
            }
            if !check_token(&t, e, n) {
                return false;
            }
        }
        j = j + 1;
    }
    true
}

} // verus!
