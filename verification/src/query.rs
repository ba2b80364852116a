//! The query language: `.`, `.field`, `.field?`, `.[i]`, `.[a:b]`, `.[]`,
//! chains such as `.a.b` and pipes `q | q`.  [`parse`] turns a query into an
//! [`Expr`]; [`evaluate`] runs it over an argument list.
use vstd::prelude::*;
use crate::value::{
    Args, Field, Label, SpecField, SpecLabel, SpecValue, Value, copy_value, copy_values, fields_view, idl_hash,
    kind_name, kind_name_of, label_display, label_is, label_matches, label_text,
    lemma_fields_view_index, lemma_values_view_index, lemma_values_view_push, values_view,
};
use crate::schema::label_hash;
use crate::text::{
    ascii_letter, unicode_white_space, ws_back, unicode_alphanumeric, unicode_alphabetic, ascii_digit, ws_end, trim, chars_of, trimmed, skip_ws,
    string_of, is_alphanumeric, is_alphabetic, lemma_ws_end_bounds, decimal, push_decimal,
};

verus! {

broadcast use vstd::std_specs::vec::group_vec_axioms;

/// A parsed query.
#[derive(Debug, PartialEq, Eq)]
pub enum Expr {
    /// `.`: the input itself.
    Identity,
    /// `.name`, or `.name?` when the flag is set: a record field or variant tag.
    Field(String, bool),
    /// `.[i]`: an element of a vec.
    Index(usize),
    /// `.[a:b]`: a part of a vec; either bound may be left out.
    Slice(Option<usize>, Option<usize>),
    /// `.[]`: each element of a vec.
    Iter,
    /// `length`: the number of elements of a vec, characters of a text,
    /// bytes of a blob or fields of a record.
    Length,
    /// `q | r`: `r` applied to each result of `q`.
    Pipe(Box<Expr>, Box<Expr>),
}

/// The mathematical model of an [`Expr`].
pub enum SpecExpr {
    Identity,
    Field(Seq<char>, bool),
    Index(usize),
    Slice(Option<usize>, Option<usize>),
    Iter,
    Length,
    Pipe(Box<SpecExpr>, Box<SpecExpr>),
}

pub open spec fn expr_view(e: Expr) -> SpecExpr
    decreases e,
{
    match e {
        Expr::Identity => SpecExpr::Identity,
        Expr::Field(n, o) => SpecExpr::Field(n@, o),
        Expr::Index(i) => SpecExpr::Index(i),
        Expr::Slice(a, b) => SpecExpr::Slice(a, b),
        Expr::Iter => SpecExpr::Iter,
        Expr::Length => SpecExpr::Length,
        Expr::Pipe(l, r) => SpecExpr::Pipe(Box::new(expr_view(*l)), Box::new(expr_view(*r))),
    }
}

impl View for Expr {
    type V = SpecExpr;

    open spec fn view(&self) -> SpecExpr {
        expr_view(*self)
    }
}

/// Why a query could not be parsed or evaluated.
#[derive(Debug, PartialEq, Eq)]
pub enum QueryError {
    /// A query (or a link of a chain or pipe) does not start with `.`.
    MustStartWithDot,
    /// Text is left after a complete query (the text, trimmed).
    UnexpectedCharacters(String),
    /// `.[]` with a `:`-less bound missing: `.[ ]` is iteration, `.[x]` needs a number.
    ExpectedIndex,
    /// A slice `.[a:b` is not closed by `]`.
    ExpectedCloseBracket,
    /// `.[` followed by neither `]`, a number, nor `:`.
    InvalidBracket,
    /// An index too large for `usize` (its digits).
    InvalidIndex(String),
    /// Field access on an argument list that does not hold one value (name, count).
    FieldNeedsSingleValue(String, usize),
    /// A record has no field of that name (name, a field it may have meant,
    /// the fields it has).
    UnknownField(String, Option<String>, Vec<String>),
    /// A variant's active tag is not the one asked for (active tag, name asked for).
    TagMismatch(String, String),
    /// Field access on a value that is neither record nor variant (name, kind).
    FieldNeedsRecord(String, String),
    /// Index access on an argument list that does not hold one value (index, count).
    IndexNeedsSingleValue(usize, usize),
    /// An index past the end of a vec (index, length).
    IndexOutOfBounds(usize, usize),
    /// Index access on a value that is not a vec (index, kind).
    IndexNeedsVec(usize, String),
    /// Slice access on an argument list that does not hold one value (count).
    SliceNeedsSingleValue(usize),
    /// A slice that starts past the end of the vec (start, length).
    SliceStartOutOfBounds(usize, usize),
    /// A slice whose end comes before its start (start, end).
    SliceEndBeforeStart(usize, usize),
    /// Slice access on a value that is not a vec (kind).
    SliceNeedsVec(String),
    /// `.[]` on an argument list that does not hold one value (count).
    IterNeedsSingleValue(usize),
    /// `.[]` on a value that is not a vec (kind).
    IterNeedsVec(String),
    /// `length` on an argument list that does not hold one value (count).
    LengthNeedsSingleValue(usize),
    /// `length` on a value that has no length (kind).
    LengthNeedsCollection(String),
}

/// The mathematical model of a [`QueryError`].
pub enum SpecQueryError {
    MustStartWithDot,
    UnexpectedCharacters(Seq<char>),
    ExpectedIndex,
    ExpectedCloseBracket,
    InvalidBracket,
    InvalidIndex(Seq<char>),
    FieldNeedsSingleValue(Seq<char>, usize),
    UnknownField(Seq<char>, Option<Seq<char>>, Seq<Seq<char>>),
    TagMismatch(Seq<char>, Seq<char>),
    FieldNeedsRecord(Seq<char>, Seq<char>),
    IndexNeedsSingleValue(usize, usize),
    IndexOutOfBounds(usize, usize),
    IndexNeedsVec(usize, Seq<char>),
    SliceNeedsSingleValue(usize),
    SliceStartOutOfBounds(usize, usize),
    SliceEndBeforeStart(usize, usize),
    SliceNeedsVec(Seq<char>),
    IterNeedsSingleValue(usize),
    IterNeedsVec(Seq<char>),
    LengthNeedsSingleValue(usize),
    LengthNeedsCollection(Seq<char>),
}

impl View for QueryError {
    type V = SpecQueryError;

    open spec fn view(&self) -> SpecQueryError {
        match self {
            QueryError::MustStartWithDot => SpecQueryError::MustStartWithDot,
            QueryError::UnexpectedCharacters(s) => SpecQueryError::UnexpectedCharacters(s@),
            QueryError::ExpectedIndex => SpecQueryError::ExpectedIndex,
            QueryError::ExpectedCloseBracket => SpecQueryError::ExpectedCloseBracket,
            QueryError::InvalidBracket => SpecQueryError::InvalidBracket,
            QueryError::InvalidIndex(s) => SpecQueryError::InvalidIndex(s@),
            QueryError::FieldNeedsSingleValue(n, c) => SpecQueryError::FieldNeedsSingleValue(n@, *c),
            QueryError::UnknownField(n, h, fs) => SpecQueryError::UnknownField(
                n@,
                match h {
                    Some(x) => Some(x@),
                    None => None,
                },
                fs@.map_values(|f: String| f@),
            ),
            QueryError::TagMismatch(a, n) => SpecQueryError::TagMismatch(a@, n@),
            QueryError::FieldNeedsRecord(n, k) => SpecQueryError::FieldNeedsRecord(n@, k@),
            QueryError::IndexNeedsSingleValue(i, c) => SpecQueryError::IndexNeedsSingleValue(*i, *c),
            QueryError::IndexOutOfBounds(i, n) => SpecQueryError::IndexOutOfBounds(*i, *n),
            QueryError::IndexNeedsVec(i, k) => SpecQueryError::IndexNeedsVec(*i, k@),
            QueryError::SliceNeedsSingleValue(c) => SpecQueryError::SliceNeedsSingleValue(*c),
            QueryError::SliceStartOutOfBounds(s, n) => SpecQueryError::SliceStartOutOfBounds(*s, *n),
            QueryError::SliceEndBeforeStart(s, e) => SpecQueryError::SliceEndBeforeStart(*s, *e),
            QueryError::SliceNeedsVec(k) => SpecQueryError::SliceNeedsVec(k@),
            QueryError::IterNeedsSingleValue(c) => SpecQueryError::IterNeedsSingleValue(*c),
            QueryError::IterNeedsVec(k) => SpecQueryError::IterNeedsVec(k@),
            QueryError::LengthNeedsSingleValue(c) => SpecQueryError::LengthNeedsSingleValue(*c),
            QueryError::LengthNeedsCollection(k) => SpecQueryError::LengthNeedsCollection(k@),
        }
    }
}

// ---------------------------------------------------------------------------
// Parsing, as functions of the trimmed query `t` and a position in it.
// ---------------------------------------------------------------------------

/// Characters that may make up a field name.
pub open spec fn ident_char(c: char) -> bool {
    unicode_alphanumeric(c) || c == '_'
}

/// The end of the field name that starts at `i`.
pub open spec fn ident_end(t: Seq<char>, i: int) -> int
    decreases t.len() - i,
{
    if 0 <= i < t.len() && ident_char(t[i]) {
        ident_end(t, i + 1)
    } else {
        i
    }
}

/// The end of the run of ASCII digits that starts at `i`.
pub open spec fn digits_end(t: Seq<char>, i: int) -> int
    decreases t.len() - i,
{
    if 0 <= i < t.len() && ascii_digit(t[i]) {
        digits_end(t, i + 1)
    } else {
        i
    }
}

/// The number that the decimal digits `ds` spell.
pub open spec fn digits_value(ds: Seq<char>) -> nat
    decreases ds.len(),
{
    if ds.len() == 0 {
        0
    } else {
        digits_value(ds.drop_last()) * 10 + (ds.last() as nat - 48) as nat
    }
}

/// An optional index at `i`: the digits there, if any, and the position after them.
pub open spec fn spec_index_number(t: Seq<char>, i: int) -> Result<(Option<usize>, int), SpecQueryError> {
    let e = digits_end(t, i);
    if e == i {
        Ok((None, i))
    } else if digits_value(t.subrange(i, e)) > usize::MAX {
        Err(SpecQueryError::InvalidIndex(t.subrange(i, e)))
    } else {
        Ok((Some(digits_value(t.subrange(i, e)) as usize), e))
    }
}

/// The bracket form that starts with the `[` at `a`: `[]`, `[i]` or `[a:b]`.
pub open spec fn spec_bracket(t: Seq<char>, a: int) -> Result<(SpecExpr, int), SpecQueryError> {
    let inner = ws_end(t, a + 1);
    if inner < t.len() && t[inner] == ']' {
        Ok((SpecExpr::Iter, inner + 1))
    } else {
        match spec_index_number(t, inner) {
            Err(e) => Err(e),
            Ok((first, af)) => {
                let af2 = ws_end(t, af);
                if af2 < t.len() && t[af2] == ']' {
                    match first {
                        None => Err(SpecQueryError::ExpectedIndex),
                        Some(n) => Ok((SpecExpr::Index(n), af2 + 1)),
                    }
                } else if af2 < t.len() && t[af2] == ':' {
                    match spec_index_number(t, ws_end(t, af2 + 1)) {
                        Err(e) => Err(e),
                        Ok((second, bs)) => {
                            let bs2 = ws_end(t, bs);
                            if bs2 < t.len() && t[bs2] == ']' {
                                Ok((SpecExpr::Slice(first, second), bs2 + 1))
                            } else {
                                Err(SpecQueryError::ExpectedCloseBracket)
                            }
                        },
                    }
                } else {
                    Err(SpecQueryError::InvalidBracket)
                }
            },
        }
    }
}

/// Whether the word `length`, and no longer name, stands at `s`.
pub open spec fn length_word_at(t: Seq<char>, s: int) -> bool {
    &&& 0 <= s
    &&& s + 6 <= t.len()
    &&& t.subrange(s, s + 6) == seq!['l', 'e', 'n', 'g', 't', 'h']
    &&& ident_end(t, s) == s + 6
}

/// One link of a chain at `i`: after optional whitespace, the builtin
/// `length`, or `.` then a bracket form, a field name (with an optional
/// `?`), or nothing (identity).
pub open spec fn spec_atom(t: Seq<char>, i: int) -> Result<(SpecExpr, int), SpecQueryError> {
    let s = ws_end(t, i);
    if !(s < t.len() && t[s] == '.') {
        if length_word_at(t, s) {
            Ok((SpecExpr::Length, s + 6))
        } else {
            Err(SpecQueryError::MustStartWithDot)
        }
    } else if s + 1 < t.len() && t[s + 1] == '[' {
        spec_bracket(t, s + 1)
    } else {
        let e = ident_end(t, s + 1);
        if e == s + 1 {
            Ok((SpecExpr::Identity, s + 1))
        } else if e < t.len() && t[e] == '?' {
            Ok((SpecExpr::Field(t.subrange(s + 1, e), true), e + 1))
        } else {
            Ok((SpecExpr::Field(t.subrange(s + 1, e), false), e))
        }
    }
}

/// Whether the text at `rt` continues a chain: a `.` followed by a letter, `_` or `[`.
pub open spec fn continues_chain(t: Seq<char>, rt: int) -> bool {
    &&& 0 <= rt
    &&& rt + 1 < t.len()
    &&& t[rt] == '.'
    &&& (unicode_alphabetic(t[rt + 1]) || t[rt + 1] == '_' || t[rt + 1] == '[')
}

/// A chain at `i`: a link, then further links written without `|`
/// (`.a.b` reads as `.a | .b`).  Positions only move forward, so the last
/// branch, which keeps the definition well-founded, is never taken.
pub open spec fn spec_chain(t: Seq<char>, i: int) -> Result<(SpecExpr, int), SpecQueryError>
    decreases t.len() - i, 1int,
{
    match spec_atom(t, i) {
        Err(e) => Err(e),
        Ok((atom, r)) => {
            let rt = ws_end(t, r);
            if !continues_chain(t, rt) {
                Ok((atom, r))
            } else if i < rt && rt <= t.len() {
                match spec_chain(t, rt) {
                    Err(e) => Err(e),
                    Ok((right, r2)) => Ok((SpecExpr::Pipe(Box::new(atom), Box::new(right)), r2)),
                }
            } else {
                Err(SpecQueryError::MustStartWithDot)
            }
        },
    }
}

/// A pipeline at `i`: chains separated by `|`, grouped to the right.
/// Returns the expression and the position after it and any whitespace.
/// Positions only move forward, so the last branch is never taken.
pub open spec fn spec_pipe(t: Seq<char>, i: int) -> Result<(SpecExpr, int), SpecQueryError>
    decreases t.len() - i, 2int,
{
    match spec_chain(t, i) {
        Err(e) => Err(e),
        Ok((left, r)) => {
            let r2 = ws_end(t, r);
            if !(r2 < t.len() && t[r2] == '|') {
                Ok((left, r2))
            } else if i < ws_end(t, r2 + 1) && ws_end(t, r2 + 1) <= t.len() {
                match spec_pipe(t, ws_end(t, r2 + 1)) {
                    Err(e) => Err(e),
                    Ok((right, r3)) => Ok((SpecExpr::Pipe(Box::new(left), Box::new(right)), r3)),
                }
            } else {
                Err(SpecQueryError::MustStartWithDot)
            }
        },
    }
}

/// The query `q` parsed: trimmed, a whole pipeline, nothing but whitespace after it.
pub open spec fn spec_parse(q: Seq<char>) -> Result<SpecExpr, SpecQueryError> {
    let t = trim(q);
    match spec_pipe(t, 0) {
        Err(e) => Err(e),
        Ok((e, r)) => {
            let rest = trim(t.subrange(r, t.len() as int));
            if rest.len() != 0 {
                Err(SpecQueryError::UnexpectedCharacters(rest))
            } else {
                Ok(e)
            }
        },
    }
}


/// The exec parser `res` agrees with the spec parser `spec`.
pub open spec fn parsed_as(spec: Result<(SpecExpr, int), SpecQueryError>, res: Result<(Expr, usize), QueryError>) -> bool {
    match spec {
        Ok((e, r)) => res matches Ok((x, p)) && x@ == e && p == r,
        Err(e) => res matches Err(x) && x@ == e,
    }
}

fn scan_ident(t: &Vec<char>, i: usize) -> (r: usize)
    requires
        i <= t@.len(),
    ensures
        r as int == ident_end(t@, i as int),
        i <= r <= t@.len(),
{
    let mut j = i;
    while j < t.len() && (is_alphanumeric(t[j]) || t[j] == '_')
        invariant
            i <= j <= t@.len(),
            ident_end(t@, i as int) == ident_end(t@, j as int),
        decreases t.len() - j,
    {
        j = j + 1;
    }
    j
}

proof fn lemma_digits_value_grows(ds: Seq<char>, c: char)
    ensures
        digits_value(ds.push(c)) >= digits_value(ds),
        digits_value(ds.push(c)) == digits_value(ds) * 10 + (c as nat - 48) as nat,
{
    assert(ds.push(c).drop_last() =~= ds);
}

fn parse_index_number(t: &Vec<char>, i: usize) -> (res: Result<(Option<usize>, usize), QueryError>)
    requires
        i <= t@.len(),
    ensures
        match spec_index_number(t@, i as int) {
            Ok((n, r)) => res matches Ok((m, p)) && m == n && p == r && i <= r <= t@.len(),
            Err(e) => res matches Err(x) && x@ == e,
        },
{
    let mut k = i;
    let mut v: usize = 0;
    let mut overflow = false;
    proof {
        assert(t@.subrange(i as int, i as int) =~= Seq::<char>::empty());
    }
    while k < t.len() && '0' <= t[k] && t[k] <= '9'
        invariant
            i <= k <= t@.len(),
            digits_end(t@, i as int) == digits_end(t@, k as int),
            overflow ==> digits_value(t@.subrange(i as int, k as int)) > usize::MAX,
            !overflow ==> v == digits_value(t@.subrange(i as int, k as int)),
        decreases t.len() - k,
    {
        let c = t[k];
        proof {
            assert(t@.subrange(i as int, k + 1) =~= t@.subrange(i as int, k as int).push(c));
            lemma_digits_value_grows(t@.subrange(i as int, k as int), c);
        }
        if !overflow {
            let d = (c as u32 - 48) as usize;
            match v.checked_mul(10) {
                Some(v10) => match v10.checked_add(d) {
                    Some(w) => {
                        v = w;
                    },
                    None => {
                        overflow = true;
                    },
                },
                None => {
                    overflow = true;
                    assert(digits_value(t@.subrange(i as int, k + 1)) >= v * 10) by (nonlinear_arith)
                        requires
                            digits_value(t@.subrange(i as int, k + 1)) == v * 10
                                + (c as nat - 48) as nat,
                    ;
                },
            }
        }
        k = k + 1;
    }
    if k == i {
        return Ok((None, i));
    }
    if overflow {
        return Err(QueryError::InvalidIndex(string_of(t.as_slice(), i, k)));
    }
    Ok((Some(v), k))
}

fn parse_bracket(t: &Vec<char>, a: usize) -> (res: Result<(Expr, usize), QueryError>)
    requires
        a < t@.len(),
    ensures
        parsed_as(spec_bracket(t@, a as int), res),
        res matches Ok((_, r)) ==> a < r <= t@.len(),
{
    let n = t.len();
    let inner = skip_ws(t, a + 1);
    if inner < t.len() && t[inner] == ']' {
        return Ok((Expr::Iter, inner + 1));
    }
    let (first, af) = parse_index_number(t, inner)?;
    let af2 = skip_ws(t, af);
    if af2 < t.len() && t[af2] == ']' {
        match first {
            None => Err(QueryError::ExpectedIndex),
            Some(n) => Ok((Expr::Index(n), af2 + 1)),
        }
    } else if af2 < t.len() && t[af2] == ':' {
        let bs0 = skip_ws(t, af2 + 1);
        let (second, bs) = parse_index_number(t, bs0)?;
        let bs2 = skip_ws(t, bs);
        if bs2 < t.len() && t[bs2] == ']' {
            Ok((Expr::Slice(first, second), bs2 + 1))
        } else {
            Err(QueryError::ExpectedCloseBracket)
        }
    } else {
        Err(QueryError::InvalidBracket)
    }
}

fn parse_atom(t: &Vec<char>, i: usize) -> (res: Result<(Expr, usize), QueryError>)
    requires
        i <= t@.len(),
    ensures
        parsed_as(spec_atom(t@, i as int), res),
        res matches Ok((_, r)) ==> i < r <= t@.len(),
{
    let s = skip_ws(t, i);
    if !(s < t.len() && t[s] == '.') {
        if s < t.len() && t.len() - s >= 6 && t[s] == 'l' && t[s + 1] == 'e' && t[s + 2] == 'n' && t[s + 3] == 'g'
            && t[s + 4] == 't' && t[s + 5] == 'h' && scan_ident(t, s) == s + 6 {
            assert(t@.subrange(s as int, s + 6) =~= seq!['l', 'e', 'n', 'g', 't', 'h']);
            return Ok((Expr::Length, s + 6));
        }
        proof {
            if length_word_at(t@, s as int) {
                let w = t@.subrange(s as int, s + 6);
                assert(w[0] == t@[s as int] && w[1] == t@[s + 1] && w[2] == t@[s + 2]);
                assert(w[3] == t@[s + 3] && w[4] == t@[s + 4] && w[5] == t@[s + 5]);
            }
        }
        return Err(QueryError::MustStartWithDot);
    }
    if s + 1 < t.len() && t[s + 1] == '[' {
        return parse_bracket(t, s + 1);
    }
    let e = scan_ident(t, s + 1);
    if e == s + 1 {
        Ok((Expr::Identity, s + 1))
    } else if e < t.len() && t[e] == '?' {
        Ok((Expr::Field(string_of(t.as_slice(), s + 1, e), true), e + 1))
    } else {
        Ok((Expr::Field(string_of(t.as_slice(), s + 1, e), false), e))
    }
}

fn parse_chain(t: &Vec<char>, i: usize) -> (res: Result<(Expr, usize), QueryError>)
    requires
        i <= t@.len(),
    ensures
        parsed_as(spec_chain(t@, i as int), res),
        res matches Ok((_, r)) ==> i < r <= t@.len(),
    decreases t@.len() - i, 1int,
{
    let (atom, r) = parse_atom(t, i)?;
    chain_tail(t, i, atom, r)
}

fn chain_tail(t: &Vec<char>, i: usize, atom: Expr, r: usize) -> (res: Result<(Expr, usize), QueryError>)
    requires
        i < r <= t@.len(),
        spec_atom(t@, i as int) == Ok::<(SpecExpr, int), SpecQueryError>((atom@, r as int)),
    ensures
        parsed_as(spec_chain(t@, i as int), res),
        res matches Ok((_, r2)) ==> i < r2 <= t@.len(),
    decreases t@.len() - i, 0int,
{
    let rt = skip_ws(t, r);
    if rt < t.len() && rt + 1 < t.len() && t[rt] == '.' && (is_alphabetic(t[rt + 1]) || t[rt + 1] == '_' || t[rt + 1] == '[') {
        let (right, r2) = parse_chain(t, rt)?;
        Ok((Expr::Pipe(Box::new(atom), Box::new(right)), r2))
    } else {
        Ok((atom, r))
    }
}

fn parse_pipe(t: &Vec<char>, i: usize) -> (res: Result<(Expr, usize), QueryError>)
    requires
        i <= t@.len(),
    ensures
        parsed_as(spec_pipe(t@, i as int), res),
        res matches Ok((_, r)) ==> i < r <= t@.len(),
    decreases t@.len() - i, 2int,
{
    let (left, r) = parse_chain(t, i)?;
    let r2 = skip_ws(t, r);
    if r2 < t.len() && t[r2] == '|' {
        let k = skip_ws(t, r2 + 1);
        let (right, r3) = parse_pipe(t, k)?;
        Ok((Expr::Pipe(Box::new(left), Box::new(right)), r3))
    } else {
        Ok((left, r2))
    }
}

/// Parses the query `q`.
pub fn parse(q: &str) -> (res: Result<Expr, QueryError>)
    ensures
        match spec_parse(q@) {
            Ok(e) => res matches Ok(x) && x@ == e,
            Err(e) => res matches Err(x) && x@ == e,
        },
{
    let chars = chars_of(q);
    parse_chars(&chars)
}

/// Parses the query whose characters are `q`.
fn parse_chars(q: &Vec<char>) -> (res: Result<Expr, QueryError>)
    ensures
        match spec_parse(q@) {
            Ok(e) => res matches Ok(x) && x@ == e,
            Err(e) => res matches Err(x) && x@ == e,
        },
{
    let t = trimmed(q);
    let (e, r) = parse_pipe(&t, 0)?;
    let mut rest: Vec<char> = Vec::new();
    let mut k = r;
    while k < t.len()
        invariant
            r <= k <= t@.len(),
            rest@ == t@.subrange(r as int, k as int),
        decreases t.len() - k,
    {
        rest.push(t[k]);
        k = k + 1;
        assert(rest@ =~= t@.subrange(r as int, k as int));
    }
    let rest = trimmed(&rest);
    if rest.len() != 0 {
        assert(rest@.subrange(0, rest@.len() as int) =~= rest@);
        return Err(QueryError::UnexpectedCharacters(string_of(rest.as_slice(), 0, rest.len())));
    }
    Ok(e)
}

// ---------------------------------------------------------------------------
// Evaluation.  An argument list is modelled as the sequence of its values; a
// query maps one argument list to a sequence of argument lists.
// ---------------------------------------------------------------------------

/// The position of the first field at or after `k` whose label names `name`.
pub open spec fn first_match(fs: Seq<SpecField>, name: Seq<char>, k: nat) -> Option<nat>
    decreases fs.len() - k,
{
    if k >= fs.len() {
        None
    } else if label_matches(fs[k as int].id, name) {
        Some(k)
    } else {
        first_match(fs, name, k + 1)
    }
}

/// Whether one of `a` and `b` is a proper prefix of the other.
pub open spec fn near(a: Seq<char>, b: Seq<char>) -> bool {
    ||| (a.len() < b.len() && b.subrange(0, a.len() as int) == a)
    ||| (b.len() < a.len() && a.subrange(0, b.len() as int) == b)
}

/// The first of `labels` from `k` on that is near `name`: the field that a
/// mistyped `name` may have meant.
pub open spec fn suggestion(name: Seq<char>, labels: Seq<Seq<char>>, k: nat) -> Option<Seq<char>>
    decreases labels.len() - k,
{
    if k >= labels.len() {
        None
    } else if near(name, labels[k as int]) {
        Some(labels[k as int])
    } else {
        suggestion(name, labels, k + 1)
    }
}

/// The error for a record with the fields `labels` and none named `name`.
pub open spec fn unknown_field(name: Seq<char>, labels: Seq<Seq<char>>) -> SpecQueryError {
    SpecQueryError::UnknownField(name, suggestion(name, labels, 0), labels)
}

/// What `.name` gives for the value `v` it finds: `v` itself; what `.name?`
/// gives: an opt's content, nothing for an empty opt, any other `v` itself.
pub open spec fn found(v: SpecValue, optional: bool) -> Seq<SpecValue> {
    if optional {
        match v {
            SpecValue::Opt(b) => seq![*b],
            SpecValue::OptNone => Seq::empty(),
            _ => seq![v],
        }
    } else {
        seq![v]
    }
}

/// `.name` (`.name?` when `optional`): the value of the first record field,
/// or the payload of the active variant tag, named `name`.
pub open spec fn spec_field(a: Seq<SpecValue>, name: Seq<char>, optional: bool) -> Result<Seq<SpecValue>, SpecQueryError> {
    if a.len() != 1 {
        Err(SpecQueryError::FieldNeedsSingleValue(name, a.len() as usize))
    } else {
        match a[0] {
            SpecValue::Record(fs) => match first_match(fs, name, 0) {
                Some(k) => Ok(found(fs[k as int].val, optional)),
                None => if optional {
                    Ok(Seq::empty())
                } else {
                    Err(unknown_field(name, fs.map_values(|f: SpecField| label_text(f.id))))
                },
            },
            SpecValue::Variant(f, _) => if label_matches(f.id, name) {
                Ok(found(f.val, optional))
            } else if optional {
                Ok(Seq::empty())
            } else {
                Err(SpecQueryError::TagMismatch(label_text(f.id), name))
            },
            v => Err(SpecQueryError::FieldNeedsRecord(name, kind_name_of(v))),
        }
    }
}

/// The position of the first field at or after `k` whose label binary
/// Candid knows by the number `id`.
pub open spec fn first_id_match(fs: Seq<SpecField>, id: usize, k: nat) -> Option<nat>
    decreases fs.len() - k,
{
    if k >= fs.len() {
        None
    } else if label_hash(fs[k as int].id) as int == id as int {
        Some(k)
    } else {
        first_id_match(fs, id, k + 1)
    }
}

/// `.[i]`: element `i` of the single vec in `a`; on a record, the first
/// field whose label is known by the number `i` (a name by its hash).
pub open spec fn spec_index(a: Seq<SpecValue>, i: usize) -> Result<SpecValue, SpecQueryError> {
    if a.len() != 1 {
        Err(SpecQueryError::IndexNeedsSingleValue(i, a.len() as usize))
    } else {
        match a[0] {
            SpecValue::Vec(items) => if i < items.len() {
                Ok(items[i as int])
            } else {
                Err(SpecQueryError::IndexOutOfBounds(i, items.len() as usize))
            },
            SpecValue::Record(fs) => match first_id_match(fs, i, 0) {
                Some(k) => Ok(fs[k as int].val),
                None => Err(unknown_field(decimal(i as nat), fs.map_values(|f: SpecField| label_text(f.id)))),
            },
            v => Err(SpecQueryError::IndexNeedsVec(i, kind_name_of(v))),
        }
    }
}

/// `.[a:b]`: the elements from `a` (default 0) up to `b` (default and at most
/// the length) of the single vec in `a`, as a vec.
pub open spec fn spec_slice(a: Seq<SpecValue>, start: Option<usize>, end: Option<usize>) -> Result<SpecValue, SpecQueryError> {
    if a.len() != 1 {
        Err(SpecQueryError::SliceNeedsSingleValue(a.len() as usize))
    } else {
        match a[0] {
            SpecValue::Vec(items) => {
                let n = items.len();
                let s: int = match start { Some(x) => x as int, None => 0 };
                let e0: int = match end { Some(x) => x as int, None => n as int };
                let e = if e0 < n { e0 } else { n as int };
                if s > n {
                    Err(SpecQueryError::SliceStartOutOfBounds(s as usize, n as usize))
                } else if e < s {
                    Err(SpecQueryError::SliceEndBeforeStart(s as usize, e as usize))
                } else {
                    Ok(SpecValue::Vec(items.subrange(s, e)))
                }
            },
            v => Err(SpecQueryError::SliceNeedsVec(kind_name_of(v))),
        }
    }
}

/// `.[]`: each element of the single vec in `a`, as an argument list of its own.
pub open spec fn spec_iter(a: Seq<SpecValue>) -> Result<Seq<Seq<SpecValue>>, SpecQueryError> {
    if a.len() != 1 {
        Err(SpecQueryError::IterNeedsSingleValue(a.len() as usize))
    } else {
        match a[0] {
            SpecValue::Vec(items) => Ok(items.map_values(|v: SpecValue| seq![v])),
            v => Err(SpecQueryError::IterNeedsVec(kind_name_of(v))),
        }
    }
}

/// `length`: the size of the single value in `a`.
pub open spec fn spec_length(a: Seq<SpecValue>) -> Result<Seq<Seq<SpecValue>>, SpecQueryError> {
    if a.len() != 1 {
        Err(SpecQueryError::LengthNeedsSingleValue(a.len() as usize))
    } else {
        let n: Option<nat> = match a[0] {
            SpecValue::Vec(items) => Some(items.len()),
            SpecValue::Text(t) => Some(t.len()),
            SpecValue::Blob(b) => Some(b.len()),
            SpecValue::Record(fs) => Some(fs.len()),
            _ => None,
        };
        match n {
            Some(n) => Ok(seq![seq![SpecValue::Nat(decimal(n))]]),
            None => Err(SpecQueryError::LengthNeedsCollection(kind_name_of(a[0]))),
        }
    }
}

/// The results of query `e` on the argument list `a`, in order.
pub open spec fn spec_eval(e: SpecExpr, a: Seq<SpecValue>) -> Result<Seq<Seq<SpecValue>>, SpecQueryError>
    decreases e, 0int,
{
    match e {
        SpecExpr::Identity => Ok(seq![a]),
        SpecExpr::Field(n, o) => match spec_field(a, n, o) {
            Err(er) => Err(er),
            Ok(vs) => Ok(vs.map_values(|v: SpecValue| seq![v])),
        },
        SpecExpr::Index(i) => match spec_index(a, i) {
            Err(er) => Err(er),
            Ok(v) => Ok(seq![seq![v]]),
        },
        SpecExpr::Slice(s, t) => match spec_slice(a, s, t) {
            Err(er) => Err(er),
            Ok(v) => Ok(seq![seq![v]]),
        },
        SpecExpr::Iter => spec_iter(a),
        SpecExpr::Length => spec_length(a),
        SpecExpr::Pipe(l, r) => match spec_eval(*l, a) {
            Err(er) => Err(er),
            Ok(xs) => spec_eval_each(*r, xs, 0, Seq::empty()),
        },
    }
}

/// `acc` followed by the results of `e` on each of `xs[k..]`, in order; the
/// first error stops the whole.
pub open spec fn spec_eval_each(e: SpecExpr, xs: Seq<Seq<SpecValue>>, k: nat, acc: Seq<Seq<SpecValue>>) -> Result<Seq<Seq<SpecValue>>, SpecQueryError>
    decreases e, xs.len() - k + 1,
{
    if k >= xs.len() {
        Ok(acc)
    } else {
        match spec_eval(e, xs[k as int]) {
            Err(er) => Err(er),
            Ok(ys) => spec_eval_each(e, xs, k + 1, acc + ys),
        }
    }
}

/// The model of a list of argument lists.
pub open spec fn results_view(rs: Seq<Args>) -> Seq<Seq<SpecValue>> {
    rs.map_values(|a: Args| a@)
}

/// The exec result `res` agrees with the model result `spec`.
pub open spec fn evaluated_as(spec: Result<Seq<Seq<SpecValue>>, SpecQueryError>, res: Result<Vec<Args>, QueryError>) -> bool {
    match spec {
        Ok(rs) => res matches Ok(v) && results_view(v@) == rs,
        Err(e) => res matches Err(x) && x@ == e,
    }
}

/// Whether `p` is a proper prefix of `w`.
fn proper_prefix(p: &Vec<char>, w: &Vec<char>) -> (r: bool)
    ensures
        r == (p@.len() < w@.len() && w@.subrange(0, p@.len() as int) == p@),
{
    if p.len() >= w.len() {
        return false;
    }
    let mut i: usize = 0;
    while i < p.len()
        invariant
            p@.len() < w@.len(),
            i <= p@.len(),
            forall|j: int| 0 <= j < i ==> p@[j] == w@[j],
        decreases p.len() - i,
    {
        if p[i] != w[i] {
            assert(w@.subrange(0, p@.len() as int)[i as int] != p@[i as int]);
            return false;
        }
        i = i + 1;
    }
    assert(w@.subrange(0, p@.len() as int) =~= p@);
    true
}

/// Whether one of `a` and `b` is a proper prefix of the other.
fn is_near(a: &String, b: &String) -> (r: bool)
    ensures
        r == near(a@, b@),
{
    let x = chars_of(a.as_str());
    let y = chars_of(b.as_str());
    proper_prefix(&x, &y) || proper_prefix(&y, &x)
}

/// The first of `labels` near `name`.
fn suggest(name: &String, labels: &Vec<String>) -> (r: Option<String>)
    ensures
        match suggestion(name@, labels@.map_values(|f: String| f@), 0) {
            Some(x) => r matches Some(y) && y@ == x,
            None => r is None,
        },
{
    let ghost ls = labels@.map_values(|f: String| f@);
    let mut k: usize = 0;
    while k < labels.len()
        invariant
            k <= labels@.len(),
            ls == labels@.map_values(|f: String| f@),
            suggestion(name@, ls, 0) == suggestion(name@, ls, k as nat),
        decreases labels.len() - k,
    {
        assert(ls[k as int] == labels@[k as int]@);
        if is_near(name, &labels[k]) {
            return Some(labels[k].clone());
        }
        k = k + 1;
    }
    None
}

/// The results for the value `v` that `.name` (`.name?` when `optional`) found.
fn found_results(v: &Value, optional: bool) -> (r: Vec<Args>)
    ensures
        results_view(r@) == found(v@, optional).map_values(|x: SpecValue| seq![x]),
{
    let mut out: Vec<Args> = Vec::new();
    if optional {
        match v {
            Value::Opt(b) => {
                out.push(Args::single(copy_value(b)));
                assert(results_view(out@) =~= found(v@, optional).map_values(|x: SpecValue| seq![x]));
            },
            Value::OptNone => {
                assert(results_view(out@) =~= found(v@, optional).map_values(|x: SpecValue| seq![x]));
            },
            _ => {
                out.push(Args::single(copy_value(v)));
                assert(results_view(out@) =~= found(v@, optional).map_values(|x: SpecValue| seq![x]));
            },
        }
    } else {
        out.push(Args::single(copy_value(v)));
        assert(results_view(out@) =~= found(v@, optional).map_values(|x: SpecValue| seq![x]));
    }
    out
}

fn extract_field(args: &Args, name: &String, optional: bool) -> (res: Result<Vec<Args>, QueryError>)
    ensures
        match spec_field(args@, name@, optional) {
            Ok(vs) => res matches Ok(v) && results_view(v@) == vs.map_values(|x: SpecValue| seq![x]),
            Err(e) => res matches Err(x) && x@ == e,
        },
{
    proof {
        lemma_values_view_index(args.args@);
    }
    if args.args.len() != 1 {
        return Err(QueryError::FieldNeedsSingleValue(name.clone(), args.args.len()));
    }
    let hash = idl_hash(name.as_str());
    match &args.args[0] {
        Value::Record(fields) => {
            proof {
                lemma_fields_view_index(fields@);
                assert(args@[0] == SpecValue::Record(fields_view(fields@)));
            }
            let mut k: usize = 0;
            while k < fields.len()
                invariant
                    k <= fields@.len(),
                    args@.len() == 1,
                    args@[0] == SpecValue::Record(fields_view(fields@)),
                    hash == crate::value::idl_hash_of(vstd::utf8::encode_utf8(name@)),
                    fields_view(fields@).len() == fields@.len(),
                    forall|j: int| 0 <= j < fields@.len() ==> #[trigger] fields_view(fields@)[j] == fields@[j]@,
                    first_match(fields_view(fields@), name@, 0) == first_match(fields_view(fields@), name@, k as nat),
                decreases fields.len() - k,
            {
                if label_is(&fields[k].id, name, hash) {
                    assert(fields_view(fields@)[k as int] == fields@[k as int]@);
                    assert(first_match(fields_view(fields@), name@, k as nat) == Some(k as nat));
                    return Ok(found_results(&fields[k].val, optional));
                }
                k = k + 1;
            }
            if optional {
                let out: Vec<Args> = Vec::new();
                assert(results_view(out@) =~= Seq::<SpecValue>::empty().map_values(|x: SpecValue| seq![x]));
                return Ok(out);
            }
            Err(unknown_field_error(name.clone(), fields))
        },
        Value::Variant(f, _) => {
            if label_is(&f.id, name, hash) {
                Ok(found_results(&f.val, optional))
            } else if optional {
                let out: Vec<Args> = Vec::new();
                assert(results_view(out@) =~= Seq::<SpecValue>::empty().map_values(|x: SpecValue| seq![x]));
                Ok(out)
            } else {
                Err(QueryError::TagMismatch(label_display(&f.id), name.clone()))
            }
        },
        other => Err(QueryError::FieldNeedsRecord(name.clone(), kind_name(other).to_owned())),
    }
}

/// The error for the fields `fields`, none of which is named `name`.
fn unknown_field_error(name: String, fields: &Vec<Field>) -> (e: QueryError)
    ensures
        e@ == unknown_field(name@, fields_view(fields@).map_values(|f: SpecField| label_text(f.id))),
{
    proof {
        lemma_fields_view_index(fields@);
    }
    let mut available: Vec<String> = Vec::new();
    let mut j: usize = 0;
    while j < fields.len()
        invariant
            j <= fields@.len(),
            fields_view(fields@).len() == fields@.len(),
            forall|i: int| 0 <= i < fields@.len() ==> #[trigger] fields_view(fields@)[i] == fields@[i]@,
            available@.map_values(|f: String| f@) == fields_view(fields@).subrange(0, j as int).map_values(|f: SpecField| label_text(f.id)),
        decreases fields.len() - j,
    {
        let ghost before = available@;
        let d = label_display(&fields[j].id);
        assert(fields_view(fields@)[j as int] == fields@[j as int]@);
        assert(d@ == label_text(fields_view(fields@)[j as int].id));
        available.push(d);
        assert(available@.map_values(|f: String| f@) =~= before.map_values(|f: String| f@).push(d@));
        assert(fields_view(fields@).subrange(0, j + 1).map_values(|f: SpecField| label_text(f.id))
            =~= fields_view(fields@).subrange(0, j as int).map_values(|f: SpecField| label_text(f.id)).push(d@));
        j = j + 1;
        assert(available@.map_values(|f: String| f@) =~= fields_view(fields@).subrange(0, j as int).map_values(|f: SpecField| label_text(f.id)));
    }
    assert(fields_view(fields@).subrange(0, fields@.len() as int) =~= fields_view(fields@));
    let hint = suggest(&name, &available);
    QueryError::UnknownField(name, hint, available)
}

/// The number by which binary Candid knows the label `l`.
fn label_number(l: &Label) -> (r: u32)
    ensures
        r == label_hash(l@),
{
    match l {
        Label::Id(h) => *h,
        Label::Unnamed(h) => *h,
        Label::Named(n) => idl_hash(n.as_str()),
    }
}

fn extract_index(args: &Args, i: usize) -> (res: Result<Value, QueryError>)
    ensures
        match spec_index(args@, i) {
            Ok(v) => res matches Ok(x) && x@ == v,
            Err(e) => res matches Err(x) && x@ == e,
        },
{
    proof {
        lemma_values_view_index(args.args@);
    }
    if args.args.len() != 1 {
        return Err(QueryError::IndexNeedsSingleValue(i, args.args.len()));
    }
    match &args.args[0] {
        Value::Vec(items) => {
            proof {
                lemma_values_view_index(items@);
            }
            if i < items.len() {
                Ok(copy_value(&items[i]))
            } else {
                Err(QueryError::IndexOutOfBounds(i, items.len()))
            }
        },
        Value::Record(fields) => {
            proof {
                lemma_fields_view_index(fields@);
                assert(args@[0] == SpecValue::Record(fields_view(fields@)));
            }
            let mut k: usize = 0;
            while k < fields.len()
                invariant
                    k <= fields@.len(),
                    fields_view(fields@).len() == fields@.len(),
                    forall|j: int| 0 <= j < fields@.len() ==> #[trigger] fields_view(fields@)[j] == fields@[j]@,
                    first_id_match(fields_view(fields@), i, 0) == first_id_match(fields_view(fields@), i, k as nat),
                    args@.len() == 1,
                    args@[0] == SpecValue::Record(fields_view(fields@)),
                decreases fields.len() - k,
            {
                assert(fields_view(fields@)[k as int] == fields@[k as int]@);
                if label_number(&fields[k].id) as usize == i {
                    assert(first_id_match(fields_view(fields@), i, k as nat) == Some(k as nat));
                    return Ok(copy_value(&fields[k].val));
                }
                k = k + 1;
            }
            let mut name = String::new();
            push_decimal(&mut name, i as u64);
            Err(unknown_field_error(name, fields))
        },
        other => Err(QueryError::IndexNeedsVec(i, kind_name(other).to_owned())),
    }
}

fn extract_slice(args: &Args, start: Option<usize>, end: Option<usize>) -> (res: Result<Value, QueryError>)
    ensures
        match spec_slice(args@, start, end) {
            Ok(v) => res matches Ok(x) && x@ == v,
            Err(e) => res matches Err(x) && x@ == e,
        },
{
    proof {
        lemma_values_view_index(args.args@);
    }
    if args.args.len() != 1 {
        return Err(QueryError::SliceNeedsSingleValue(args.args.len()));
    }
    match &args.args[0] {
        Value::Vec(items) => {
            proof {
                lemma_values_view_index(items@);
            }
            let len = items.len();
            let s = match start {
                Some(x) => x,
                None => 0,
            };
            let e0 = match end {
                Some(x) => x,
                None => len,
            };
            let e = if e0 < len { e0 } else { len };
            if s > len {
                return Err(QueryError::SliceStartOutOfBounds(s, len));
            }
            if e < s {
                return Err(QueryError::SliceEndBeforeStart(s, e));
            }
            Ok(Value::Vec(copy_values(items, s, e)))
        },
        other => Err(QueryError::SliceNeedsVec(kind_name(other).to_owned())),
    }
}

fn extract_iter(args: &Args) -> (res: Result<Vec<Args>, QueryError>)
    ensures
        evaluated_as(spec_iter(args@), res),
{
    proof {
        lemma_values_view_index(args.args@);
    }
    if args.args.len() != 1 {
        return Err(QueryError::IterNeedsSingleValue(args.args.len()));
    }
    match &args.args[0] {
        Value::Vec(items) => {
            proof {
                lemma_values_view_index(items@);
            }
            let mut out: Vec<Args> = Vec::new();
            let mut k: usize = 0;
            while k < items.len()
                invariant
                    k <= items@.len(),
                    values_view(items@).len() == items@.len(),
                    forall|j: int| 0 <= j < items@.len() ==> #[trigger] values_view(items@)[j] == items@[j]@,
                    results_view(out@) == values_view(items@).subrange(0, k as int).map_values(|v: SpecValue| seq![v]),
                decreases items.len() - k,
            {
                let a = Args::single(copy_value(&items[k]));
                let ghost before = out@;
                out.push(a);
                assert(results_view(out@) =~= results_view(before).push(seq![values_view(items@)[k as int]]));
                assert(values_view(items@).subrange(0, k + 1).map_values(|v: SpecValue| seq![v])
                    =~= values_view(items@).subrange(0, k as int).map_values(|v: SpecValue| seq![v]).push(seq![values_view(items@)[k as int]]));
                k = k + 1;
                assert(results_view(out@) =~= values_view(items@).subrange(0, k as int).map_values(|v: SpecValue| seq![v]));
            }
            assert(values_view(items@).subrange(0, items@.len() as int) =~= values_view(items@));
            Ok(out)
        },
        other => Err(QueryError::IterNeedsVec(kind_name(other).to_owned())),
    }
}

fn extract_length(args: &Args) -> (res: Result<Vec<Args>, QueryError>)
    ensures
        evaluated_as(spec_length(args@), res),
{
    proof {
        lemma_values_view_index(args.args@);
    }
    if args.args.len() != 1 {
        return Err(QueryError::LengthNeedsSingleValue(args.args.len()));
    }
    let n: usize = match &args.args[0] {
        Value::Vec(items) => {
            proof {
                lemma_values_view_index(items@);
            }
            items.len()
        },
        Value::Text(t) => chars_of(t.as_str()).len(),
        Value::Blob(b) => b.len(),
        Value::Record(fs) => {
            proof {
                lemma_fields_view_index(fs@);
            }
            fs.len()
        },
        other => {
            return Err(QueryError::LengthNeedsCollection(kind_name(other).to_owned()));
        },
    };
    let mut digits = String::new();
    push_decimal(&mut digits, n as u64);
    let mut out: Vec<Args> = Vec::new();
    out.push(Args::single(Value::Nat(digits)));
    assert(results_view(out@) =~= seq![seq![SpecValue::Nat(decimal(n as nat))]]);
    Ok(out)
}

fn eval_expr(e: &Expr, args: &Args) -> (res: Result<Vec<Args>, QueryError>)
    ensures
        evaluated_as(spec_eval(e@, args@), res),
    decreases e, 0int,
{
    match e {
        Expr::Identity => {
            let mut out: Vec<Args> = Vec::new();
            out.push(args.copy());
            assert(results_view(out@) =~= seq![args@]);
            Ok(out)
        },
        Expr::Field(name, optional) => extract_field(args, name, *optional),
        Expr::Index(i) => {
            let v = extract_index(args, *i)?;
            let mut out: Vec<Args> = Vec::new();
            out.push(Args::single(v));
            assert(results_view(out@) =~= seq![seq![v@]]);
            Ok(out)
        },
        Expr::Slice(s, t) => {
            let v = extract_slice(args, *s, *t)?;
            let mut out: Vec<Args> = Vec::new();
            out.push(Args::single(v));
            assert(results_view(out@) =~= seq![seq![v@]]);
            Ok(out)
        },
        Expr::Iter => extract_iter(args),
        Expr::Length => extract_length(args),
        Expr::Pipe(l, r) => {
            let xs = eval_expr(l, args)?;
            eval_each(r, &xs)
        },
    }
}

fn eval_each(e: &Expr, xs: &Vec<Args>) -> (res: Result<Vec<Args>, QueryError>)
    ensures
        evaluated_as(spec_eval_each(e@, results_view(xs@), 0, Seq::empty()), res),
    decreases e, xs@.len() + 1,
{
    let mut out: Vec<Args> = Vec::new();
    let mut k: usize = 0;
    assert(results_view(out@) =~= Seq::<Seq<SpecValue>>::empty());
    while k < xs.len()
        invariant
            k <= xs@.len(),
            spec_eval_each(e@, results_view(xs@), 0, Seq::empty())
                == spec_eval_each(e@, results_view(xs@), k as nat, results_view(out@)),
        decreases xs.len() - k,
    {
        assert(results_view(xs@)[k as int] == xs@[k as int]@);
        let mut ys = eval_expr(e, &xs[k])?;
        let ghost before = out@;
        let ghost ys0 = ys@;
        out.append(&mut ys);
        assert(results_view(out@) =~= results_view(before) + results_view(ys0));
        k = k + 1;
    }
    Ok(out)
}

/// The results of the query `q` (none: the identity) on the argument list `a`.
/// An absent or empty query and the query `.` hand `a` back unparsed.
pub open spec fn spec_evaluate(a: Seq<SpecValue>, q: Option<Seq<char>>) -> Result<Seq<Seq<SpecValue>>, SpecQueryError> {
    match q {
        None => Ok(seq![a]),
        Some(s) => if s.len() == 0 || trim(s) == seq!['.'] {
            Ok(seq![a])
        } else {
            match spec_parse(trim(s)) {
                Err(e) => Err(e),
                Ok(e) => spec_eval(e, a),
            }
        },
    }
}

/// Runs the query `expr` (none: the identity) on `args`; each result is an
/// argument list of its own, in the order the query produces them.
pub fn evaluate(args: Args, expr: Option<&str>) -> (res: Result<Vec<Args>, QueryError>)
    ensures
        evaluated_as(spec_evaluate(args@, match expr { Some(s) => Some(s@), None => None }), res),
{
    let q = match expr {
        None => {
            let ghost a = args@;
            let mut out: Vec<Args> = Vec::new();
            out.push(args);
            assert(results_view(out@) =~= seq![a]);
            return Ok(out);
        },
        Some(q) => q,
    };
    if q.is_empty() {
        let ghost a = args@;
        let mut out: Vec<Args> = Vec::new();
        out.push(args);
        assert(results_view(out@) =~= seq![a]);
        return Ok(out);
    }
    let chars = chars_of(q);
    let t = trimmed(&chars);
    if t.len() == 1 && t[0] == '.' {
        assert(t@ =~= seq!['.']);
        let ghost a = args@;
        let mut out: Vec<Args> = Vec::new();
        out.push(args);
        assert(results_view(out@) =~= seq![a]);
        return Ok(out);
    }
    proof {
        if trim(q@) == seq!['.'] {
            assert(t@.len() == 1 && t@[0] == '.');
        }
    }
    let e = parse_chars(&t)?;
    eval_expr(&e, &args)
}

/// std's `{:?}` rendering of a string: quoted, with escapes.
pub uninterp spec fn debug_text(s: Seq<char>) -> Seq<char>;

/// std's `Debug` formatting of a string slice (`format!("{:?}", s)`).
#[verifier::external_body]
fn debug_quoted(s: &str) -> (r: String)
    ensures
        r@ == debug_text(s@),
{
    format!("{:?}", s)
}

/// The items of `items` separated by `", "`.
pub open spec fn comma_joined(items: Seq<Seq<char>>) -> Seq<char>
    decreases items.len(),
{
    if items.len() == 0 {
        Seq::empty()
    } else if items.len() == 1 {
        items[0]
    } else {
        comma_joined(items.drop_last()) + ", "@ + items.last()
    }
}

/// The message that describes `e`.
pub open spec fn query_error_text(e: SpecQueryError) -> Seq<char> {
    match e {
        SpecQueryError::MustStartWithDot => "query must start with '.'"@,
        SpecQueryError::UnexpectedCharacters(r) => "unexpected characters in query: "@ + debug_text(r),
        SpecQueryError::ExpectedIndex => "expected index number inside '[]'"@,
        SpecQueryError::ExpectedCloseBracket => "expected ']' to close slice expression"@,
        SpecQueryError::InvalidBracket => "invalid bracket expression; expected ']' or ':'"@,
        SpecQueryError::InvalidIndex(d) => "invalid index: \""@ + d + "\""@,
        SpecQueryError::FieldNeedsSingleValue(n, c) => "field access '."@ + n
            + "' requires a single value, got "@ + decimal(c as nat) + " values"@,
        SpecQueryError::UnknownField(n, h, fs) => "unknown field '"@ + n + "'"@ + match h {
            Some(x) => "; did you mean '"@ + x + "'?"@,
            None => Seq::empty(),
        } + "; available fields: "@ + comma_joined(fs),
        SpecQueryError::TagMismatch(a, n) => "tag mismatch: active tag is '"@ + a
            + "', tried to access '"@ + n + "'"@,
        SpecQueryError::FieldNeedsRecord(n, k) => "field access '."@ + n
            + "' requires a record or variant, got "@ + k,
        SpecQueryError::IndexNeedsSingleValue(i, c) => "index access '.["@ + decimal(i as nat)
            + "]' requires a single value, got "@ + decimal(c as nat) + " values"@,
        SpecQueryError::IndexOutOfBounds(i, n) => "index "@ + decimal(i as nat)
            + " out of bounds: vec has "@ + decimal(n as nat) + " element(s)"@,
        SpecQueryError::IndexNeedsVec(i, k) => "index access '.["@ + decimal(i as nat)
            + "]' requires a vec, got "@ + k,
        SpecQueryError::SliceNeedsSingleValue(c) => "slice access requires a single value, got "@
            + decimal(c as nat) + " values"@,
        SpecQueryError::SliceStartOutOfBounds(st, n) => "slice start "@ + decimal(st as nat)
            + " out of bounds: vec has "@ + decimal(n as nat) + " element(s)"@,
        SpecQueryError::SliceEndBeforeStart(st, en) => "slice index starts at "@ + decimal(st as nat)
            + " but ends at "@ + decimal(en as nat),
        SpecQueryError::SliceNeedsVec(k) => "slice access requires a vec, got "@ + k,
        SpecQueryError::IterNeedsSingleValue(c) => "iterator '.[]' requires a single value, got "@
            + decimal(c as nat) + " values"@,
        SpecQueryError::IterNeedsVec(k) => "iterator '.[]' requires a vec, got "@ + k,
        SpecQueryError::LengthNeedsSingleValue(c) => "length requires a single value, got "@
            + decimal(c as nat) + " values"@,
        SpecQueryError::LengthNeedsCollection(k) => "length requires a vec, text, blob or record, got "@ + k,
    }
}

fn push_comma_joined(s: &mut String, items: &Vec<String>)
    ensures
        final(s)@ == old(s)@ + comma_joined(items@.map_values(|f: String| f@)),
{
    let ghost start = s@;
    let mut k: usize = 0;
    while k < items.len()
        invariant
            k <= items@.len(),
            s@ == start + comma_joined(items@.subrange(0, k as int).map_values(|f: String| f@)),
        decreases items.len() - k,
    {
        let ghost before = items@.subrange(0, k as int).map_values(|f: String| f@);
        if k > 0 {
            s.push_str(", ");
        }
        s.push_str(items[k].as_str());
        k = k + 1;
        let ghost after = items@.subrange(0, k as int).map_values(|f: String| f@);
        assert(after.drop_last() =~= before);
        assert(after.last() == items@[k - 1]@);
        assert(s@ =~= start + comma_joined(after));
    }
    assert(items@.subrange(0, items@.len() as int) =~= items@);
}

impl QueryError {
    /// The message that describes this error.
    pub fn message(&self) -> (r: String)
        ensures
            r@ == query_error_text(self@),
    {
        let mut s = String::new();
        match self {
            QueryError::MustStartWithDot => s.push_str("query must start with '.'"),
            QueryError::UnexpectedCharacters(r) => {
                s.push_str("unexpected characters in query: ");
                let d = debug_quoted(r.as_str());
                s.push_str(d.as_str());
            },
            QueryError::ExpectedIndex => s.push_str("expected index number inside '[]'"),
            QueryError::ExpectedCloseBracket => s.push_str("expected ']' to close slice expression"),
            QueryError::InvalidBracket => s.push_str("invalid bracket expression; expected ']' or ':'"),
            QueryError::InvalidIndex(d) => {
                s.push_str("invalid index: \"");
                s.push_str(d.as_str());
                s.push_str("\"");
            },
            QueryError::FieldNeedsSingleValue(n, c) => {
                s.push_str("field access '.");
                s.push_str(n.as_str());
                s.push_str("' requires a single value, got ");
                push_decimal(&mut s, *c as u64);
                s.push_str(" values");
            },
            QueryError::UnknownField(n, h, fs) => {
                s.push_str("unknown field '");
                s.push_str(n.as_str());
                s.push_str("'");
                match h {
                    Some(x) => {
                        s.push_str("; did you mean '");
                        s.push_str(x.as_str());
                        s.push_str("'?");
                    },
                    None => {},
                }
                s.push_str("; available fields: ");
                push_comma_joined(&mut s, fs);
            },
            QueryError::TagMismatch(a, n) => {
                s.push_str("tag mismatch: active tag is '");
                s.push_str(a.as_str());
                s.push_str("', tried to access '");
                s.push_str(n.as_str());
                s.push_str("'");
            },
            QueryError::FieldNeedsRecord(n, k) => {
                s.push_str("field access '.");
                s.push_str(n.as_str());
                s.push_str("' requires a record or variant, got ");
                s.push_str(k.as_str());
            },
            QueryError::IndexNeedsSingleValue(i, c) => {
                s.push_str("index access '.[");
                push_decimal(&mut s, *i as u64);
                s.push_str("]' requires a single value, got ");
                push_decimal(&mut s, *c as u64);
                s.push_str(" values");
            },
            QueryError::IndexOutOfBounds(i, n) => {
                s.push_str("index ");
                push_decimal(&mut s, *i as u64);
                s.push_str(" out of bounds: vec has ");
                push_decimal(&mut s, *n as u64);
                s.push_str(" element(s)");
            },
            QueryError::IndexNeedsVec(i, k) => {
                s.push_str("index access '.[");
                push_decimal(&mut s, *i as u64);
                s.push_str("]' requires a vec, got ");
                s.push_str(k.as_str());
            },
            QueryError::SliceNeedsSingleValue(c) => {
                s.push_str("slice access requires a single value, got ");
                push_decimal(&mut s, *c as u64);
                s.push_str(" values");
            },
            QueryError::SliceStartOutOfBounds(st, n) => {
                s.push_str("slice start ");
                push_decimal(&mut s, *st as u64);
                s.push_str(" out of bounds: vec has ");
                push_decimal(&mut s, *n as u64);
                s.push_str(" element(s)");
            },
            QueryError::SliceEndBeforeStart(st, en) => {
                s.push_str("slice index starts at ");
                push_decimal(&mut s, *st as u64);
                s.push_str(" but ends at ");
                push_decimal(&mut s, *en as u64);
            },
            QueryError::SliceNeedsVec(k) => {
                s.push_str("slice access requires a vec, got ");
                s.push_str(k.as_str());
            },
            QueryError::IterNeedsSingleValue(c) => {
                s.push_str("iterator '.[]' requires a single value, got ");
                push_decimal(&mut s, *c as u64);
                s.push_str(" values");
            },
            QueryError::IterNeedsVec(k) => {
                s.push_str("iterator '.[]' requires a vec, got ");
                s.push_str(k.as_str());
            },
            QueryError::LengthNeedsSingleValue(c) => {
                s.push_str("length requires a single value, got ");
                push_decimal(&mut s, *c as u64);
                s.push_str(" values");
            },
            QueryError::LengthNeedsCollection(k) => {
                s.push_str("length requires a vec, text, blob or record, got ");
                s.push_str(k.as_str());
            },
        }
        assert(s@ =~= query_error_text(self@));
        s
    }
}

// ---------------------------------------------------------------------------
// Laws of evaluation.
// ---------------------------------------------------------------------------

/// `.name?` is the tolerant form of `.name`: on a record or a variant it
/// never fails; where `.name` finds a value, `.name?` gives the same value,
/// an opt unwrapped (nothing for an empty opt); where `.name` fails,
/// `.name?` gives no result.
pub proof fn lemma_optional_field_tolerates(a: Seq<SpecValue>, name: Seq<char>)
    requires
        a.len() == 1,
        a[0] is Record || a[0] is Variant,
    ensures
        spec_field(a, name, true) is Ok,
        spec_field(a, name, false) matches Ok(vs) ==> vs.len() == 1
            && spec_field(a, name, true) == Ok::<Seq<SpecValue>, SpecQueryError>(found(vs[0], true)),
        spec_field(a, name, false) is Err ==> spec_field(a, name, true) == Ok::<Seq<SpecValue>, SpecQueryError>(Seq::empty()),
{
}

proof fn lemma_each_acc(e: SpecExpr, xs: Seq<Seq<SpecValue>>, k: nat, acc: Seq<Seq<SpecValue>>)
    ensures
        spec_eval_each(e, xs, k, acc) == match spec_eval_each(e, xs, k, Seq::empty()) {
            Ok(r) => Ok(acc + r),
            Err(x) => Err(x),
        },
    decreases xs.len() - k,
{
    if k < xs.len() {
        match spec_eval(e, xs[k as int]) {
            Err(_) => {},
            Ok(ys) => {
                lemma_each_acc(e, xs, k + 1, acc + ys);
                lemma_each_acc(e, xs, k + 1, Seq::<Seq<SpecValue>>::empty() + ys);
                assert(Seq::<Seq<SpecValue>>::empty() + ys =~= ys);
                match spec_eval_each(e, xs, k + 1, Seq::empty()) {
                    Ok(r) => {
                        assert(acc + ys + r =~= acc + (ys + r));
                    },
                    Err(_) => {},
                }
            },
        }
    } else {
        assert(acc + Seq::<Seq<SpecValue>>::empty() =~= acc);
    }
}

proof fn lemma_each_step(e: SpecExpr, xs: Seq<Seq<SpecValue>>, k: nat)
    requires
        k < xs.len(),
    ensures
        spec_eval_each(e, xs, k, Seq::empty()) == match spec_eval(e, xs[k as int]) {
            Err(x) => Err(x),
            Ok(ys) => match spec_eval_each(e, xs, k + 1, Seq::empty()) {
                Ok(r) => Ok(ys + r),
                Err(x) => Err(x),
            },
        },
{
    match spec_eval(e, xs[k as int]) {
        Err(_) => {},
        Ok(ys) => {
            lemma_each_acc(e, xs, k + 1, Seq::<Seq<SpecValue>>::empty() + ys);
            assert(Seq::<Seq<SpecValue>>::empty() + ys =~= ys);
        },
    }
}

/// Running `e` over `ys1 + ys2` is running it over `ys1`, then over `ys2`.
proof fn lemma_each_concat(e: SpecExpr, ys1: Seq<Seq<SpecValue>>, ys2: Seq<Seq<SpecValue>>)
    ensures
        spec_eval_each(e, ys1 + ys2, 0, Seq::empty()) == match spec_eval_each(e, ys1, 0, Seq::empty()) {
            Err(x) => Err(x),
            Ok(r1) => match spec_eval_each(e, ys2, 0, Seq::empty()) {
                Ok(r2) => Ok(r1 + r2),
                Err(x) => Err(x),
            },
        },
    decreases ys1.len(),
{
    if ys1.len() == 0 {
        assert(ys1 + ys2 =~= ys2);
        match spec_eval_each(e, ys2, 0, Seq::empty()) {
            Ok(r2) => {
                assert(Seq::<Seq<SpecValue>>::empty() + r2 =~= r2);
            },
            Err(_) => {},
        }
    } else {
        let t = ys1.drop_first();
        assert(t + ys2 =~= (ys1 + ys2).subrange(1, (ys1 + ys2).len() as int));
        assert(t =~= ys1.subrange(1, ys1.len() as int));
        lemma_each_concat(e, t, ys2);
        lemma_each_step(e, ys1 + ys2, 0);
        lemma_each_step(e, ys1, 0);
        lemma_each_shift(e, ys1 + ys2, 1, t + ys2);
        lemma_each_shift(e, ys1, 1, t);
        match spec_eval(e, ys1[0]) {
            Err(_) => {
                assert((ys1 + ys2)[0] == ys1[0]);
            },
            Ok(ys) => {
                assert((ys1 + ys2)[0] == ys1[0]);
                match spec_eval_each(e, t, 0, Seq::empty()) {
                    Err(_) => {},
                    Ok(r1) => match spec_eval_each(e, ys2, 0, Seq::empty()) {
                        Ok(r2) => {
                            assert(ys + (r1 + r2) =~= ys + r1 + r2);
                        },
                        Err(_) => {},
                    },
                }
            },
        }
    }
}

/// Running `e` over `xs` from `k` on is running it over the suffix `xs[k..]`.
proof fn lemma_each_shift(e: SpecExpr, xs: Seq<Seq<SpecValue>>, k: nat, suffix: Seq<Seq<SpecValue>>)
    requires
        k <= xs.len(),
        suffix == xs.subrange(k as int, xs.len() as int),
    ensures
        spec_eval_each(e, xs, k, Seq::empty()) == spec_eval_each(e, suffix, 0, Seq::empty()),
    decreases xs.len() - k,
{
    if k < xs.len() {
        assert(suffix[0] == xs[k as int]);
        assert(suffix.drop_first() =~= xs.subrange((k + 1) as int, xs.len() as int));
        assert(suffix.drop_first() =~= suffix.subrange(1, suffix.len() as int));
        lemma_each_step(e, xs, k);
        lemma_each_step(e, suffix, 0);
        lemma_each_shift(e, xs, k + 1, suffix.drop_first());
        lemma_each_shift(e, suffix, 1, suffix.drop_first());
    }
}

/// Running `b | c` over each of `xs` succeeds exactly when running `b` over
/// `xs` and then `c` over those results does, and then with the same results.
proof fn lemma_each_pipe(b: SpecExpr, c: SpecExpr, xs: Seq<Seq<SpecValue>>, k: nat)
    ensures
        spec_eval_each(SpecExpr::Pipe(Box::new(b), Box::new(c)), xs, k, Seq::empty()) is Ok <==> (
            spec_eval_each(b, xs, k, Seq::empty()) is Ok
            && spec_eval_each(c, spec_eval_each(b, xs, k, Seq::empty())->Ok_0, 0, Seq::empty()) is Ok),
        spec_eval_each(SpecExpr::Pipe(Box::new(b), Box::new(c)), xs, k, Seq::empty()) is Ok ==>
            spec_eval_each(SpecExpr::Pipe(Box::new(b), Box::new(c)), xs, k, Seq::empty())
                == spec_eval_each(c, spec_eval_each(b, xs, k, Seq::empty())->Ok_0, 0, Seq::empty()),
    decreases xs.len() - k,
{
    let p = SpecExpr::Pipe(Box::new(b), Box::new(c));
    if k < xs.len() {
        lemma_each_pipe(b, c, xs, k + 1);
        lemma_each_step(p, xs, k);
        lemma_each_step(b, xs, k);
        match spec_eval(b, xs[k as int]) {
            Err(_) => {},
            Ok(ys) => {
                match spec_eval_each(b, xs, k + 1, Seq::empty()) {
                    Err(_) => {},
                    Ok(yr) => {
                        lemma_each_concat(c, ys, yr);
                    },
                }
            },
        }
    }
}

/// Pipes group either way: `(a | b) | c` and `a | (b | c)` succeed on the
/// same inputs, and then give the same results in the same order.  (When
/// both fail they may report different errors: the left grouping runs `b`
/// on every result of `a` before running `c`.)
pub proof fn lemma_pipe_associative(a: SpecExpr, b: SpecExpr, c: SpecExpr, x: Seq<SpecValue>)
    ensures
        spec_eval(SpecExpr::Pipe(Box::new(SpecExpr::Pipe(Box::new(a), Box::new(b))), Box::new(c)), x) is Ok
            <==> spec_eval(SpecExpr::Pipe(Box::new(a), Box::new(SpecExpr::Pipe(Box::new(b), Box::new(c)))), x) is Ok,
        spec_eval(SpecExpr::Pipe(Box::new(SpecExpr::Pipe(Box::new(a), Box::new(b))), Box::new(c)), x) is Ok ==>
            spec_eval(SpecExpr::Pipe(Box::new(SpecExpr::Pipe(Box::new(a), Box::new(b))), Box::new(c)), x)
                == spec_eval(SpecExpr::Pipe(Box::new(a), Box::new(SpecExpr::Pipe(Box::new(b), Box::new(c)))), x),
{
    let ab = SpecExpr::Pipe(Box::new(a), Box::new(b));
    let bc = SpecExpr::Pipe(Box::new(b), Box::new(c));
    match spec_eval(a, x) {
        Err(_) => {
            assert(spec_eval(ab, x) is Err);
        },
        Ok(xs) => {
            assert(spec_eval(ab, x) == spec_eval_each(b, xs, 0, Seq::empty()));
            assert(spec_eval(SpecExpr::Pipe(Box::new(a), Box::new(bc)), x)
                == spec_eval_each(bc, xs, 0, Seq::empty()));
            lemma_each_pipe(b, c, xs, 0);
        },
    }
}

/// The results of `e` on each of `xs`, in order: one list of results each.
pub open spec fn results_of_each(e: SpecExpr, xs: Seq<Seq<SpecValue>>) -> Seq<Seq<Seq<SpecValue>>> {
    xs.map_values(|x: Seq<SpecValue>| spec_eval(e, x)->Ok_0)
}

proof fn lemma_each_flatten(e: SpecExpr, xs: Seq<Seq<SpecValue>>, k: nat, acc: Seq<Seq<SpecValue>>)
    requires
        k <= xs.len(),
    ensures
        spec_eval_each(e, xs, k, acc) is Ok <==> forall|i: int| k <= i < xs.len() ==> #[trigger] spec_eval(e, xs[i]) is Ok,
        spec_eval_each(e, xs, k, acc) is Ok ==> spec_eval_each(e, xs, k, acc)->Ok_0
            == acc + results_of_each(e, xs.subrange(k as int, xs.len() as int)).flatten(),
    decreases xs.len() - k,
{
    let s = results_of_each(e, xs.subrange(k as int, xs.len() as int));
    if k < xs.len() {
        match spec_eval(e, xs[k as int]) {
            Err(_) => {},
            Ok(ys) => {
                lemma_each_flatten(e, xs, k + 1, acc + ys);
                assert(s.drop_first() =~= results_of_each(e, xs.subrange(k + 1int, xs.len() as int)));
                assert(s.first() == ys);
                let rest = s.drop_first().flatten();
                assert((acc + ys) + rest =~= acc + (ys + rest));
            },
        }
    } else {
        assert(s =~= Seq::<Seq<Seq<SpecValue>>>::empty());
        assert(acc + s.flatten() =~= acc);
    }
}

/// A pipe `l | r` runs `r` on each result of `l`, in order, and gives the
/// concatenation of what those runs give; it fails exactly when `l` fails
/// or one of those runs does.
pub proof fn lemma_pipe_concatenates(l: SpecExpr, r: SpecExpr, a: Seq<SpecValue>)
    ensures
        spec_eval(SpecExpr::Pipe(Box::new(l), Box::new(r)), a) is Ok <==> (
            spec_eval(l, a) is Ok
            && forall|i: int| 0 <= i < spec_eval(l, a)->Ok_0.len()
                ==> #[trigger] spec_eval(r, spec_eval(l, a)->Ok_0[i]) is Ok),
        spec_eval(SpecExpr::Pipe(Box::new(l), Box::new(r)), a) is Ok ==>
            spec_eval(SpecExpr::Pipe(Box::new(l), Box::new(r)), a)->Ok_0
                == results_of_each(r, spec_eval(l, a)->Ok_0).flatten(),
{
    match spec_eval(l, a) {
        Err(_) => {},
        Ok(xs) => {
            lemma_each_flatten(r, xs, 0, Seq::empty());
            assert(xs.subrange(0, xs.len() as int) =~= xs);
            let f = results_of_each(r, xs).flatten();
            assert(Seq::<Seq<SpecValue>>::empty() + f =~= f);
        },
    }
}

/// `.[s:b]` on a vec of `n` items, `s <= n`, gives the items from `s` up to
/// `b` or the end, whichever comes first; an end at or past `n` is the same
/// as none.  An end before the start is refused.
pub proof fn lemma_slice_clamps_its_end(items: Seq<SpecValue>, s: usize, b: usize)
    requires
        s <= items.len(),
    ensures
        s <= b ==> spec_eval(SpecExpr::Slice(Some(s), Some(b)), seq![SpecValue::Vec(items)])
            == Ok::<Seq<Seq<SpecValue>>, SpecQueryError>(seq![seq![SpecValue::Vec(
                items.subrange(s as int, if b < items.len() { b as int } else { items.len() as int }),
            )]]),
        b >= items.len() ==> spec_eval(SpecExpr::Slice(Some(s), Some(b)), seq![SpecValue::Vec(items)])
            == spec_eval(SpecExpr::Slice(Some(s), None), seq![SpecValue::Vec(items)]),
        b < s ==> spec_eval(SpecExpr::Slice(Some(s), Some(b)), seq![SpecValue::Vec(items)])
            == Err::<Seq<Seq<SpecValue>>, SpecQueryError>(SpecQueryError::SliceEndBeforeStart(s, b)),
        spec_eval(SpecExpr::Slice(Some(s), None), seq![SpecValue::Vec(items)])
            == Ok::<Seq<Seq<SpecValue>>, SpecQueryError>(seq![seq![SpecValue::Vec(items.subrange(s as int, items.len() as int))]]),
{
}

/// `.[i]` on a vec gives its item `i`, or says it is out of bounds; `.[]`
/// gives each item, in order, as a result of its own; a slice is the same
/// items as indexing one by one.
pub proof fn lemma_vec_access(items: Seq<SpecValue>, i: usize, s: usize, b: usize)
    ensures
        i < items.len() ==> spec_eval(SpecExpr::Index(i), seq![SpecValue::Vec(items)])
            == Ok::<Seq<Seq<SpecValue>>, SpecQueryError>(seq![seq![items[i as int]]]),
        i >= items.len() ==> spec_eval(SpecExpr::Index(i), seq![SpecValue::Vec(items)])
            == Err::<Seq<Seq<SpecValue>>, SpecQueryError>(SpecQueryError::IndexOutOfBounds(i, items.len() as usize)),
        spec_eval(SpecExpr::Iter, seq![SpecValue::Vec(items)]) matches Ok(rs) && rs.len() == items.len()
            && forall|k: int| 0 <= k < items.len() ==> #[trigger] rs[k] == seq![items[k]],
        s <= b <= items.len() ==> spec_eval(SpecExpr::Slice(Some(s), Some(b)), seq![SpecValue::Vec(items)])
            == Ok::<Seq<Seq<SpecValue>>, SpecQueryError>(seq![seq![SpecValue::Vec(
                Seq::new((b - s) as nat, |k: int| items[s + k]),
            )]]),
{
    if s <= b <= items.len() {
        assert(items.subrange(s as int, b as int) =~= Seq::new((b - s) as nat, |k: int| items[s + k]));
    }
}

/// `length` of a blob of `k` bytes is `k`, as for the vec of `nat8` with
/// those bytes; of a vec, a text or a record, its number of items,
/// characters or fields.
pub proof fn lemma_length_counts(b: Seq<u8>, items: Seq<SpecValue>, t: Seq<char>, fs: Seq<SpecField>)
    ensures
        spec_eval(SpecExpr::Length, seq![SpecValue::Blob(b)])
            == Ok::<Seq<Seq<SpecValue>>, SpecQueryError>(seq![seq![SpecValue::Nat(decimal(b.len()))]]),
        spec_eval(SpecExpr::Length, seq![SpecValue::Blob(b)])
            == spec_eval(SpecExpr::Length, seq![SpecValue::Vec(b.map_values(|x: u8| SpecValue::Nat8(x)))]),
        spec_eval(SpecExpr::Length, seq![SpecValue::Vec(items)])
            == Ok::<Seq<Seq<SpecValue>>, SpecQueryError>(seq![seq![SpecValue::Nat(decimal(items.len()))]]),
        spec_eval(SpecExpr::Length, seq![SpecValue::Text(t)])
            == Ok::<Seq<Seq<SpecValue>>, SpecQueryError>(seq![seq![SpecValue::Nat(decimal(t.len()))]]),
        spec_eval(SpecExpr::Length, seq![SpecValue::Record(fs)])
            == Ok::<Seq<Seq<SpecValue>>, SpecQueryError>(seq![seq![SpecValue::Nat(decimal(fs.len()))]]),
{
    assert(b.map_values(|x: u8| SpecValue::Nat8(x)).len() == b.len());
}

/// `.` is neutral in a pipe: `. | e` and `e | .` both mean `e`.
pub proof fn lemma_identity_neutral(e: SpecExpr, x: Seq<SpecValue>)
    ensures
        spec_eval(SpecExpr::Pipe(Box::new(SpecExpr::Identity), Box::new(e)), x) == spec_eval(e, x),
        spec_eval(SpecExpr::Pipe(Box::new(e), Box::new(SpecExpr::Identity)), x) == spec_eval(e, x),
{
    let one = seq![x];
    assert(one[0] == x);
    assert(spec_eval(SpecExpr::Identity, x) == Ok::<Seq<Seq<SpecValue>>, SpecQueryError>(one));
    lemma_each_step(e, one, 0);
    assert(spec_eval_each(e, one, 1, Seq::empty()) == Ok::<Seq<Seq<SpecValue>>, SpecQueryError>(Seq::empty()));
    match spec_eval(e, x) {
        Ok(ys) => {
            assert(ys + Seq::<Seq<SpecValue>>::empty() =~= ys);
            lemma_each_identity(ys, 0);
            assert(ys.subrange(0, 0) =~= Seq::<Seq<SpecValue>>::empty());
        },
        Err(_) => {},
    }
}

proof fn lemma_each_identity(xs: Seq<Seq<SpecValue>>, k: nat)
    requires
        k <= xs.len(),
    ensures
        spec_eval_each(SpecExpr::Identity, xs, k, xs.subrange(0, k as int)) == Ok::<Seq<Seq<SpecValue>>, SpecQueryError>(xs),
    decreases xs.len() - k,
{
    if k < xs.len() {
        assert(xs.subrange(0, k as int) + seq![xs[k as int]] =~= xs.subrange(0, (k + 1) as int));
        assert(spec_eval(SpecExpr::Identity, xs[k as int]) == Ok::<Seq<Seq<SpecValue>>, SpecQueryError>(seq![xs[k as int]]));
        lemma_each_identity(xs, k + 1);
    } else {
        assert(xs.subrange(0, k as int) =~= xs);
    }
}

// ---------------------------------------------------------------------------
// Chains are pipes.
// ---------------------------------------------------------------------------

/// A field name of ASCII letters, digits and `_`.
pub open spec fn plain_name(n: Seq<char>) -> bool {
    &&& n.len() > 0
    &&& forall|i: int| 0 <= i < n.len() ==> ascii_letter(#[trigger] n[i]) || ascii_digit(n[i]) || n[i] == '_'
}

proof fn lemma_plain_char(c: char)
    requires
        ascii_letter(c) || ascii_digit(c) || c == '_',
    ensures
        ident_char(c),
        !unicode_white_space(c),
        c != '[' && c != '.' && c != '?' && c != '|' && c != ' ',
        !ascii_digit(c) ==> (unicode_alphabetic(c) || c == '_'),
{
}

/// The field name that starts at `i` runs up to `e`.
proof fn lemma_ident_run(t: Seq<char>, i: int, e: int)
    requires
        0 <= i <= e <= t.len(),
        forall|k: int| i <= k < e ==> ident_char(#[trigger] t[k]),
        e < t.len() ==> !ident_char(t[e]),
    ensures
        ident_end(t, i) == e,
    decreases e - i,
{
    if i < e {
        lemma_ident_run(t, i + 1, e);
    }
}

/// The name `n` written at `at` in `t`, followed by `end` (the end of `t`,
/// or a character that no name holds).
proof fn lemma_name_at(t: Seq<char>, at: int, n: Seq<char>, end: int)
    requires
        plain_name(n),
        0 <= at,
        end == at + n.len(),
        end <= t.len(),
        t.subrange(at, end) == n,
        end < t.len() ==> !ident_char(t[end]),
    ensures
        ident_end(t, at) == end,
        ident_char(t[at]),
        t[at] != '[',
        forall|k: int| at <= k < end ==> !unicode_white_space(#[trigger] t[k]),
{
    assert forall|k: int| at <= k < end implies ident_char(#[trigger] t[k]) && !unicode_white_space(t[k]) by {
        assert(t[k] == n[k - at]);
        lemma_plain_char(n[k - at]);
    }
    lemma_ident_run(t, at, end);
    assert(t[at] == n[0]);
    lemma_plain_char(n[0]);
}

/// `.a.b` parses as `.a` piped into `.b`.
#[verifier::rlimit(40)]
proof fn lemma_chain_parse(a: Seq<char>, b: Seq<char>)
    requires
        plain_name(a),
        plain_name(b),
        !ascii_digit(b[0]),
    ensures
        spec_parse(seq!['.'] + a + seq!['.'] + b) == Ok::<SpecExpr, SpecQueryError>(
            SpecExpr::Pipe(Box::new(SpecExpr::Field(a, false)), Box::new(SpecExpr::Field(b, false))),
        ),
{
    let q = seq!['.'] + a + seq!['.'] + b;
    let la = a.len() as int;
    let n = q.len() as int;
    assert(n == la + b.len() + 2);
    assert(q[0] == '.');
    assert(q[la + 1] == '.');
    assert(q.subrange(1, la + 1) =~= a);
    assert(q.subrange(la + 2, n) =~= b);
    lemma_name_at(q, 1, a, la + 1);
    lemma_name_at(q, la + 2, b, n);
    lemma_plain_char(b[0]);
    assert(q[la + 2] == b[0]);
    // trimming keeps the query whole
    assert(ws_end(q, 0) == 0);
    assert(!unicode_white_space(q[n - 1]));
    assert(ws_back(q, 0, n) == n);
    assert(trim(q) =~= q);
    // the second link, then the first
    assert(ws_end(q, la + 1) == la + 1);
    assert(ws_end(q, n) == n);
    assert(spec_atom(q, la + 1) == Ok::<(SpecExpr, int), SpecQueryError>((SpecExpr::Field(b, false), n)));
    assert(spec_chain(q, la + 1) == Ok::<(SpecExpr, int), SpecQueryError>((SpecExpr::Field(b, false), n)));
    assert(spec_atom(q, 0) == Ok::<(SpecExpr, int), SpecQueryError>((SpecExpr::Field(a, false), la + 1)));
    assert(continues_chain(q, la + 1));
    assert(q.subrange(n, n) =~= Seq::<char>::empty());
    assert(trim(Seq::<char>::empty()) =~= Seq::<char>::empty());
}

/// `.a | .b` parses as `.a` piped into `.b`.
#[verifier::rlimit(40)]
proof fn lemma_pipe_parse(a: Seq<char>, b: Seq<char>)
    requires
        plain_name(a),
        plain_name(b),
    ensures
        spec_parse(seq!['.'] + a + " | ."@ + b) == Ok::<SpecExpr, SpecQueryError>(
            SpecExpr::Pipe(Box::new(SpecExpr::Field(a, false)), Box::new(SpecExpr::Field(b, false))),
        ),
{
    reveal_strlit(" | .");
    let q = seq!['.'] + a + " | ."@ + b;
    let la = a.len() as int;
    let n = q.len() as int;
    assert(n == la + b.len() + 5);
    assert(q[0] == '.');
    assert(q[la + 1] == ' ');
    assert(q[la + 2] == '|');
    assert(q[la + 3] == ' ');
    assert(q[la + 4] == '.');
    assert(q.subrange(1, la + 1) =~= a);
    assert(q.subrange(la + 5, n) =~= b);
    lemma_name_at(q, 1, a, la + 1);
    lemma_name_at(q, la + 5, b, n);
    // trimming keeps the query whole
    assert(ws_end(q, 0) == 0);
    assert(!unicode_white_space(q[n - 1]));
    assert(ws_back(q, 0, n) == n);
    assert(trim(q) =~= q);
    // the right side
    assert(ws_end(q, la + 4) == la + 4);
    assert(ws_end(q, n) == n);
    assert(spec_atom(q, la + 4) == Ok::<(SpecExpr, int), SpecQueryError>((SpecExpr::Field(b, false), n)));
    assert(spec_chain(q, la + 4) == Ok::<(SpecExpr, int), SpecQueryError>((SpecExpr::Field(b, false), n)));
    assert(spec_pipe(q, la + 4) == Ok::<(SpecExpr, int), SpecQueryError>((SpecExpr::Field(b, false), n)));
    // the left side stops at the bar
    assert(ws_end(q, la + 2) == la + 2);
    assert(ws_end(q, la + 1) == la + 2);
    assert(ws_end(q, la + 3) == la + 4);
    assert(spec_atom(q, 0) == Ok::<(SpecExpr, int), SpecQueryError>((SpecExpr::Field(a, false), la + 1)));
    assert(!continues_chain(q, la + 2));
    assert(spec_chain(q, 0) == Ok::<(SpecExpr, int), SpecQueryError>((SpecExpr::Field(a, false), la + 1)));
    assert(q.subrange(n, n) =~= Seq::<char>::empty());
    assert(trim(Seq::<char>::empty()) =~= Seq::<char>::empty());
}

/// A chain is sugar for a pipe: for field names `a` and `b` (the second
/// not starting with a digit), `.a.b` and `.a | .b` are the same query,
/// `.a` piped into `.b`.
pub proof fn lemma_chain_is_pipe(a: Seq<char>, b: Seq<char>)
    requires
        plain_name(a),
        plain_name(b),
        !ascii_digit(b[0]),
    ensures
        spec_parse(seq!['.'] + a + seq!['.'] + b) == spec_parse(seq!['.'] + a + " | ."@ + b),
        spec_parse(seq!['.'] + a + seq!['.'] + b) == Ok::<SpecExpr, SpecQueryError>(
            SpecExpr::Pipe(Box::new(SpecExpr::Field(a, false)), Box::new(SpecExpr::Field(b, false))),
        ),
{
    lemma_chain_parse(a, b);
    lemma_pipe_parse(a, b);
}

} // verus!
