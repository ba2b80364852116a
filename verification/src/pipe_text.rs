//! Query texts joined by ` | `: the joined text parses, and runs the right
//! query on each result of the left one.
use vstd::prelude::*;
use crate::query::{
    continues_chain, digits_end, ident_char, ident_end, length_word_at, spec_atom, spec_bracket, spec_chain,
    spec_index_number, spec_pipe, spec_parse, spec_eval, spec_evaluate, results_of_each, lemma_pipe_concatenates,
    lemma_pipe_associative, SpecQueryError, SpecExpr,
};
use crate::value::SpecValue;
use crate::text::{trim, unicode_alphabetic, unicode_white_space, ws_back, ws_end, lemma_ws_back_bounds, lemma_ws_end_bounds};

verus! {

/// `r` with its position moved on by `o`.
pub open spec fn shifted<T>(r: Result<(T, int), SpecQueryError>, o: int) -> Result<(T, int), SpecQueryError> {
    match r {
        Ok((x, p)) => Ok((x, p + o)),
        Err(e) => Err(e),
    }
}

// ---------------------------------------------------------------------------
// A query read at the end of a longer text reads as it does alone.
// ---------------------------------------------------------------------------

proof fn lemma_ws_shift(pre: Seq<char>, b: Seq<char>, j: int)
    requires
        0 <= j <= b.len(),
    ensures
        ws_end(pre + b, pre.len() + j) == pre.len() + ws_end(b, j),
    decreases b.len() - j,
{
    let t = pre + b;
    if j < b.len() {
        assert(t[pre.len() + j] == b[j]);
        lemma_ws_shift(pre, b, j + 1);
    }
}

proof fn lemma_ident_shift(pre: Seq<char>, b: Seq<char>, j: int)
    requires
        0 <= j <= b.len(),
    ensures
        ident_end(pre + b, pre.len() + j) == pre.len() + ident_end(b, j),
        j <= ident_end(b, j) <= b.len(),
    decreases b.len() - j,
{
    let t = pre + b;
    if j < b.len() {
        assert(t[pre.len() + j] == b[j]);
        lemma_ident_shift(pre, b, j + 1);
    }
}

proof fn lemma_digits_shift(pre: Seq<char>, b: Seq<char>, j: int)
    requires
        0 <= j <= b.len(),
    ensures
        digits_end(pre + b, pre.len() + j) == pre.len() + digits_end(b, j),
        j <= digits_end(b, j) <= b.len(),
    decreases b.len() - j,
{
    let t = pre + b;
    if j < b.len() {
        assert(t[pre.len() + j] == b[j]);
        lemma_digits_shift(pre, b, j + 1);
    }
}

proof fn lemma_number_shift(pre: Seq<char>, b: Seq<char>, j: int)
    requires
        0 <= j <= b.len(),
    ensures
        spec_index_number(pre + b, pre.len() + j) == shifted(spec_index_number(b, j), pre.len() as int),
        spec_index_number(b, j) matches Ok((_, r)) ==> j <= r <= b.len(),
{
    let t = pre + b;
    let o = pre.len() as int;
    lemma_digits_shift(pre, b, j);
    let e = digits_end(b, j);
    assert(t.subrange(o + j, o + e) =~= b.subrange(j, e));
}

proof fn lemma_bracket_shift(pre: Seq<char>, b: Seq<char>, a: int)
    requires
        0 <= a < b.len(),
    ensures
        spec_bracket(pre + b, pre.len() + a) == shifted(spec_bracket(b, a), pre.len() as int),
        spec_bracket(b, a) matches Ok((_, r)) ==> a < r <= b.len(),
{
    let t = pre + b;
    let o = pre.len() as int;
    lemma_ws_shift(pre, b, a + 1);
    lemma_ws_end_bounds(b, a + 1);
    let inner = ws_end(b, a + 1);
    if inner < b.len() {
        assert(t[o + inner] == b[inner]);
    }
    lemma_number_shift(pre, b, inner);
    if let Ok((first, af)) = spec_index_number(b, inner) {
        lemma_ws_shift(pre, b, af);
        lemma_ws_end_bounds(b, af);
        let af2 = ws_end(b, af);
        if af2 < b.len() {
            assert(t[o + af2] == b[af2]);
            if b[af2] == ':' {
                lemma_ws_shift(pre, b, af2 + 1);
                lemma_ws_end_bounds(b, af2 + 1);
                let s2 = ws_end(b, af2 + 1);
                lemma_number_shift(pre, b, s2);
                if let Ok((second, bs)) = spec_index_number(b, s2) {
                    lemma_ws_shift(pre, b, bs);
                    lemma_ws_end_bounds(b, bs);
                    let bs2 = ws_end(b, bs);
                    if bs2 < b.len() {
                        assert(t[o + bs2] == b[bs2]);
                    }
                }
            }
        }
    }
}

proof fn lemma_length_word_shift(pre: Seq<char>, b: Seq<char>, s: int)
    requires
        0 <= s <= b.len(),
    ensures
        length_word_at(pre + b, pre.len() + s) == length_word_at(b, s),
{
    let t = pre + b;
    let o = pre.len() as int;
    lemma_ident_shift(pre, b, s);
    if s + 6 <= b.len() {
        assert(t.subrange(o + s, o + s + 6) =~= b.subrange(s, s + 6));
    }
}

proof fn lemma_atom_shift(pre: Seq<char>, b: Seq<char>, i: int)
    requires
        0 <= i <= b.len(),
    ensures
        spec_atom(pre + b, pre.len() + i) == shifted(spec_atom(b, i), pre.len() as int),
        spec_atom(b, i) matches Ok((_, r)) ==> i <= r <= b.len(),
{
    let t = pre + b;
    let o = pre.len() as int;
    lemma_ws_shift(pre, b, i);
    lemma_ws_end_bounds(b, i);
    let s = ws_end(b, i);
    lemma_length_word_shift(pre, b, s);
    if s < b.len() {
        assert(t[o + s] == b[s]);
        if s + 1 < b.len() {
            assert(t[o + s + 1] == b[s + 1]);
        }
        if b[s] == '.' {
            if s + 1 < b.len() && b[s + 1] == '[' {
                lemma_bracket_shift(pre, b, s + 1);
            } else {
                lemma_ident_shift(pre, b, s + 1);
                let e = ident_end(b, s + 1);
                if e < b.len() {
                    assert(t[o + e] == b[e]);
                }
                assert(t.subrange(o + s + 1, o + e) =~= b.subrange(s + 1, e));
            }
        }
    }
}

proof fn lemma_continues_shift(pre: Seq<char>, b: Seq<char>, rt: int)
    requires
        0 <= rt <= b.len(),
    ensures
        continues_chain(pre + b, pre.len() + rt) == continues_chain(b, rt),
{
    let t = pre + b;
    let o = pre.len() as int;
    if rt + 1 < b.len() {
        assert(t[o + rt] == b[rt]);
        assert(t[o + rt + 1] == b[rt + 1]);
    }
}

proof fn lemma_chain_shift(pre: Seq<char>, b: Seq<char>, i: int)
    requires
        0 <= i <= b.len(),
    ensures
        spec_chain(pre + b, pre.len() + i) == shifted(spec_chain(b, i), pre.len() as int),
        spec_chain(b, i) matches Ok((_, r)) ==> i <= r <= b.len(),
    decreases b.len() - i,
{
    let o = pre.len() as int;
    lemma_atom_shift(pre, b, i);
    if let Ok((atom, r)) = spec_atom(b, i) {
        lemma_ws_shift(pre, b, r);
        lemma_ws_end_bounds(b, r);
        let rt = ws_end(b, r);
        lemma_continues_shift(pre, b, rt);
        if continues_chain(b, rt) && i < rt && rt <= b.len() {
            lemma_chain_shift(pre, b, rt);
        }
    }
}

proof fn lemma_pipe_shift(pre: Seq<char>, b: Seq<char>, i: int)
    requires
        0 <= i <= b.len(),
    ensures
        spec_pipe(pre + b, pre.len() + i) == shifted(spec_pipe(b, i), pre.len() as int),
        spec_pipe(b, i) matches Ok((_, r)) ==> i <= r <= b.len(),
    decreases b.len() - i,
{
    let t = pre + b;
    let o = pre.len() as int;
    lemma_chain_shift(pre, b, i);
    if let Ok((left, r)) = spec_chain(b, i) {
        lemma_ws_shift(pre, b, r);
        lemma_ws_end_bounds(b, r);
        let r2 = ws_end(b, r);
        if r2 < b.len() {
            assert(t[o + r2] == b[r2]);
            if b[r2] == '|' {
                lemma_ws_shift(pre, b, r2 + 1);
                lemma_ws_end_bounds(b, r2 + 1);
                let j = ws_end(b, r2 + 1);
                if i < j && j <= b.len() {
                    lemma_pipe_shift(pre, b, j);
                }
            }
        }
    }
}

// ---------------------------------------------------------------------------
// A query followed by ` |` reads as it does alone, up to the bar.
// ---------------------------------------------------------------------------

/// `t` is `a`, then a space and a `|`, then anything.
pub open spec fn bar_follows(a: Seq<char>, t: Seq<char>) -> bool {
    &&& a.len() + 2 <= t.len()
    &&& t.subrange(0, a.len() as int) == a
    &&& t[a.len() as int] == ' '
    &&& t[a.len() + 1int] == '|'
}

proof fn lemma_prefix_char(a: Seq<char>, t: Seq<char>, k: int)
    requires
        bar_follows(a, t),
        0 <= k < a.len(),
    ensures
        t[k] == a[k],
{
    assert(t.subrange(0, a.len() as int)[k] == t[k]);
}

proof fn lemma_ws_prefix(a: Seq<char>, t: Seq<char>, i: int)
    requires
        bar_follows(a, t),
        0 <= i <= a.len(),
    ensures
        ws_end(a, i) < a.len() ==> ws_end(t, i) == ws_end(a, i),
        ws_end(a, i) == a.len() ==> ws_end(t, i) == a.len() + 1,
        i <= ws_end(a, i) <= a.len(),
    decreases a.len() - i,
{
    if i < a.len() {
        lemma_prefix_char(a, t, i);
        if unicode_white_space(a[i]) {
            lemma_ws_prefix(a, t, i + 1);
        }
    } else {
        let n = a.len() as int;
        assert(unicode_white_space(t[n]));
        assert(!unicode_white_space(t[n + 1]));
        assert(ws_end(t, n + 1) == n + 1);
    }
}

proof fn lemma_ident_prefix(a: Seq<char>, t: Seq<char>, i: int)
    requires
        bar_follows(a, t),
        0 <= i <= a.len(),
    ensures
        ident_end(t, i) == ident_end(a, i),
        i <= ident_end(a, i) <= a.len(),
    decreases a.len() - i,
{
    if i < a.len() {
        lemma_prefix_char(a, t, i);
        lemma_ident_prefix(a, t, i + 1);
    } else {
        assert(!ident_char(t[a.len() as int]));
    }
}

proof fn lemma_digits_prefix(a: Seq<char>, t: Seq<char>, i: int)
    requires
        bar_follows(a, t),
        0 <= i <= a.len(),
    ensures
        digits_end(t, i) == digits_end(a, i),
        i <= digits_end(a, i) <= a.len(),
    decreases a.len() - i,
{
    if i < a.len() {
        lemma_prefix_char(a, t, i);
        lemma_digits_prefix(a, t, i + 1);
    }
}

proof fn lemma_sub_prefix(a: Seq<char>, t: Seq<char>, x: int, y: int)
    requires
        bar_follows(a, t),
        0 <= x <= y <= a.len(),
    ensures
        t.subrange(x, y) == a.subrange(x, y),
{
    assert forall|k: int| 0 <= k < y - x implies t.subrange(x, y)[k] == a.subrange(x, y)[k] by {
        lemma_prefix_char(a, t, x + k);
    }
    assert(t.subrange(x, y) =~= a.subrange(x, y));
}

proof fn lemma_number_prefix(a: Seq<char>, t: Seq<char>, i: int)
    requires
        bar_follows(a, t),
        0 <= i <= a.len(),
    ensures
        spec_index_number(t, i) == spec_index_number(a, i),
        spec_index_number(a, i) matches Ok((_, r)) ==> i <= r <= a.len(),
{
    lemma_digits_prefix(a, t, i);
    lemma_sub_prefix(a, t, i, digits_end(a, i));
}

proof fn lemma_bracket_prefix(a: Seq<char>, t: Seq<char>, x: int)
    requires
        bar_follows(a, t),
        0 <= x < a.len(),
        spec_bracket(a, x) is Ok,
    ensures
        spec_bracket(t, x) == spec_bracket(a, x),
        x < spec_bracket(a, x)->Ok_0.1 <= a.len(),
{
    let n = a.len() as int;
    lemma_ws_prefix(a, t, x + 1);
    let inner = ws_end(a, x + 1);
    lemma_number_prefix(a, t, inner);
    if inner < n {
        lemma_prefix_char(a, t, inner);
    } else {
        assert(digits_end(a, n) == n);
        lemma_ws_prefix(a, t, n);
    }
    if inner < n && a[inner] == ']' {
    } else {
        let (first, af) = spec_index_number(a, inner)->Ok_0;
        lemma_ws_prefix(a, t, af);
        let af2 = ws_end(a, af);
        if af2 < n {
            lemma_prefix_char(a, t, af2);
            if a[af2] == ':' {
                lemma_ws_prefix(a, t, af2 + 1);
                let s2 = ws_end(a, af2 + 1);
                lemma_number_prefix(a, t, s2);
                if s2 == n {
                    assert(digits_end(a, n) == n);
                }
                let (second, bs) = spec_index_number(a, s2)->Ok_0;
                lemma_ws_prefix(a, t, bs);
                let bs2 = ws_end(a, bs);
                if bs2 < n {
                    lemma_prefix_char(a, t, bs2);
                }
            }
        }
    }
}

proof fn lemma_length_word_prefix(a: Seq<char>, t: Seq<char>, s: int)
    requires
        bar_follows(a, t),
        0 <= s <= a.len(),
        length_word_at(a, s),
    ensures
        length_word_at(t, s),
{
    lemma_ident_prefix(a, t, s);
    lemma_sub_prefix(a, t, s, s + 6);
}

proof fn lemma_atom_prefix(a: Seq<char>, t: Seq<char>, i: int)
    requires
        bar_follows(a, t),
        0 <= i <= a.len(),
        spec_atom(a, i) is Ok,
    ensures
        spec_atom(t, i) == spec_atom(a, i),
        i <= spec_atom(a, i)->Ok_0.1 <= a.len(),
{
    let n = a.len() as int;
    lemma_ws_prefix(a, t, i);
    let s = ws_end(a, i);
    if s == n {
        assert(!length_word_at(a, n));
    }
    assert(s < n);
    lemma_prefix_char(a, t, s);
    if a[s] != '.' {
        lemma_length_word_prefix(a, t, s);
    } else {
        if s + 1 < n {
            lemma_prefix_char(a, t, s + 1);
        }
        if s + 1 < n && a[s + 1] == '[' {
            lemma_bracket_prefix(a, t, s + 1);
        } else {
            lemma_ident_prefix(a, t, s + 1);
            let e = ident_end(a, s + 1);
            if e < n {
                lemma_prefix_char(a, t, e);
            }
            lemma_sub_prefix(a, t, s + 1, e);
        }
    }
}

proof fn lemma_chain_prefix(a: Seq<char>, t: Seq<char>, i: int)
    requires
        bar_follows(a, t),
        0 <= i <= a.len(),
        spec_chain(a, i) is Ok,
    ensures
        spec_chain(t, i) == spec_chain(a, i),
        i <= spec_chain(a, i)->Ok_0.1 <= a.len(),
    decreases a.len() - i,
{
    let n = a.len() as int;
    lemma_atom_prefix(a, t, i);
    let (atom, r) = spec_atom(a, i)->Ok_0;
    lemma_ws_prefix(a, t, r);
    let rt = ws_end(a, r);
    if rt < n {
        lemma_prefix_char(a, t, rt);
        if rt + 1 < n {
            lemma_prefix_char(a, t, rt + 1);
        } else {
            assert(!unicode_alphabetic(t[n]));
        }
    }
    if continues_chain(a, rt) && i < rt && rt <= n {
        lemma_chain_prefix(a, t, rt);
    }
}


/// What the pipeline in `t` from `i` reads as with the query `q` joined
/// after it by a bar: its chains, grouped to the right, ending in `q`.
pub open spec fn pipe_then(t: Seq<char>, i: int, q: SpecExpr) -> SpecExpr
    decreases t.len() - i,
{
    match spec_chain(t, i) {
        Err(_) => q,
        Ok((left, r)) => {
            let r2 = ws_end(t, r);
            let j = ws_end(t, r2 + 1);
            if r2 < t.len() && t[r2] == '|' && i < j && j <= t.len() {
                SpecExpr::Pipe(Box::new(left), Box::new(pipe_then(t, j, q)))
            } else {
                SpecExpr::Pipe(Box::new(left), Box::new(q))
            }
        },
    }
}

proof fn lemma_pipe_prefix(a: Seq<char>, t: Seq<char>, i: int, q: SpecExpr)
    requires
        bar_follows(a, t),
        0 <= i <= a.len(),
        spec_pipe(a, i) is Ok,
        spec_pipe(a, i)->Ok_0.1 == a.len(),
        spec_pipe(t, ws_end(t, a.len() + 2int)) == Ok::<(SpecExpr, int), SpecQueryError>((q, t.len() as int)),
        a.len() + 2 <= ws_end(t, a.len() + 2int) <= t.len(),
    ensures
        spec_pipe(t, i) == Ok::<(SpecExpr, int), SpecQueryError>((pipe_then(a, i, q), t.len() as int)),
    decreases a.len() - i,
{
    let n = a.len() as int;
    lemma_chain_prefix(a, t, i);
    let (left, r) = spec_chain(a, i)->Ok_0;
    lemma_ws_prefix(a, t, r);
    let r2 = ws_end(a, r);
    if r2 < n {
        lemma_prefix_char(a, t, r2);
    }
    if r2 < n && a[r2] == '|' {
        lemma_ws_prefix(a, t, r2 + 1);
        let j = ws_end(a, r2 + 1);
        if j == n {
            assert(ws_end(a, n) == n);
            assert(!length_word_at(a, n));
            assert(spec_atom(a, n) is Err);
            assert(spec_chain(a, n) is Err);
            assert(spec_pipe(a, n) is Err);
        }
        assert(j < n);
        lemma_pipe_prefix(a, t, j, q);
    } else {
        assert(r2 == n);
        assert(t[n + 1] == '|');
    }
}

/// `x` and `y` succeed on the same inputs, and then give the same results.
pub open spec fn same_results(x: SpecExpr, y: SpecExpr) -> bool {
    forall|v: Seq<SpecValue>|
        #![trigger spec_eval(x, v)]
        #![trigger spec_eval(y, v)]
        (spec_eval(x, v) is Ok <==> spec_eval(y, v) is Ok) && (spec_eval(x, v) is Ok ==> spec_eval(x, v) == spec_eval(y, v))
}

proof fn lemma_same_pipe_right(l: SpecExpr, x: SpecExpr, y: SpecExpr)
    requires
        same_results(x, y),
    ensures
        same_results(
            SpecExpr::Pipe(Box::new(l), Box::new(x)),
            SpecExpr::Pipe(Box::new(l), Box::new(y)),
        ),
{
    let px = SpecExpr::Pipe(Box::new(l), Box::new(x));
    let py = SpecExpr::Pipe(Box::new(l), Box::new(y));
    assert forall|v: Seq<SpecValue>|
        (#[trigger] spec_eval(px, v) is Ok <==> spec_eval(py, v) is Ok)
        && (spec_eval(px, v) is Ok ==> spec_eval(px, v) == spec_eval(py, v)) by {
        lemma_pipe_concatenates(l, x, v);
        lemma_pipe_concatenates(l, y, v);
        if spec_eval(l, v) is Ok {
            let xs = spec_eval(l, v)->Ok_0;
            assert forall|i: int| 0 <= i < xs.len() implies
                (#[trigger] spec_eval(x, xs[i]) is Ok <==> spec_eval(y, xs[i]) is Ok) by {}
            if spec_eval(px, v) is Ok {
                assert forall|i: int| 0 <= i < xs.len() implies spec_eval(y, xs[i]) is Ok by {
                    assert(spec_eval(x, xs[i]) is Ok);
                }
                assert(results_of_each(x, xs) =~= results_of_each(y, xs)) by {
                    assert forall|i: int| 0 <= i < xs.len() implies
                        #[trigger] results_of_each(x, xs)[i] == results_of_each(y, xs)[i] by {
                        assert(spec_eval(x, xs[i]) is Ok);
                    }
                }
            }
            if spec_eval(py, v) is Ok {
                assert forall|i: int| 0 <= i < xs.len() implies spec_eval(x, xs[i]) is Ok by {
                    assert(spec_eval(y, xs[i]) is Ok);
                }
            }
        }
    }
}

proof fn lemma_pipe_then_regroups(a: Seq<char>, i: int, q: SpecExpr)
    requires
        0 <= i <= a.len(),
        spec_pipe(a, i) is Ok,
    ensures
        same_results(pipe_then(a, i, q), SpecExpr::Pipe(Box::new(spec_pipe(a, i)->Ok_0.0), Box::new(q))),
    decreases a.len() - i,
{
    let (left, r) = spec_chain(a, i)->Ok_0;
    let r2 = ws_end(a, r);
    let j = ws_end(a, r2 + 1);
    if r2 < a.len() && a[r2] == '|' && i < j && j <= a.len() {
        let right = spec_pipe(a, j)->Ok_0.0;
        lemma_pipe_then_regroups(a, j, q);
        lemma_same_pipe_right(left, pipe_then(a, j, q), SpecExpr::Pipe(Box::new(right), Box::new(q)));
        let x = pipe_then(a, i, q);
        let m = SpecExpr::Pipe(Box::new(left), Box::new(SpecExpr::Pipe(Box::new(right), Box::new(q))));
        let y = SpecExpr::Pipe(Box::new(SpecExpr::Pipe(Box::new(left), Box::new(right))), Box::new(q));
        assert forall|v: Seq<SpecValue>|
            (#[trigger] spec_eval(x, v) is Ok <==> spec_eval(y, v) is Ok)
            && (spec_eval(x, v) is Ok ==> spec_eval(x, v) == spec_eval(y, v)) by {
            lemma_pipe_associative(left, right, q, v);
            assert(spec_eval(m, v) is Ok <==> spec_eval(x, v) is Ok);
        }
    }
}


// ---------------------------------------------------------------------------
// Whole query texts.
// ---------------------------------------------------------------------------

proof fn lemma_ws_end_stops(t: Seq<char>, i: int, k: int)
    requires
        0 <= i <= k < t.len(),
        !unicode_white_space(t[k]),
    ensures
        ws_end(t, i) <= k,
    decreases k - i,
{
    if i < k && unicode_white_space(t[i]) {
        lemma_ws_end_stops(t, i + 1, k);
    }
}

/// A text that trimming leaves as it is, and that is not empty, starts and
/// ends with a character that is not whitespace.
proof fn lemma_trimmed_ends(p: Seq<char>)
    requires
        p == trim(p),
        p.len() > 0,
    ensures
        !unicode_white_space(p[0]),
        !unicode_white_space(p[p.len() - 1]),
{
    let n = p.len() as int;
    lemma_ws_end_bounds(p, 0);
    let e = ws_end(p, 0);
    lemma_ws_back_bounds(p, e, n);
    let b = ws_back(p, e, n);
    assert(trim(p).len() == b - e);
    assert(e == 0 && b == n);
    assert(!unicode_white_space(p[0])) by {
        if unicode_white_space(p[0]) {
            lemma_ws_end_bounds(p, 1);
            assert(ws_end(p, 0) == ws_end(p, 1));
        }
    }
    assert(!unicode_white_space(p[n - 1])) by {
        if unicode_white_space(p[n - 1]) {
            assert(ws_back(p, 0, n) == ws_back(p, 0, n - 1));
            lemma_ws_back_bounds(p, 0, n - 1);
        }
    }
}

/// A text that starts and ends with a character that is not whitespace is
/// left as it is by trimming.
proof fn lemma_trim_keeps(t: Seq<char>)
    requires
        t.len() > 0,
        !unicode_white_space(t[0]),
        !unicode_white_space(t[t.len() - 1]),
    ensures
        trim(t) == t,
{
    assert(ws_end(t, 0) == 0);
    assert(ws_back(t, 0, t.len() as int) == t.len());
    assert(t.subrange(0, t.len() as int) =~= t);
}

/// A query text that parses and that trimming leaves as it is: the whole
/// of it is one pipeline.
proof fn lemma_parse_whole(p: Seq<char>)
    requires
        p == trim(p),
        spec_parse(p) is Ok,
    ensures
        p.len() > 0,
        spec_pipe(p, 0) is Ok,
        spec_pipe(p, 0)->Ok_0.1 == p.len(),
        spec_parse(p) == Ok::<SpecExpr, SpecQueryError>(spec_pipe(p, 0)->Ok_0.0),
{
    let n = p.len() as int;
    if n == 0 {
        assert(ws_end(p, 0) == 0);
        assert(!length_word_at(p, 0));
        assert(spec_atom(p, 0) is Err);
        assert(spec_chain(p, 0) is Err);
        assert(spec_pipe(p, 0) is Err);
    }
    assert(Seq::<char>::empty() + p =~= p);
    lemma_pipe_shift(Seq::<char>::empty(), p, 0);
    let r = spec_pipe(p, 0)->Ok_0.1;
    if r < n {
        lemma_trimmed_ends(p);
        let sub = p.subrange(r, n);
        let m = sub.len() as int;
        assert(sub[m - 1] == p[n - 1]);
        assert(!unicode_white_space(sub[m - 1]));
        lemma_ws_end_stops(sub, 0, m - 1);
        lemma_ws_end_bounds(sub, 0);
        let e = ws_end(sub, 0);
        assert(0 <= e < m);
        assert(ws_back(sub, e, m) == m);
        assert(trim(sub).len() == m - e);
    }
}

/// A query that parses, with no whitespace around it, runs as its parse.
proof fn lemma_evaluate_parsed(s: Seq<char>, v: Seq<SpecValue>)
    requires
        s == trim(s),
        spec_parse(s) is Ok,
    ensures
        spec_evaluate(v, Some(s)) == spec_eval(spec_parse(s)->Ok_0, v),
{
    lemma_parse_whole(s);
    if trim(s) == seq!['.'] {
        assert(s.len() == 1 && s[0] == '.');
        assert(!unicode_white_space(s[0]));
        assert(ws_end(s, 0) == 0);
        assert(ident_end(s, 1) == 1);
        assert(spec_atom(s, 0) == Ok::<(SpecExpr, int), SpecQueryError>((SpecExpr::Identity, 1)));
        assert(ws_end(s, 1) == 1);
        assert(!continues_chain(s, 1));
        assert(spec_chain(s, 0) == Ok::<(SpecExpr, int), SpecQueryError>((SpecExpr::Identity, 1)));
        assert(spec_pipe(s, 0) == Ok::<(SpecExpr, int), SpecQueryError>((SpecExpr::Identity, 1)));
    }
}

/// Two query texts joined by ` | ` parse, and the joined query succeeds
/// exactly when the left query piped into the right one does, and then
/// gives the same results.  (The text groups its bars to the right, the
/// pipe of the two parses to the left; where both fail they may report
/// different errors.)  The texts have no whitespace around them: outside
/// ASCII, which characters are whitespace is std's matter, and nothing
/// here rules out one that both is whitespace and continues a field name.
pub proof fn lemma_joined_query_parses(p: Seq<char>, q: Seq<char>)
    requires
        p == trim(p),
        q == trim(q),
        spec_parse(p) is Ok,
        spec_parse(q) is Ok,
    ensures
        spec_parse(p + " | "@ + q) is Ok,
        same_results(
            spec_parse(p + " | "@ + q)->Ok_0,
            SpecExpr::Pipe(Box::new(spec_parse(p)->Ok_0), Box::new(spec_parse(q)->Ok_0)),
        ),
{
    reveal_strlit(" | ");
    let n = p.len() as int;
    let pre = p + " | "@;
    let t = pre + q;
    lemma_parse_whole(p);
    lemma_parse_whole(q);
    lemma_trimmed_ends(p);
    lemma_trimmed_ends(q);
    let eq = spec_pipe(q, 0)->Ok_0.0;
    assert(t[n] == ' ');
    assert(t[n + 1] == '|');
    assert(t[n + 2] == ' ');
    assert(t[n + 3] == q[0]);
    assert(t.subrange(0, n) =~= p);
    assert(bar_follows(p, t));
    lemma_pipe_shift(pre, q, 0);
    assert(ws_end(t, n + 3) == n + 3);
    assert(ws_end(t, n + 2) == n + 3);
    lemma_pipe_prefix(p, t, 0, eq);
    assert(t[t.len() - 1] == q[q.len() - 1]);
    assert(t[0] == p[0]);
    lemma_trim_keeps(t);
    assert(t.subrange(t.len() as int, t.len() as int) =~= Seq::<char>::empty());
    assert(trim(Seq::<char>::empty()) =~= Seq::<char>::empty());
    assert(spec_parse(t) == Ok::<SpecExpr, SpecQueryError>(pipe_then(p, 0, eq)));
    lemma_pipe_then_regroups(p, 0, eq);
}

/// The results of the query text `q` on each of `xs`, in order.
pub open spec fn query_results_of_each(q: Seq<char>, xs: Seq<Seq<SpecValue>>) -> Seq<Seq<Seq<SpecValue>>> {
    xs.map_values(|x: Seq<SpecValue>| spec_evaluate(x, Some(q))->Ok_0)
}

/// Running `p | q` runs `q` on each result of `p`, in order, and gives the
/// concatenation of what those runs give; it succeeds exactly when `p` and
/// every one of those runs do.  For query texts `p` and `q` that parse and
/// have no whitespace around them.
#[verifier::rlimit(50)]
pub proof fn lemma_joined_query_concatenates(p: Seq<char>, q: Seq<char>, v: Seq<SpecValue>)
    requires
        p == trim(p),
        q == trim(q),
        spec_parse(p) is Ok,
        spec_parse(q) is Ok,
    ensures
        spec_evaluate(v, Some(p + " | "@ + q)) is Ok <==> (
            spec_evaluate(v, Some(p)) is Ok
            && forall|i: int| 0 <= i < spec_evaluate(v, Some(p))->Ok_0.len()
                ==> #[trigger] spec_evaluate(spec_evaluate(v, Some(p))->Ok_0[i], Some(q)) is Ok),
        spec_evaluate(v, Some(p + " | "@ + q)) is Ok ==> spec_evaluate(v, Some(p + " | "@ + q))->Ok_0
            == query_results_of_each(q, spec_evaluate(v, Some(p))->Ok_0).flatten(),
{
    reveal_strlit(" | ");
    let t = p + " | "@ + q;
    lemma_joined_query_parses(p, q);
    lemma_parse_whole(p);
    lemma_parse_whole(q);
    lemma_trimmed_ends(p);
    lemma_trimmed_ends(q);
    assert(t[0] == p[0]);
    assert(t[t.len() - 1] == q[q.len() - 1]);
    lemma_trim_keeps(t);
    lemma_evaluate_parsed(t, v);
    lemma_evaluate_parsed(p, v);
    let ep = spec_parse(p)->Ok_0;
    let eq = spec_parse(q)->Ok_0;
    let joined = spec_parse(t)->Ok_0;
    assert(spec_eval(joined, v) is Ok <==> spec_eval(SpecExpr::Pipe(Box::new(ep), Box::new(eq)), v) is Ok);
    lemma_pipe_concatenates(ep, eq, v);
    if spec_eval(ep, v) is Ok {
        let xs = spec_eval(ep, v)->Ok_0;
        assert forall|i: int| 0 <= i < xs.len() implies
            #[trigger] spec_evaluate(xs[i], Some(q)) == spec_eval(eq, xs[i]) by {
            lemma_evaluate_parsed(q, xs[i]);
        }
        let all_q = forall|i: int| 0 <= i < xs.len() ==> #[trigger] spec_evaluate(xs[i], Some(q)) is Ok;
        let all_e = forall|i: int| 0 <= i < xs.len() ==> #[trigger] spec_eval(eq, xs[i]) is Ok;
        assert(all_q <==> all_e) by {
            if all_q {
                assert forall|i: int| 0 <= i < xs.len() implies #[trigger] spec_eval(eq, xs[i]) is Ok by {
                    assert(spec_evaluate(xs[i], Some(q)) is Ok);
                }
            }
            if all_e {
                assert forall|i: int| 0 <= i < xs.len() implies #[trigger] spec_evaluate(xs[i], Some(q)) is Ok by {
                    assert(spec_eval(eq, xs[i]) is Ok);
                }
            }
        }
        assert(query_results_of_each(q, xs) =~= results_of_each(eq, xs));
    }
}

} // verus!
