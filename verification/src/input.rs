//! Reading Candid values: the input formats, how the format is detected,
//! and how input is cut into values (text values, hex lines, binary frames)
//! that candid then decodes.
use vstd::prelude::*;
use vstd::utf8::{valid_utf8, decode_utf8, encode_utf8};
use crate::bin_frame::{FrameError, frame_size, spec_frame_size, frame_error_text, lemma_frame_size_ignores_following_bytes};
use crate::value::{Args, SpecValue};
use crate::idl::args_of;
use crate::label_guard::{check_labels, labels_safe};
use crate::text::{chars_of, trim, trimmed, string_of, ws_end, skip_ws, lemma_ws_end_bounds, unicode_white_space};

verus! {

broadcast use vstd::std_specs::vec::group_vec_axioms;

/// candid's decoded argument list; only carried through.
#[verifier::external_type_specification]
#[verifier::external_body]
pub struct ExIdlArgs(candid::IDLArgs);

/// The error type of `hex::decode`; only carried through.
#[verifier::external_type_specification]
#[verifier::external_body]
pub struct ExFromHexError(hex::FromHexError);

/// How input is written.
#[derive(Clone, Copy, Debug, PartialEq, Eq, Structural)]
pub enum InputFormat {
    /// Told apart by looking at the input.
    Auto,
    /// Candid text.
    Candid,
    /// Binary Candid written in hex, one frame per line.
    Hex,
    /// Binary Candid, frames back to back.
    Bin,
}

/// Why input could not be read.
#[derive(Debug, PartialEq, Eq)]
pub enum InputError {
    /// An input format name that is none of `candid`, `hex`, `bin`.
    UnknownFormat(String),
    /// The input is not valid UTF-8 (text and hex input).
    NotUtf8,
    /// candid could not parse a text value (candid's message).
    TextParse(String),
    /// A text value holds `0X`, which candid_parser cannot take as the
    /// start of a hex number.
    UpperHexPrefix,
    /// A text value may label a record field so close to 4294967295 that
    /// candid_parser's field numbering overflows.
    FieldIdTooLarge,
    /// A line of hex input is not valid hex (the line, trimmed).
    InvalidHex(String),
    /// A hex line does not hold binary Candid that candid can decode.
    HexDecode,
    /// A binary frame that candid cannot decode.
    BinDecode,
    /// Binary input that is not a well-formed sequence of frames.
    Frame(FrameError),
}

/// The mathematical model of an [`InputError`].
pub enum SpecInputError {
    UnknownFormat(Seq<char>),
    NotUtf8,
    TextParse(Seq<char>),
    UpperHexPrefix,
    FieldIdTooLarge,
    InvalidHex(Seq<char>),
    HexDecode,
    BinDecode,
    Frame(FrameError),
}

impl View for InputError {
    type V = SpecInputError;

    open spec fn view(&self) -> SpecInputError {
        match self {
            InputError::UnknownFormat(s) => SpecInputError::UnknownFormat(s@),
            InputError::NotUtf8 => SpecInputError::NotUtf8,
            InputError::TextParse(s) => SpecInputError::TextParse(s@),
            InputError::UpperHexPrefix => SpecInputError::UpperHexPrefix,
            InputError::FieldIdTooLarge => SpecInputError::FieldIdTooLarge,
            InputError::InvalidHex(s) => SpecInputError::InvalidHex(s@),
            InputError::HexDecode => SpecInputError::HexDecode,
            InputError::BinDecode => SpecInputError::BinDecode,
            InputError::Frame(e) => SpecInputError::Frame(*e),
        }
    }
}

/// Whether `s` and `t` hold the same characters.
pub fn same_text(s: &str, t: &str) -> (r: bool)
    ensures
        r == (s@ == t@),
{
    let a = chars_of(s);
    let b = chars_of(t);
    if a.len() != b.len() {
        return false;
    }
    let mut i: usize = 0;
    while i < a.len()
        invariant
            a@.len() == b@.len(),
            a@ == s@,
            b@ == t@,
            i <= a@.len(),
            forall|j: int| 0 <= j < i ==> a@[j] == b@[j],
        decreases a.len() - i,
    {
        if a[i] != b[i] {
            assert(a@[i as int] != b@[i as int]);
            return false;
        }
        i = i + 1;
    }
    assert(a@ =~= b@);
    true
}

/// The input format named `s`.
pub open spec fn spec_input_format(s: Seq<char>) -> Option<InputFormat> {
    if s == "candid"@ {
        Some(InputFormat::Candid)
    } else if s == "hex"@ {
        Some(InputFormat::Hex)
    } else if s == "bin"@ {
        Some(InputFormat::Bin)
    } else {
        None
    }
}

impl InputFormat {
    /// The input format named `s`: `candid`, `hex` or `bin`.
    pub fn from_str(s: &str) -> (r: Result<InputFormat, InputError>)
        ensures
            match spec_input_format(s@) {
                Some(f) => r == Ok::<InputFormat, InputError>(f),
                None => r matches Err(e) && e@ == SpecInputError::UnknownFormat(s@),
            },
    {
        if same_text(s, "candid") {
            Ok(InputFormat::Candid)
        } else if same_text(s, "hex") {
            Ok(InputFormat::Hex)
        } else if same_text(s, "bin") {
            Ok(InputFormat::Bin)
        } else {
            Err(InputError::UnknownFormat(s.to_owned()))
        }
    }
}

// ---------------------------------------------------------------------------
// Detecting the format.
// ---------------------------------------------------------------------------

/// Whether `b` starts with the binary Candid magic `DIDL`.
pub open spec fn spec_looks_binary(b: Seq<u8>) -> bool {
    b.len() >= 4 && b.subrange(0, 4) == crate::bin_frame::didl_magic()
}

/// ASCII whitespace as `u8::is_ascii_whitespace` has it: space, tab, line
/// feed, form feed, carriage return.
pub open spec fn ascii_ws(b: u8) -> bool {
    b == 0x20 || b == 0x09 || b == 0x0a || b == 0x0c || b == 0x0d
}

/// The hex digits `0-9`, `a-f`, `A-F`.
pub open spec fn hex_digit(b: u8) -> bool {
    (0x30 <= b && b <= 0x39) || (0x61 <= b && b <= 0x66) || (0x41 <= b && b <= 0x46)
}

/// The number of bytes of `b` that are not ASCII whitespace.
pub open spec fn non_ws_count(b: Seq<u8>) -> nat
    decreases b.len(),
{
    if b.len() == 0 {
        0
    } else {
        non_ws_count(b.drop_last()) + if ascii_ws(b.last()) { 0nat } else { 1nat }
    }
}

/// Whether `b` looks like hex: at least two bytes that are not whitespace,
/// and all of them hex digits.
pub open spec fn spec_looks_hex(b: Seq<u8>) -> bool {
    &&& forall|i: int| 0 <= i < b.len() && !ascii_ws(b[i]) ==> hex_digit(#[trigger] b[i])
    &&& non_ws_count(b) >= 2
}

fn looks_like_binary(bytes: &[u8]) -> (r: bool)
    ensures
        r == spec_looks_binary(bytes@),
{
    if bytes.len() < 4 {
        return false;
    }
    let r = bytes[0] == 0x44 && bytes[1] == 0x49 && bytes[2] == 0x44 && bytes[3] == 0x4c;
    proof {
        let m = crate::bin_frame::didl_magic();
        if r {
            assert(bytes@.subrange(0, 4) =~= m);
        } else {
            if bytes@.subrange(0, 4) == m {
                assert(bytes@.subrange(0, 4)[0] == bytes@[0]);
                assert(bytes@.subrange(0, 4)[1] == bytes@[1]);
                assert(bytes@.subrange(0, 4)[2] == bytes@[2]);
                assert(bytes@.subrange(0, 4)[3] == bytes@[3]);
            }
        }
    }
    r
}

fn looks_like_hex(bytes: &[u8]) -> (r: bool)
    ensures
        r == spec_looks_hex(bytes@),
{
    let mut count: usize = 0;
    let mut all_hex = true;
    let mut i: usize = 0;
    while i < bytes.len()
        invariant
            i <= bytes@.len(),
            count == non_ws_count(bytes@.subrange(0, i as int)),
            count <= i,
            all_hex == (forall|j: int| 0 <= j < i && !ascii_ws(bytes@[j]) ==> hex_digit(#[trigger] bytes@[j])),
        decreases bytes.len() - i,
    {
        let b = bytes[i];
        assert(bytes@.subrange(0, i + 1).drop_last() =~= bytes@.subrange(0, i as int));
        let ws = b == 0x20 || b == 0x09 || b == 0x0a || b == 0x0c || b == 0x0d;
        if !ws {
            count = count + 1;
            let hex = (0x30 <= b && b <= 0x39) || (0x61 <= b && b <= 0x66) || (0x41 <= b && b <= 0x46);
            if !hex {
                all_hex = false;
            }
        }
        i = i + 1;
    }
    assert(bytes@.subrange(0, bytes@.len() as int) =~= bytes@);
    all_hex && count >= 2
}

// ---------------------------------------------------------------------------
// Cutting text input into values: `(a)(b)` and one value per line both give
// two values.  A value ends where its outermost parentheses close; text
// inside string literals does not count.
// ---------------------------------------------------------------------------

/// Where the value that is being scanned at `i` ends: just after the `)` that
/// brings the parenthesis depth back to zero, or at the end of `t`.
pub open spec fn value_end(t: Seq<char>, i: int, depth: nat, in_str: bool, escaped: bool) -> int
    decreases t.len() - i,
{
    if i < 0 || i >= t.len() {
        t.len() as int
    } else if in_str {
        if escaped {
            value_end(t, i + 1, depth, true, false)
        } else if t[i] == '\\' {
            value_end(t, i + 1, depth, true, true)
        } else if t[i] == '"' {
            value_end(t, i + 1, depth, false, false)
        } else {
            value_end(t, i + 1, depth, true, false)
        }
    } else if t[i] == '"' {
        value_end(t, i + 1, depth, true, false)
    } else if t[i] == '(' {
        value_end(t, i + 1, depth + 1, false, false)
    } else if t[i] == ')' {
        if depth <= 1 {
            i + 1
        } else {
            value_end(t, i + 1, (depth - 1) as nat, false, false)
        }
    } else {
        value_end(t, i + 1, depth, false, false)
    }
}

/// The text values of `t` from `i` on: each starts at the next character that
/// is not whitespace and ends at [`value_end`].
pub open spec fn text_values(t: Seq<char>, i: int) -> Seq<Seq<char>>
    decreases t.len() - i,
{
    let s = ws_end(t, i);
    if s < 0 || s >= t.len() {
        Seq::empty()
    } else {
        let e = value_end(t, s, 0, false, false);
        if i < e && e <= t.len() {
            seq![t.subrange(s, e)] + text_values(t, e)
        } else {
            Seq::empty()
        }
    }
}

proof fn lemma_value_end_bounds(t: Seq<char>, i: int, depth: nat, in_str: bool, escaped: bool)
    requires
        0 <= i < t.len(),
    ensures
        i < value_end(t, i, depth, in_str, escaped) <= t.len(),
    decreases t.len() - i,
{
    reveal_with_fuel(value_end, 2);
    if i + 1 < t.len() {
        if in_str {
            if escaped {
                lemma_value_end_bounds(t, i + 1, depth, true, false);
            } else if t[i] == '\\' {
                lemma_value_end_bounds(t, i + 1, depth, true, true);
            } else if t[i] == '"' {
                lemma_value_end_bounds(t, i + 1, depth, false, false);
            } else {
                lemma_value_end_bounds(t, i + 1, depth, true, false);
            }
        } else if t[i] == '"' {
            lemma_value_end_bounds(t, i + 1, depth, true, false);
        } else if t[i] == '(' {
            lemma_value_end_bounds(t, i + 1, depth + 1, false, false);
        } else if t[i] == ')' {
            if depth > 1 {
                lemma_value_end_bounds(t, i + 1, (depth - 1) as nat, false, false);
            }
        } else {
            lemma_value_end_bounds(t, i + 1, depth, false, false);
        }
    }
}

fn scan_value_end(t: &Vec<char>, start: usize) -> (r: usize)
    requires
        start < t@.len(),
    ensures
        r as int == value_end(t@, start as int, 0, false, false),
        start < r <= t@.len(),
{
    proof {
        lemma_value_end_bounds(t@, start as int, 0, false, false);
    }
    let mut i = start;
    let mut depth: usize = 0;
    let mut in_str = false;
    let mut escaped = false;
    while i < t.len()
        invariant
            start <= i <= t@.len(),
            depth <= i - start,
            escaped ==> in_str,
            value_end(t@, start as int, 0, false, false) == value_end(t@, i as int, depth as nat, in_str, escaped),
        decreases t.len() - i,
    {
        let c = t[i];
        if in_str {
            if escaped {
                escaped = false;
            } else if c == '\\' {
                escaped = true;
            } else if c == '"' {
                in_str = false;
            }
        } else if c == '"' {
            in_str = true;
        } else if c == '(' {
            depth = depth + 1;
        } else if c == ')' {
            if depth <= 1 {
                return i + 1;
            }
            depth = depth - 1;
        }
        i = i + 1;
    }
    i
}

/// The text values of `t`.
fn split_text_values(t: &Vec<char>) -> (r: Vec<String>)
    ensures
        r@.map_values(|s: String| s@) == text_values(t@, 0),
{
    let mut out: Vec<String> = Vec::new();
    let mut i: usize = 0;
    while i < t.len()
        invariant
            i <= t@.len(),
            text_values(t@, 0) == out@.map_values(|s: String| s@) + text_values(t@, i as int),
        decreases t.len() - i,
    {
        let s = skip_ws(t, i);
        if s >= t.len() {
            assert(text_values(t@, i as int) =~= Seq::<Seq<char>>::empty());
            assert(text_values(t@, s as int) =~= Seq::<Seq<char>>::empty());
            i = s;
        } else {
            let e = scan_value_end(t, s);
            let ghost before = out@;
            out.push(string_of(t.as_slice(), s, e));
            assert(out@.map_values(|x: String| x@) =~= before.map_values(|x: String| x@).push(
                t@.subrange(s as int, e as int),
            ));
            assert(text_values(t@, i as int) == seq![t@.subrange(s as int, e as int)] + text_values(t@, e as int));
            assert(out@.map_values(|x: String| x@) + text_values(t@, e as int)
                =~= before.map_values(|x: String| x@) + text_values(t@, i as int));
            i = e;
        }
    }
    proof {
        if i >= t@.len() {
            assert(text_values(t@, i as int) =~= Seq::<Seq<char>>::empty());
        }
    }
    assert(out@.map_values(|x: String| x@) + Seq::<Seq<char>>::empty() =~= out@.map_values(|x: String| x@));
    out
}

/// A value complete in itself: it does not start with whitespace, and its
/// outermost parentheses close at its last character, whatever follows.
pub open spec fn complete_value(v: Seq<char>) -> bool {
    &&& v.len() > 0
    &&& !unicode_white_space(v[0])
    &&& value_end(v.push(' '), 0, 0, false, false) == v.len()
}

/// Whitespace only.
pub open spec fn all_white(w: Seq<char>) -> bool {
    forall|k: int| 0 <= k < w.len() ==> unicode_white_space(#[trigger] w[k])
}

/// The values `vs` written one after another, `ws[i]` before `vs[i]`.
pub open spec fn joined(vs: Seq<Seq<char>>, ws: Seq<Seq<char>>) -> Seq<char> {
    Seq::new(vs.len(), |i: int| ws[i] + vs[i]).flatten()
}

/// The scan of a value reads nothing past where it ends: text that agrees
/// with `u` (shifted by `off`) up to there ends the value at the same place.
proof fn lemma_value_end_shift(t: Seq<char>, off: int, u: Seq<char>, i: int, depth: nat, in_str: bool, escaped: bool)
    requires
        0 <= off,
        0 <= i,
        value_end(u, i, depth, in_str, escaped) < u.len(),
        off + value_end(u, i, depth, in_str, escaped) <= t.len(),
        forall|k: int| i <= k < value_end(u, i, depth, in_str, escaped) ==> t[off + k] == #[trigger] u[k],
    ensures
        value_end(t, off + i, depth, in_str, escaped) == off + value_end(u, i, depth, in_str, escaped),
    decreases u.len() - i,
{
    let r = value_end(u, i, depth, in_str, escaped);
    lemma_value_end_bounds(u, i, depth, in_str, escaped);
    assert(t[off + i] == u[i]);
    if in_str {
        if escaped {
            lemma_value_end_shift(t, off, u, i + 1, depth, true, false);
        } else if u[i] == '\\' {
            lemma_value_end_shift(t, off, u, i + 1, depth, true, true);
        } else if u[i] == '"' {
            lemma_value_end_shift(t, off, u, i + 1, depth, false, false);
        } else {
            lemma_value_end_shift(t, off, u, i + 1, depth, true, false);
        }
    } else if u[i] == '"' {
        lemma_value_end_shift(t, off, u, i + 1, depth, true, false);
    } else if u[i] == '(' {
        lemma_value_end_shift(t, off, u, i + 1, depth + 1, false, false);
    } else if u[i] == ')' {
        if depth > 1 {
            lemma_value_end_shift(t, off, u, i + 1, (depth - 1) as nat, false, false);
        }
    } else {
        lemma_value_end_shift(t, off, u, i + 1, depth, false, false);
    }
}

/// Whitespace from `i` up to `e`, then none: the next non-whitespace is at `e`.
proof fn lemma_ws_run(t: Seq<char>, i: int, e: int)
    requires
        0 <= i <= e <= t.len(),
        forall|k: int| i <= k < e ==> unicode_white_space(#[trigger] t[k]),
        e < t.len() ==> !unicode_white_space(t[e]),
    ensures
        ws_end(t, i) == e,
    decreases e - i,
{
    if i < e {
        lemma_ws_run(t, i + 1, e);
    }
}

/// Cutting `pre + joined(vs, ws) + tail` from just after `pre` gives `vs`.
proof fn lemma_values_from(pre: Seq<char>, vs: Seq<Seq<char>>, ws: Seq<Seq<char>>, tail: Seq<char>)
    requires
        ws.len() == vs.len(),
        forall|i: int| 0 <= i < vs.len() ==> complete_value(#[trigger] vs[i]),
        forall|i: int| 0 <= i < ws.len() ==> all_white(#[trigger] ws[i]),
        all_white(tail),
    ensures
        text_values(pre + joined(vs, ws) + tail, pre.len() as int) == vs,
    decreases vs.len(),
{
    let t = pre + joined(vs, ws) + tail;
    let p = pre.len() as int;
    let pieces = Seq::new(vs.len(), |i: int| ws[i] + vs[i]);
    if vs.len() == 0 {
        assert(joined(vs, ws) =~= Seq::<char>::empty());
        assert forall|k: int| p <= k < t.len() implies unicode_white_space(#[trigger] t[k]) by {
            assert(t[k] == tail[k - p]);
        }
        lemma_ws_run(t, p, t.len() as int);
        assert(text_values(t, p) =~= vs);
    } else {
        let w0 = ws[0];
        let v0 = vs[0];
        let rvs = vs.drop_first();
        let rws = ws.drop_first();
        assert(complete_value(vs[0]));
        assert(all_white(ws[0]));
        assert(pieces.drop_first() =~= Seq::new(rvs.len(), |i: int| rws[i] + rvs[i]));
        assert(joined(vs, ws) == pieces.first() + pieces.drop_first().flatten());
        assert(joined(vs, ws) =~= w0 + v0 + joined(rvs, rws));
        let pre2 = pre + w0 + v0;
        assert(t =~= pre2 + joined(rvs, rws) + tail);
        let s = p + w0.len();
        let e = s + v0.len();
        // the whitespace before the value
        assert forall|k: int| p <= k < s implies unicode_white_space(#[trigger] t[k]) by {
            assert(t[k] == w0[k - p]);
        }
        assert(t[s] == v0[0]);
        lemma_ws_run(t, p, s);
        // the value itself
        let u = v0.push(' ');
        assert forall|k: int| 0 <= k < v0.len() implies t[s + k] == #[trigger] u[k] by {
            assert(t[s + k] == v0[k]);
        }
        lemma_value_end_shift(t, s, u, 0, 0, false, false);
        assert(t.subrange(s, e) =~= v0);
        // the rest
        assert forall|i: int| 0 <= i < rvs.len() implies complete_value(#[trigger] rvs[i]) by {
            assert(rvs[i] == vs[i + 1]);
        }
        assert forall|i: int| 0 <= i < rws.len() implies all_white(#[trigger] rws[i]) by {
            assert(rws[i] == ws[i + 1]);
        }
        lemma_values_from(pre2, rvs, rws, tail);
        assert(pre2.len() == e);
        assert(text_values(t, p) == seq![v0] + text_values(t, e));
        assert(seq![v0] + rvs =~= vs);
    }
}

/// Text values written one after another, each complete in itself, with
/// whitespace (or nothing) between them and around them, are cut back into
/// exactly those values, in order.
pub proof fn lemma_text_values_cut_back(vs: Seq<Seq<char>>, ws: Seq<Seq<char>>, tail: Seq<char>)
    requires
        ws.len() == vs.len(),
        forall|i: int| 0 <= i < vs.len() ==> complete_value(#[trigger] vs[i]),
        forall|i: int| 0 <= i < ws.len() ==> all_white(#[trigger] ws[i]),
        all_white(tail),
    ensures
        text_values(joined(vs, ws) + tail, 0) == vs,
{
    lemma_values_from(Seq::empty(), vs, ws, tail);
    assert(Seq::<char>::empty() + joined(vs, ws) + tail =~= joined(vs, ws) + tail);
}

// ---------------------------------------------------------------------------
// The outside calls: UTF-8 validation (std), hex decoding (hex), and
// decoding Candid text and binary (candid_parser, candid).
// ---------------------------------------------------------------------------

/// The error type of candid's decoder; only carried through.
#[verifier::external_type_specification]
#[verifier::external_body]
pub struct ExCandidError(candid::Error);

/// std's `str::from_utf8`: the text that `b` encodes, when `b` is valid UTF-8.
#[verifier::external_body]
fn utf8_text(b: &[u8]) -> (r: Option<&str>)
    ensures
        r is Some <==> valid_utf8(b@),
        r matches Some(s) ==> s@ == decode_utf8(b@),
{
    std::str::from_utf8(b).ok()
}

/// The value of the hex digit `b`.
pub open spec fn hex_value(b: u8) -> int {
    if b <= 0x39 {
        b - 0x30
    } else if b <= 0x46 {
        b - 0x41 + 10
    } else {
        b - 0x61 + 10
    }
}

/// Whether `d` is hex: an even number of hex digits.
pub open spec fn hex_decodable(d: Seq<u8>) -> bool {
    &&& d.len() % 2 == 0
    &&& forall|i: int| 0 <= i < d.len() ==> hex_digit(#[trigger] d[i])
}

/// The bytes that the hex digits `d` spell, two digits per byte, high digit first.
pub open spec fn hex_decoded(d: Seq<u8>) -> Seq<u8> {
    Seq::new(d.len() / 2, |i: int| (hex_value(d[2 * i]) * 16 + hex_value(d[2 * i + 1])) as u8)
}

/// `hex::decode`: fails unless `d` is an even number of hex digits (either
/// case); otherwise the bytes they spell, two digits per byte, high first.
#[verifier::external_body]
fn hex_decode(d: &[u8]) -> (r: Result<Vec<u8>, hex::FromHexError>)
    ensures
        r is Ok <==> hex_decodable(d@),
        r matches Ok(v) ==> v@ == hex_decoded(d@),
{
    hex::decode(d)
}

/// Whether candid_parser accepts `t` as a Candid text argument list.
pub uninterp spec fn candid_text_accepts(t: Seq<char>) -> bool;

/// The message of candid_parser's error for the text `t`.
pub uninterp spec fn candid_text_error(t: Seq<char>) -> Seq<char>;

/// The argument list that candid_parser parses from the text `t`.
pub uninterp spec fn candid_text_value(t: Seq<char>) -> Seq<SpecValue>;

/// Where a reading of Candid text stands: among tokens, inside a string
/// literal, or inside a line comment.
pub enum LexState {
    Code,
    Text,
    LineComment,
}

/// A character that continues a name or a number: an ASCII letter or
/// digit, or `_`.
pub open spec fn word_char(c: char) -> bool {
    ('a' <= c && c <= 'z') || ('A' <= c && c <= 'Z') || ('0' <= c && c <= '9') || c == '_'
}

/// Whether `t` holds `0X` at or after `i`.
pub open spec fn upper_hex_from(t: Seq<char>, i: int) -> bool {
    exists|j: int| i <= j < t.len() - 1 && t[j] == '0' && #[trigger] t[j + 1] == 'X'
}

/// Whether `t`, read from `i` on in the state `s`, holds `0X` where a token
/// can start: among tokens (not in a string literal, where `\` takes the
/// next character along, nor in a line comment) and not right after a
/// character that continues a name or a number.  From the first `/*` on
/// (block comments nest, and are not followed here) any `0X` counts.
pub open spec fn upper_hex_token_from(t: Seq<char>, i: int, s: LexState) -> bool
    decreases t.len() - i,
{
    if i < 0 || i >= t.len() {
        false
    } else {
        match s {
            LexState::Code => if t[i] == '/' && i + 1 < t.len() && t[i + 1] == '*' {
                upper_hex_from(t, i)
            } else if t[i] == '/' && i + 1 < t.len() && t[i + 1] == '/' {
                upper_hex_token_from(t, i + 2, LexState::LineComment)
            } else if t[i] == '"' {
                upper_hex_token_from(t, i + 1, LexState::Text)
            } else if t[i] == '0' && i + 1 < t.len() && t[i + 1] == 'X' && (i == 0 || !word_char(t[i - 1])) {
                true
            } else {
                upper_hex_token_from(t, i + 1, LexState::Code)
            },
            LexState::Text => if t[i] == '\\' {
                if i + 1 < t.len() {
                    upper_hex_token_from(t, i + 2, LexState::Text)
                } else {
                    false
                }
            } else if t[i] == '"' {
                upper_hex_token_from(t, i + 1, LexState::Code)
            } else {
                upper_hex_token_from(t, i + 1, LexState::Text)
            },
            LexState::LineComment => if t[i] == '\n' {
                upper_hex_token_from(t, i + 1, LexState::Code)
            } else {
                upper_hex_token_from(t, i + 1, LexState::LineComment)
            },
        }
    }
}

/// Whether `t` holds `0X` where candid_parser's lexer can start a token:
/// the upper-case hex prefix, which the lexer takes as the start of a hex
/// number but whose digits its grammar then fails to read, with a panic.
/// (Inside a string literal or a comment it is harmless; after a name or
/// a number it continues that token.)
pub open spec fn upper_hex_prefix(t: Seq<char>) -> bool {
    upper_hex_token_from(t, 0, LexState::Code)
}

/// Whether `cs` holds `0X` at or after `i`.
fn has_upper_hex_from(cs: &Vec<char>, i: usize) -> (r: bool)
    requires
        i <= cs@.len(),
    ensures
        r == upper_hex_from(cs@, i as int),
{
    let mut k: usize = i;
    while k < cs.len() && cs.len() - k > 1
        invariant
            i <= k <= cs@.len(),
            forall|j: int| i <= j < k && j < cs@.len() - 1 ==> !(cs@[j] == '0' && #[trigger] cs@[j + 1] == 'X'),
        decreases cs.len() - k,
    {
        if cs[k] == '0' && cs[k + 1] == 'X' {
            return true;
        }
        k = k + 1;
    }
    false
}

/// Whether `t` holds `0X` where a token can start.
fn has_upper_hex_prefix(t: &str) -> (r: bool)
    ensures
        r == upper_hex_prefix(t@),
{
    let cs = chars_of(t);
    let mut state = LexState::Code;
    let mut i: usize = 0;
    while i < cs.len()
        invariant
            cs@ == t@,
            upper_hex_prefix(t@) == upper_hex_token_from(t@, i as int, state),
        decreases cs.len() - i,
    {
        let c = cs[i];
        match state {
            LexState::Code => {
                if c == '/' && next_is(&cs, i, '*') {
                    return has_upper_hex_from(&cs, i);
                } else if c == '/' && next_is(&cs, i, '/') {
                    state = LexState::LineComment;
                    i = i + 2;
                } else if c == '"' {
                    state = LexState::Text;
                    i = i + 1;
                } else if c == '0' && next_is(&cs, i, 'X') && (i == 0 || !is_word_char(cs[i - 1])) {
                    return true;
                } else {
                    i = i + 1;
                }
            },
            LexState::Text => {
                if c == '\\' {
                    if i + 1 >= cs.len() {
                        return false;
                    }
                    i = i + 2;
                } else {
                    if c == '"' {
                        state = LexState::Code;
                    }
                    i = i + 1;
                }
            },
            LexState::LineComment => {
                if c == '\n' {
                    state = LexState::Code;
                }
                i = i + 1;
            },
        }
    }
    false
}

/// Whether the character after `i` in `cs` is `d`.
fn next_is(cs: &Vec<char>, i: usize, d: char) -> (b: bool)
    ensures
        b == (i + 1 < cs@.len() && cs@[i + 1] == d),
{
    i < cs.len() && i + 1 < cs.len() && cs[i + 1] == d
}

/// Whether `c` continues a name or a number.
fn is_word_char(c: char) -> (r: bool)
    ensures
        r == word_char(c),
{
    ('a' <= c && c <= 'z') || ('A' <= c && c <= 'Z') || ('0' <= c && c <= '9') || c == '_'
}

/// Text whose record fields candid_parser can number (see `label_guard`).
pub open spec fn fields_numberable(t: Seq<char>) -> bool {
    labels_safe(t, '=') && labels_safe(t, ':')
}

/// `candid_parser::parse_idl_args`: parses `t` as a Candid text argument
/// list, converted to the library's values; on failure, the message of
/// candid_parser's error.  Two kinds of text are left out, on which
/// candid_parser panics: text holding `0X` where a token can start (its
/// lexer reads `0X1` as a hex number that its grammar then unwraps), and,
/// in builds with overflow
/// checks, text whose record field numbering passes 4294967295.
#[verifier::external_body]
fn parse_candid_text(t: &str) -> (r: Result<Args, String>)
    requires
        !upper_hex_prefix(t@),
        fields_numberable(t@),
    ensures
        r is Ok <==> candid_text_accepts(t@),
        r matches Ok(a) ==> a@ == candid_text_value(t@),
        r matches Err(m) ==> m@ == candid_text_error(t@),
{
    match candid_parser::parse_idl_args(t) {
        Ok(a) => Ok(args_of(&a)),
        Err(e) => Err(e.to_string()),
    }
}

/// Whether candid decodes `b` as binary Candid with nothing left over.
pub uninterp spec fn candid_binary_accepts(b: Seq<u8>) -> bool;

/// The argument list that candid decodes from the binary Candid `b`.
pub uninterp spec fn candid_binary_value(b: Seq<u8>) -> Seq<SpecValue>;

/// `candid::IDLArgs::from_bytes`: decodes `b` as one binary Candid message,
/// converted to the library's values.
#[verifier::external_body]
fn decode_candid_binary(b: &[u8]) -> (r: Result<Args, candid::Error>)
    ensures
        r is Ok <==> candid_binary_accepts(b@),
        r matches Ok(a) ==> a@ == candid_binary_value(b@),
{
    candid::IDLArgs::from_bytes(b).map(|a| args_of(&a))
}

/// The argument list that candid gives for the piece `p`.
pub open spec fn decoded(p: Piece) -> Seq<SpecValue> {
    match p {
        Piece::Text(t) => candid_text_value(t),
        Piece::Binary(b) => candid_binary_value(b),
    }
}

/// `r` is what reading gives: one argument list per piece, each the one
/// candid decodes from it, in order; or the error.
pub open spec fn read_as(spec: Result<Seq<Piece>, SpecInputError>, r: Result<Vec<Args>, InputError>) -> bool {
    match spec {
        Ok(ps) => r matches Ok(v) && v@.len() == ps.len()
            && forall|i: int| 0 <= i < ps.len() ==> #[trigger] v@[i]@ == decoded(ps[i]),
        Err(e) => r matches Err(x) && x@ == e,
    }
}

// ---------------------------------------------------------------------------
// Reading input: what is handed to candid, in which order, and which error
// stops the reading.
// ---------------------------------------------------------------------------

/// A piece of input that candid decodes into one argument list.
pub enum Piece {
    /// A Candid text value.
    Text(Seq<char>),
    /// Binary Candid.
    Binary(Seq<u8>),
}

/// Text input from the value at `k` on, after the pieces `acc`: each value
/// goes to candid_parser; the first it refuses stops the reading.
pub open spec fn text_outcome(vals: Seq<Seq<char>>, k: nat, acc: Seq<Piece>) -> Result<Seq<Piece>, SpecInputError>
    decreases vals.len() - k,
{
    if k >= vals.len() {
        Ok(acc)
    } else if upper_hex_prefix(vals[k as int]) {
        Err(SpecInputError::UpperHexPrefix)
    } else if !fields_numberable(vals[k as int]) {
        Err(SpecInputError::FieldIdTooLarge)
    } else if !candid_text_accepts(vals[k as int]) {
        Err(SpecInputError::TextParse(candid_text_error(vals[k as int])))
    } else {
        text_outcome(vals, k + 1, acc.push(Piece::Text(vals[k as int])))
    }
}

/// The end of the line that starts at `i`: the next line feed, or the end.
pub open spec fn line_end(t: Seq<char>, i: int) -> int
    decreases t.len() - i,
{
    if 0 <= i < t.len() && t[i] != '\n' {
        line_end(t, i + 1)
    } else {
        i
    }
}

/// One trimmed line `l` of hex input, after the pieces `acc`: a blank line
/// is skipped; any other must be hex, and the bytes it spells go to candid.
pub open spec fn hex_line(l: Seq<char>, acc: Seq<Piece>) -> Result<Seq<Piece>, SpecInputError> {
    if l.len() == 0 {
        Ok(acc)
    } else if !hex_decodable(encode_utf8(l)) {
        Err(SpecInputError::InvalidHex(l))
    } else if !candid_binary_accepts(hex_decoded(encode_utf8(l))) {
        Err(SpecInputError::HexDecode)
    } else {
        Ok(acc.push(Piece::Binary(hex_decoded(encode_utf8(l)))))
    }
}

/// Hex input from position `i` on, after the pieces `acc`: line by line,
/// each trimmed and read by [`hex_line`]; the first failure stops the
/// reading.  A line never ends before it starts, so the branch that keeps
/// the definition well-founded is never taken.
pub open spec fn hex_outcome(t: Seq<char>, i: int, acc: Seq<Piece>) -> Result<Seq<Piece>, SpecInputError>
    decreases t.len() - i,
{
    if i < 0 || i >= t.len() {
        Ok(acc)
    } else {
        let j = line_end(t, i);
        if j < i {
            Ok(acc)
        } else {
            match hex_line(trim(t.subrange(i, j)), acc) {
                Err(e) => Err(e),
                Ok(acc2) => if j < t.len() {
                    hex_outcome(t, j + 1, acc2)
                } else {
                    Ok(acc2)
                },
            }
        }
    }
}

/// Binary input from position `pos` on, after the pieces `acc`: frames back
/// to back, each as long as [`spec_frame_size`] says, each going to candid.
/// The first failure stops the reading.  A frame is never empty, so the
/// branch that keeps the definition well-founded is never taken.
pub open spec fn bin_outcome(b: Seq<u8>, pos: int, acc: Seq<Piece>) -> Result<Seq<Piece>, SpecInputError>
    decreases b.len() - pos,
{
    if pos < 0 || pos >= b.len() {
        Ok(acc)
    } else {
        match spec_frame_size(b.subrange(pos, b.len() as int)) {
            Err(e) => Err(SpecInputError::Frame(e)),
            Ok(n) => if !(0 < n && pos + n <= b.len()) {
                Ok(acc)
            } else if !candid_binary_accepts(b.subrange(pos, pos + n)) {
                Err(SpecInputError::BinDecode)
            } else {
                bin_outcome(b, pos + n, acc.push(Piece::Binary(b.subrange(pos, pos + n))))
            },
        }
    }
}

/// Reading text input: valid UTF-8, trimmed, cut into values.
pub open spec fn spec_read_text(b: Seq<u8>) -> Result<Seq<Piece>, SpecInputError> {
    if !valid_utf8(b) {
        Err(SpecInputError::NotUtf8)
    } else {
        text_outcome(text_values(trim(decode_utf8(b)), 0), 0, Seq::empty())
    }
}

/// Reading hex input: valid UTF-8, one hex frame per non-blank line.
pub open spec fn spec_read_hex(b: Seq<u8>) -> Result<Seq<Piece>, SpecInputError> {
    if !valid_utf8(b) {
        Err(SpecInputError::NotUtf8)
    } else {
        hex_outcome(decode_utf8(b), 0, Seq::empty())
    }
}

/// Reading input `b` written in `format`: the pieces handed to candid, in
/// order, or the first error.  Without a format, input that starts with
/// `DIDL` is binary, input that looks like hex is hex, all else is text.
pub open spec fn spec_read(b: Seq<u8>, format: InputFormat) -> Result<Seq<Piece>, SpecInputError> {
    match format {
        InputFormat::Candid => spec_read_text(b),
        InputFormat::Hex => spec_read_hex(b),
        InputFormat::Bin => bin_outcome(b, 0, Seq::empty()),
        InputFormat::Auto => if spec_looks_binary(b) {
            bin_outcome(b, 0, Seq::empty())
        } else if spec_looks_hex(b) {
            spec_read_hex(b)
        } else {
            spec_read_text(b)
        },
    }
}

fn read_text(bytes: &[u8]) -> (r: Result<Vec<Args>, InputError>)
    ensures
        read_as(spec_read_text(bytes@), r),
{
    let s = match utf8_text(bytes) {
        Some(s) => s,
        None => {
            return Err(InputError::NotUtf8);
        },
    };
    let chars = chars_of(s);
    let t = trimmed(&chars);
    let vals = split_text_values(&t);
    let ghost vs = vals@.map_values(|x: String| x@);
    assert(spec_read_text(bytes@) == text_outcome(vs, 0, Seq::empty()));
    let mut out: Vec<Args> = Vec::new();
    let ghost mut acc: Seq<Piece> = Seq::empty();
    let mut k: usize = 0;
    while k < vals.len()
        invariant
            k <= vals@.len(),
            vs == vals@.map_values(|x: String| x@),
            spec_read_text(bytes@) == text_outcome(vs, 0, Seq::empty()),
            text_outcome(vs, 0, Seq::empty()) == text_outcome(vs, k as nat, acc),
            out@.len() == acc.len(),
            forall|j: int| 0 <= j < acc.len() ==> #[trigger] out@[j]@ == decoded(acc[j]),
        decreases vals.len() - k,
    {
        assert(vs[k as int] == vals@[k as int]@);
        if has_upper_hex_prefix(vals[k].as_str()) {
            return Err(InputError::UpperHexPrefix);
        }
        if !(check_labels(vals[k].as_str(), '=') && check_labels(vals[k].as_str(), ':')) {
            return Err(InputError::FieldIdTooLarge);
        }
        match parse_candid_text(vals[k].as_str()) {
            Ok(a) => {
                out.push(a);
                proof {
                    acc = acc.push(Piece::Text(vs[k as int]));
                }
            },
            Err(m) => {
                return Err(InputError::TextParse(m));
            },
        }
        k = k + 1;
    }
    Ok(out)
}

fn scan_line_end(t: &Vec<char>, i: usize) -> (r: usize)
    requires
        i <= t@.len(),
    ensures
        r as int == line_end(t@, i as int),
        i <= r <= t@.len(),
{
    let mut j = i;
    while j < t.len() && t[j] != '\n'
        invariant
            i <= j <= t@.len(),
            line_end(t@, i as int) == line_end(t@, j as int),
        decreases t.len() - j,
    {
        j = j + 1;
    }
    j
}

fn read_hex(bytes: &[u8]) -> (r: Result<Vec<Args>, InputError>)
    ensures
        read_as(spec_read_hex(bytes@), r),
{
    let s = match utf8_text(bytes) {
        Some(s) => s,
        None => {
            return Err(InputError::NotUtf8);
        },
    };
    let t = chars_of(s);
    assert(spec_read_hex(bytes@) == hex_outcome(t@, 0, Seq::empty()));
    let mut out: Vec<Args> = Vec::new();
    let ghost mut acc: Seq<Piece> = Seq::empty();
    let mut i: usize = 0;
    while i < t.len()
        invariant
            i <= t@.len(),
            spec_read_hex(bytes@) == hex_outcome(t@, 0, Seq::empty()),
            hex_outcome(t@, 0, Seq::empty()) == hex_outcome(t@, i as int, acc),
            out@.len() == acc.len(),
            forall|j: int| 0 <= j < acc.len() ==> #[trigger] out@[j]@ == decoded(acc[j]),
        decreases t.len() - i,
    {
        let j = scan_line_end(&t, i);
        let mut line: Vec<char> = Vec::new();
        let mut k = i;
        while k < j
            invariant
                i <= k <= j <= t@.len(),
                line@ == t@.subrange(i as int, k as int),
            decreases j - k,
        {
            line.push(t[k]);
            k = k + 1;
            assert(line@ =~= t@.subrange(i as int, k as int));
        }
        let l = trimmed(&line);
        if l.len() > 0 {
            let text = string_of(l.as_slice(), 0, l.len());
            assert(text@ =~= l@);
            let raw = match hex_decode(text.as_str().as_bytes()) {
                Ok(raw) => raw,
                Err(_) => {
                    return Err(InputError::InvalidHex(text));
                },
            };
            match decode_candid_binary(raw.as_slice()) {
                Ok(a) => {
                    out.push(a);
                    proof {
                        acc = acc.push(Piece::Binary(raw@));
                    }
                },
                Err(_) => {
                    return Err(InputError::HexDecode);
                },
            }
        }
        if j >= t.len() {
            i = t.len();
        } else {
            i = j + 1;
        }
    }
    Ok(out)
}

fn read_bin(bytes: &[u8]) -> (r: Result<Vec<Args>, InputError>)
    ensures
        read_as(bin_outcome(bytes@, 0, Seq::empty()), r),
{
    let mut out: Vec<Args> = Vec::new();
    let ghost mut acc: Seq<Piece> = Seq::empty();
    let mut pos: usize = 0;
    while pos < bytes.len()
        invariant
            pos <= bytes@.len(),
            bin_outcome(bytes@, 0, Seq::empty()) == bin_outcome(bytes@, pos as int, acc),
            out@.len() == acc.len(),
            forall|j: int| 0 <= j < acc.len() ==> #[trigger] out@[j]@ == decoded(acc[j]),
        decreases bytes.len() - pos,
    {
        let rest = &bytes[pos..bytes.len()];
        let n = match frame_size(rest) {
            Ok(n) => n,
            Err(e) => {
                return Err(InputError::Frame(e));
            },
        };
        proof {
            lemma_frame_size_ignores_following_bytes(rest@, Seq::empty());
        }
        let frame = &rest[0..n];
        assert(frame@ =~= bytes@.subrange(pos as int, pos + n));
        match decode_candid_binary(frame) {
            Ok(a) => {
                out.push(a);
                proof {
                    acc = acc.push(Piece::Binary(frame@));
                }
            },
            Err(_) => {
                return Err(InputError::BinDecode);
            },
        }
        pos = pos + n;
    }
    Ok(out)
}

/// Reads the argument lists in `bytes`, written in `format`: cuts the input
/// into pieces (text values, hex lines, binary frames) and has candid decode
/// each, in order.  One argument list per piece; the first failure is the error.
pub fn parse(bytes: &[u8], format: &InputFormat) -> (r: Result<Vec<Args>, InputError>)
    ensures
        read_as(spec_read(bytes@, *format), r),
{
    match format {
        InputFormat::Candid => read_text(bytes),
        InputFormat::Hex => read_hex(bytes),
        InputFormat::Bin => read_bin(bytes),
        InputFormat::Auto => {
            if looks_like_binary(bytes) {
                read_bin(bytes)
            } else if looks_like_hex(bytes) {
                read_hex(bytes)
            } else {
                read_text(bytes)
            }
        },
    }
}

/// The message that describes `e`.
pub open spec fn input_error_text(e: SpecInputError) -> Seq<char> {
    match e {
        SpecInputError::UnknownFormat(f) => "unknown input format: "@ + f
            + "; expected candid, hex, or bin"@,
        SpecInputError::NotUtf8 => "input is not valid UTF-8"@,
        SpecInputError::TextParse(m) => "failed to parse Candid text: "@ + m,
        SpecInputError::UpperHexPrefix => "failed to parse Candid text: hex numbers start with 0x, not 0X"@,
        SpecInputError::FieldIdTooLarge => "failed to parse Candid text: a field id is too close to 4294967295"@,
        SpecInputError::InvalidHex(l) => "invalid hex on line: "@ + l,
        SpecInputError::HexDecode => "failed to decode binary Candid from hex"@,
        SpecInputError::BinDecode => "failed to decode binary Candid"@,
        SpecInputError::Frame(fe) => frame_error_text(fe),
    }
}

impl InputError {
    /// The message that describes this error.
    pub fn message(&self) -> (r: String)
        ensures
            r@ == input_error_text(self@),
    {
        let mut s = String::new();
        match self {
            InputError::UnknownFormat(f) => {
                s.push_str("unknown input format: ");
                s.push_str(f.as_str());
                s.push_str("; expected candid, hex, or bin");
            },
            InputError::NotUtf8 => s.push_str("input is not valid UTF-8"),
            InputError::TextParse(m) => {
                s.push_str("failed to parse Candid text: ");
                s.push_str(m.as_str());
            },
            InputError::UpperHexPrefix => s.push_str("failed to parse Candid text: hex numbers start with 0x, not 0X"),
            InputError::FieldIdTooLarge => s.push_str("failed to parse Candid text: a field id is too close to 4294967295"),
            InputError::InvalidHex(l) => {
                s.push_str("invalid hex on line: ");
                s.push_str(l.as_str());
            },
            InputError::HexDecode => s.push_str("failed to decode binary Candid from hex"),
            InputError::BinDecode => s.push_str("failed to decode binary Candid"),
            InputError::Frame(fe) => {
                let m = fe.message();
                s.push_str(m.as_str());
            },
        }
        assert(s@ =~= input_error_text(self@));
        s
    }
}

/// Reading binary input from just after `pre`, after the pieces `acc`: the
/// frames `fs` written back to back come out one by one.
proof fn lemma_frames_from(pre: Seq<u8>, fs: Seq<Seq<u8>>, acc: Seq<Piece>)
    requires
        forall|i: int| 0 <= i < fs.len() ==> #[trigger] spec_frame_size(fs[i]) == Ok::<int, FrameError>(fs[i].len() as int),
        forall|i: int| 0 <= i < fs.len() ==> #[trigger] candid_binary_accepts(fs[i]),
    ensures
        bin_outcome(pre + fs.flatten(), pre.len() as int, acc)
            == Ok::<Seq<Piece>, SpecInputError>(acc + fs.map_values(|f: Seq<u8>| Piece::Binary(f))),
    decreases fs.len(),
{
    let b = pre + fs.flatten();
    if fs.len() == 0 {
        assert(fs.map_values(|f: Seq<u8>| Piece::Binary(f)) =~= Seq::<Piece>::empty());
        assert(acc + Seq::<Piece>::empty() =~= acc);
        assert(b =~= pre);
    } else {
        let f0 = fs[0];
        let rest = fs.drop_first();
        let pos = pre.len() as int;
        assert(spec_frame_size(fs[0]) == Ok::<int, FrameError>(fs[0].len() as int));
        assert(candid_binary_accepts(fs[0]));
        lemma_frame_size_ignores_following_bytes(f0, rest.flatten());
        assert(f0.subrange(0, f0.len() as int) =~= f0);
        assert(b.subrange(pos, b.len() as int) =~= f0 + rest.flatten());
        assert(b.subrange(pos, pos + f0.len()) =~= f0);
        assert(b =~= (pre + f0) + rest.flatten());
        assert forall|i: int| 0 <= i < rest.len() implies #[trigger] spec_frame_size(rest[i]) == Ok::<int, FrameError>(rest[i].len() as int) by {
            assert(rest[i] == fs[i + 1]);
        }
        assert forall|i: int| 0 <= i < rest.len() implies #[trigger] candid_binary_accepts(rest[i]) by {
            assert(rest[i] == fs[i + 1]);
        }
        lemma_frames_from(pre + f0, rest, acc.push(Piece::Binary(f0)));
        assert(acc.push(Piece::Binary(f0)) + rest.map_values(|f: Seq<u8>| Piece::Binary(f))
            =~= acc + fs.map_values(|f: Seq<u8>| Piece::Binary(f)));
    }
}

/// Frames written back to back read back one by one: binary input made of
/// complete frames, each of which candid decodes, is read as exactly those
/// frames, in order.
pub proof fn lemma_frames_read_back(fs: Seq<Seq<u8>>)
    requires
        forall|i: int| 0 <= i < fs.len() ==> #[trigger] spec_frame_size(fs[i]) == Ok::<int, FrameError>(fs[i].len() as int),
        forall|i: int| 0 <= i < fs.len() ==> #[trigger] candid_binary_accepts(fs[i]),
    ensures
        spec_read(fs.flatten(), InputFormat::Bin)
            == Ok::<Seq<Piece>, SpecInputError>(fs.map_values(|f: Seq<u8>| Piece::Binary(f))),
{
    lemma_frames_from(Seq::empty(), fs, Seq::empty());
    assert(Seq::<u8>::empty() + fs.flatten() =~= fs.flatten());
    assert(Seq::<Piece>::empty() + fs.map_values(|f: Seq<u8>| Piece::Binary(f))
        =~= fs.map_values(|f: Seq<u8>| Piece::Binary(f)));
}

} // verus!
