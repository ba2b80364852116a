//! Writing Candid values: the output formats and the bytes each writes.
use vstd::prelude::*;
use vstd::utf8::encode_utf8;
use crate::input::{
    same_text, spec_read, spec_looks_binary, spec_looks_hex, hex_digit, ascii_ws, non_ws_count, hex_value,
    hex_decodable, hex_decoded, hex_line, hex_outcome, line_end, candid_binary_accepts, InputFormat,
    Piece, SpecInputError, decoded, candid_binary_value,
};
use crate::text::{trim, ws_end, ws_back, unicode_white_space};
use crate::value::{Args, SpecValue};
use crate::idl::{idl_args, ready_values};

verus! {

broadcast use vstd::std_specs::vec::group_vec_axioms;

/// How output is written.
#[derive(Clone, Copy, Debug, PartialEq, Eq, Structural)]
pub enum OutputFormat {
    /// Candid text, one argument list per line.
    Candid,
    /// Binary Candid in lowercase hex, one frame per line.
    Hex,
    /// Binary Candid, frames back to back.
    Bin,
}

/// Why output could not be written.
#[derive(Debug, PartialEq, Eq)]
pub enum OutputError {
    /// An output format name that is none of `candid`, `text`, `hex`, `bin`.
    UnknownFormat(String),
    /// candid could not encode the value (candid's message).
    Encode(String),
}

/// The mathematical model of an [`OutputError`].
pub enum SpecOutputError {
    UnknownFormat(Seq<char>),
    Encode(Seq<char>),
}

impl View for OutputError {
    type V = SpecOutputError;

    open spec fn view(&self) -> SpecOutputError {
        match self {
            OutputError::UnknownFormat(s) => SpecOutputError::UnknownFormat(s@),
            OutputError::Encode(s) => SpecOutputError::Encode(s@),
        }
    }
}

/// The output format named `s`; `text` is another name for `candid`.
pub open spec fn spec_output_format(s: Seq<char>) -> Option<OutputFormat> {
    if s == "candid"@ || s == "text"@ {
        Some(OutputFormat::Candid)
    } else if s == "hex"@ {
        Some(OutputFormat::Hex)
    } else if s == "bin"@ {
        Some(OutputFormat::Bin)
    } else {
        None
    }
}

impl OutputFormat {
    /// The output format named `s`: `candid` (or `text`), `hex` or `bin`.
    pub fn from_str(s: &str) -> (r: Result<OutputFormat, OutputError>)
        ensures
            match spec_output_format(s@) {
                Some(f) => r == Ok::<OutputFormat, OutputError>(f),
                None => r matches Err(e) && e@ == SpecOutputError::UnknownFormat(s@),
            },
    {
        if same_text(s, "candid") || same_text(s, "text") {
            Ok(OutputFormat::Candid)
        } else if same_text(s, "hex") {
            Ok(OutputFormat::Hex)
        } else if same_text(s, "bin") {
            Ok(OutputFormat::Bin)
        } else {
            Err(OutputError::UnknownFormat(s.to_owned()))
        }
    }
}

/// The lowercase hex digit for `n < 16`.
pub open spec fn hex_char(n: int) -> char {
    if n < 10 {
        (48 + n) as char
    } else {
        (87 + n) as char
    }
}

/// `d` in lowercase hex, two digits per byte, high digit first.
pub open spec fn hex_encoded(d: Seq<u8>) -> Seq<char> {
    Seq::new(
        2 * d.len(),
        |i: int| if i % 2 == 0 { hex_char(d[i / 2] as int / 16) } else { hex_char(d[i / 2] as int % 16) },
    )
}

/// `hex::encode`: `d` in lowercase hex, two digits per byte, high digit first.
#[verifier::external_body]
fn hex_encode(d: &[u8]) -> (r: String)
    ensures
        r@ == hex_encoded(d@),
{
    hex::encode(d)
}

/// Whether candid can hold the values `a` (their principals, numerals and
/// floats convert).
pub uninterp spec fn candid_converts(a: Seq<SpecValue>) -> bool;

/// The message of the first conversion that fails for the values `a`.
pub uninterp spec fn candid_convert_error(a: Seq<SpecValue>) -> Seq<char>;

/// The text that candid's `Display` prints for the argument list `a`.
pub uninterp spec fn candid_text(a: Seq<SpecValue>) -> Seq<char>;

/// candid's `Display` of an argument list (its pretty-printed Candid text),
/// after converting the library's values to candid's; on failure, the
/// conversion's message.  Values that candid can hold always convert.
#[verifier::external_body]
fn display_args(a: &Args) -> (r: Result<String, String>)
    ensures
        r is Ok <==> candid_converts(a@),
        ready_values(a@) ==> r is Ok,
        r matches Ok(s) ==> s@ == candid_text(a@),
        r matches Err(m) ==> m@ == candid_convert_error(a@),
{
    idl_args(a).map(|x| x.to_string())
}

/// Whether candid encodes the argument list `a` as binary Candid.
pub uninterp spec fn candid_encodes(a: Seq<SpecValue>) -> bool;

/// The binary Candid that candid encodes the argument list `a` as.
pub uninterp spec fn candid_bytes(a: Seq<SpecValue>) -> Seq<u8>;

/// The message of candid's failure to encode the argument list `a`.
pub uninterp spec fn candid_encode_error(a: Seq<SpecValue>) -> Seq<char>;

/// `candid::IDLArgs::to_bytes`: the binary Candid encoding of `a`, after
/// converting the library's values to candid's; on failure, the message.
#[verifier::external_body]
fn encode_args(a: &Args) -> (r: Result<Vec<u8>, String>)
    ensures
        r is Ok <==> candid_encodes(a@),
        r matches Ok(b) ==> b@ == candid_bytes(a@),
        r matches Err(m) ==> m@ == candid_encode_error(a@),
{
    match idl_args(a) {
        Ok(x) => x.to_bytes().map_err(|e| e.to_string()),
        Err(m) => Err(m),
    }
}

/// The bytes of `s` in UTF-8, then a line feed.
pub fn line_bytes(s: &str) -> (r: Vec<u8>)
    ensures
        r@ == encode_utf8(s@).push(0x0a),
{
    let b = s.as_bytes();
    let mut out: Vec<u8> = Vec::new();
    let mut i: usize = 0;
    while i < b.len()
        invariant
            i <= b@.len(),
            out@ == b@.subrange(0, i as int),
        decreases b.len() - i,
    {
        out.push(b[i]);
        i = i + 1;
        assert(out@ =~= b@.subrange(0, i as int));
    }
    assert(b@.subrange(0, b@.len() as int) =~= b@);
    out.push(0x0a);
    out
}

/// The hex line for the binary Candid `encoded`: its lowercase hex, then a line feed.
pub fn hex_line_bytes(encoded: &[u8]) -> (r: Vec<u8>)
    ensures
        r@ == encode_utf8(hex_encoded(encoded@)).push(0x0a),
{
    let h = hex_encode(encoded);
    line_bytes(h.as_str())
}

/// The bytes written for the argument list `a` in `format`: for Candid
/// text, candid's text and a line feed; for hex, the hex of candid's binary
/// encoding and a line feed; for binary, the encoding itself.
pub open spec fn spec_emit(a: Seq<SpecValue>, format: OutputFormat) -> Result<Seq<u8>, SpecOutputError> {
    match format {
        OutputFormat::Candid => if candid_converts(a) {
            Ok(encode_utf8(candid_text(a)).push(0x0a))
        } else {
            Err(SpecOutputError::Encode(candid_convert_error(a)))
        },
        OutputFormat::Hex => if candid_encodes(a) {
            Ok(encode_utf8(hex_encoded(candid_bytes(a))).push(0x0a))
        } else {
            Err(SpecOutputError::Encode(candid_encode_error(a)))
        },
        OutputFormat::Bin => if candid_encodes(a) {
            Ok(candid_bytes(a))
        } else {
            Err(SpecOutputError::Encode(candid_encode_error(a)))
        },
    }
}

/// The bytes to write for the argument list `a` in `format`.  Candid text
/// is always written for values that candid can hold.
pub fn emit(a: &Args, format: &OutputFormat) -> (r: Result<Vec<u8>, OutputError>)
    ensures
        match spec_emit(a@, *format) {
            Ok(b) => r matches Ok(v) && v@ == b,
            Err(e) => r matches Err(x) && x@ == e,
        },
        *format is Candid && ready_values(a@) ==> r is Ok,
{
    match format {
        OutputFormat::Candid => match display_args(a) {
            Ok(text) => Ok(line_bytes(text.as_str())),
            Err(m) => Err(OutputError::Encode(m)),
        },
        OutputFormat::Hex => match encode_args(a) {
            Ok(b) => Ok(hex_line_bytes(b.as_slice())),
            Err(m) => Err(OutputError::Encode(m)),
        },
        OutputFormat::Bin => match encode_args(a) {
            Ok(b) => Ok(b),
            Err(m) => Err(OutputError::Encode(m)),
        },
    }
}

/// The message that describes `e`.
pub open spec fn output_error_text(e: SpecOutputError) -> Seq<char> {
    match e {
        SpecOutputError::UnknownFormat(f) => "unknown output format: "@ + f
            + "; expected candid, hex, or bin"@,
        SpecOutputError::Encode(m) => m,
    }
}

impl OutputError {
    /// The message that describes this error.
    pub fn message(&self) -> (r: String)
        ensures
            r@ == output_error_text(self@),
    {
        let mut s = String::new();
        match self {
            OutputError::UnknownFormat(f) => {
                s.push_str("unknown output format: ");
                s.push_str(f.as_str());
                s.push_str("; expected candid, hex, or bin");
            },
            OutputError::Encode(m) => s.push_str(m.as_str()),
        }
        assert(s@ =~= output_error_text(self@));
        s
    }
}


// ---------------------------------------------------------------------------
// Hex output reads back as hex input.
// ---------------------------------------------------------------------------

/// The hex digit for `n < 16` is an ASCII digit or lowercase letter, and
/// reads back as `n`.
proof fn lemma_hex_char(n: int)
    requires
        0 <= n < 16,
    ensures
        hex_char(n) as u32 == (if n < 10 { 48 + n } else { 87 + n }),
        hex_digit(hex_char(n) as u8),
        hex_value(hex_char(n) as u8) == n,
        !unicode_white_space(hex_char(n)),
        hex_char(n) as u8 != 0x44,
{
}

/// The hex of `b`: an ASCII text of hex digits, two per byte.
proof fn lemma_hex_encoded_chars(b: Seq<u8>)
    ensures
        hex_encoded(b).len() == 2 * b.len(),
        forall|i: int| 0 <= i < b.len() ==> #[trigger] hex_encoded(b)[2 * i] == hex_char(b[i] as int / 16),
        forall|i: int| 0 <= i < b.len() ==> #[trigger] hex_encoded(b)[2 * i + 1] == hex_char(b[i] as int % 16),
        forall|k: int| 0 <= k < hex_encoded(b).len() ==> {
            &&& hex_digit(#[trigger] hex_encoded(b)[k] as u8)
            &&& !unicode_white_space(hex_encoded(b)[k])
            &&& (hex_encoded(b)[k] as u32) < 128
            &&& hex_encoded(b)[k] != '\n'
            &&& hex_encoded(b)[k] as u8 != 0x44
        },
{
    let h = hex_encoded(b);
    assert forall|i: int| 0 <= i < b.len() implies #[trigger] h[2 * i] == hex_char(b[i] as int / 16) by {
        assert((2 * i) % 2 == 0 && (2 * i) / 2 == i);
    }
    assert forall|i: int| 0 <= i < b.len() implies #[trigger] h[2 * i + 1] == hex_char(b[i] as int % 16) by {
        assert((2 * i + 1) % 2 == 1 && (2 * i + 1) / 2 == i);
    }
    assert forall|k: int| 0 <= k < h.len() implies {
        &&& hex_digit(#[trigger] h[k] as u8)
        &&& !unicode_white_space(h[k])
        &&& (h[k] as u32) < 128
        &&& h[k] != '\n'
        &&& h[k] as u8 != 0x44
    } by {
        let n = if k % 2 == 0 { b[k / 2] as int / 16 } else { b[k / 2] as int % 16 };
        assert(h[k] == hex_char(n));
        lemma_hex_char(n);
    }
}

/// A line holds no line feed up to `e`, which is one: the line from `i` ends at `e`.
proof fn lemma_line_end_at(t: Seq<char>, i: int, e: int)
    requires
        0 <= i <= e < t.len(),
        t[e] == '\n',
        forall|k: int| i <= k < e ==> t[k] != '\n',
    ensures
        line_end(t, i) == e,
    decreases e - i,
{
    if i < e {
        lemma_line_end_at(t, i + 1, e);
    }
}

/// Bytes none of which is whitespace count in full.
proof fn lemma_non_ws_all(d: Seq<u8>)
    requires
        forall|i: int| 0 <= i < d.len() ==> !ascii_ws(#[trigger] d[i]),
    ensures
        non_ws_count(d) == d.len(),
    decreases d.len(),
{
    if d.len() > 0 {
        lemma_non_ws_all(d.drop_last());
    }
}

/// The hex line of `b` is the UTF-8 of its hex digits and a line feed.
proof fn lemma_hex_line_text(b: Seq<u8>)
    ensures
        vstd::utf8::valid_utf8(encode_utf8(hex_encoded(b)).push(0x0a)),
        vstd::utf8::decode_utf8(encode_utf8(hex_encoded(b)).push(0x0a)) == hex_encoded(b).push('\n'),
        encode_utf8(hex_encoded(b)).len() == hex_encoded(b).len(),
        forall|i: int| 0 <= i < hex_encoded(b).len() ==> #[trigger] encode_utf8(hex_encoded(b))[i] == hex_encoded(b)[i] as u8,
{
    let h = hex_encoded(b);
    let t = h.push('\n');
    let o = encode_utf8(h).push(0x0a);
    lemma_hex_encoded_chars(b);
    assert(vstd::utf8::is_ascii_chars(h));
    assert(vstd::utf8::is_ascii_chars(t)) by {
        assert forall|i: int| 0 <= i < t.len() implies '\0' <= #[trigger] t[i] <= '\u{7f}' by {
            if i < h.len() {
                assert(t[i] == h[i]);
            }
        }
    }
    vstd::utf8::is_ascii_chars_encode_utf8(h);
    vstd::utf8::is_ascii_chars_encode_utf8(t);
    assert(o =~= encode_utf8(t)) by {
        assert forall|i: int| 0 <= i < o.len() implies o[i] == encode_utf8(t)[i] by {
            if i < h.len() {
                assert(t[i] == h[i]);
            }
        }
    }
    vstd::utf8::encode_utf8_valid_utf8(t);
    vstd::utf8::encode_utf8_decode_utf8(t);
}

/// The hex digits of `b` spell `b`.
proof fn lemma_hex_digits(b: Seq<u8>)
    ensures
        hex_decodable(encode_utf8(hex_encoded(b))),
        hex_decoded(encode_utf8(hex_encoded(b))) == b,
{
    let h = hex_encoded(b);
    let e = encode_utf8(h);
    lemma_hex_encoded_chars(b);
    lemma_hex_line_text(b);
    assert forall|i: int| 0 <= i < e.len() implies hex_digit(#[trigger] e[i]) by {
        assert(e[i] == h[i] as u8);
    }
    assert forall|i: int| 0 <= i < b.len() implies #[trigger] hex_decoded(e)[i] == b[i] by {
        assert(e[2 * i] == h[2 * i] as u8);
        assert(e[2 * i + 1] == h[2 * i + 1] as u8);
        lemma_hex_char(b[i] as int / 16);
        lemma_hex_char(b[i] as int % 16);
    }
    assert(hex_decoded(e) =~= b);
}

/// Read as hex, the hex line of `b` is the one line `hex_encoded(b)`.
proof fn lemma_hex_line_read(b: Seq<u8>)
    requires
        b.len() > 0,
        candid_binary_accepts(b),
    ensures
        hex_outcome(hex_encoded(b).push('\n'), 0, Seq::empty())
            == Ok::<Seq<Piece>, SpecInputError>(seq![Piece::Binary(b)]),
{
    let h = hex_encoded(b);
    let t = h.push('\n');
    lemma_hex_encoded_chars(b);
    lemma_hex_digits(b);
    assert forall|k: int| 0 <= k < h.len() implies t[k] != '\n' by {
        assert(t[k] == h[k]);
    }
    lemma_line_end_at(t, 0, h.len() as int);
    assert(t.subrange(0, h.len() as int) =~= h);
    assert(ws_end(h, 0) == 0);
    assert(ws_back(h, 0, h.len() as int) == h.len());
    assert(trim(h) =~= h);
    assert(hex_line(h, Seq::empty()) == Ok::<Seq<Piece>, SpecInputError>(seq![Piece::Binary(b)]));
    assert(hex_outcome(t, h.len() + 1int, seq![Piece::Binary(b)])
        == Ok::<Seq<Piece>, SpecInputError>(seq![Piece::Binary(b)]));
}

/// The hex line of nonempty `b` is taken for hex, not for binary.
proof fn lemma_hex_line_detected(b: Seq<u8>)
    requires
        b.len() > 0,
    ensures
        !spec_looks_binary(encode_utf8(hex_encoded(b)).push(0x0a)),
        spec_looks_hex(encode_utf8(hex_encoded(b)).push(0x0a)),
{
    let h = hex_encoded(b);
    let e = encode_utf8(h);
    let o = e.push(0x0a);
    lemma_hex_encoded_chars(b);
    lemma_hex_line_text(b);
    if o.len() >= 4 {
        assert(o.subrange(0, 4)[0] == o[0]);
        assert(o[0] == h[0] as u8);
    }
    assert forall|i: int| 0 <= i < o.len() && !ascii_ws(o[i]) implies hex_digit(#[trigger] o[i]) by {
        if i < e.len() {
            assert(o[i] == e[i]);
            assert(e[i] == h[i] as u8);
        }
    }
    assert forall|i: int| 0 <= i < e.len() implies !ascii_ws(#[trigger] e[i]) by {
        assert(e[i] == h[i] as u8);
    }
    lemma_non_ws_all(e);
    assert(o.drop_last() =~= e);
}

/// Hex output reads back: the line that hex output writes for the binary
/// Candid `b`, read as hex input (named or detected), is that one frame
/// again.
pub proof fn lemma_hex_output_reads_back(b: Seq<u8>)
    requires
        b.len() > 0,
        candid_binary_accepts(b),
    ensures
        spec_read(encode_utf8(hex_encoded(b)).push(0x0a), InputFormat::Hex)
            == Ok::<Seq<Piece>, SpecInputError>(seq![Piece::Binary(b)]),
        spec_read(encode_utf8(hex_encoded(b)).push(0x0a), InputFormat::Auto)
            == Ok::<Seq<Piece>, SpecInputError>(seq![Piece::Binary(b)]),
{
    lemma_hex_line_text(b);
    lemma_hex_line_read(b);
    lemma_hex_line_detected(b);
}


/// What hex output writes for an argument list reads back, named or
/// detected, as the one frame candid encoded it as, and so as the argument
/// list candid decodes from that frame.
pub proof fn lemma_emitted_hex_reads_back(a: Seq<SpecValue>)
    requires
        candid_encodes(a),
        candid_bytes(a).len() > 0,
        candid_binary_accepts(candid_bytes(a)),
    ensures
        spec_emit(a, OutputFormat::Hex) matches Ok(o) && {
            &&& spec_read(o, InputFormat::Hex) == Ok::<Seq<Piece>, SpecInputError>(seq![Piece::Binary(candid_bytes(a))])
            &&& spec_read(o, InputFormat::Auto) == Ok::<Seq<Piece>, SpecInputError>(seq![Piece::Binary(candid_bytes(a))])
            &&& decoded(Piece::Binary(candid_bytes(a))) == candid_binary_value(candid_bytes(a))
        },
{
    lemma_hex_output_reads_back(candid_bytes(a));
}

} // verus!
