//! The behaviour of the `cq` command, through the library calls it is made of:
//! reading input, evaluating the query, writing output.
use cq::input::{parse, InputFormat};
use cq::output::{emit, OutputFormat};
use cq::query::evaluate;

/// Reads `input` in `in_fmt` and writes every argument list it holds in
/// `out_fmt`, as the command does with the identity query.
fn convert(input: &[u8], in_fmt: InputFormat, out_fmt: OutputFormat) -> Result<Vec<u8>, String> {
    let all = parse(input, &in_fmt).map_err(|e| e.message())?;
    let mut out = Vec::new();
    for a in &all {
        out.extend(emit(a, &out_fmt).map_err(|e| e.message())?);
    }
    Ok(out)
}

fn text_out(input: &str) -> String {
    String::from_utf8(convert(input.as_bytes(), InputFormat::Auto, OutputFormat::Candid).unwrap()).unwrap()
}

/// What the command writes for `input` (detected format) and the query `q`,
/// in Candid text: every result of every input value, in order.
fn cq(input: &[u8], q: &str) -> Result<Vec<u8>, String> {
    let all = parse(input, &InputFormat::Auto).map_err(|e| e.message())?;
    let mut out = Vec::new();
    for a in all {
        for r in evaluate(a, Some(q)).map_err(|e| e.message())? {
            out.extend(emit(&r, &OutputFormat::Candid).map_err(|e| e.message())?);
        }
    }
    Ok(out)
}

fn cq_text(input: &str, q: &str) -> String {
    String::from_utf8(cq(input.as_bytes(), q).unwrap()).unwrap()
}

fn text_for_nat42() -> &'static str {
    "(42 : nat)"
}

fn hex_for_nat42() -> &'static str {
    "4449444c00017d2a"
}

fn bin_for_nat42() -> Vec<u8> {
    hex::decode("4449444c00017d2a").unwrap()
}

// --- Identity round-trip golden tests ---

#[test]
fn identity_record() {
    assert_eq!(text_out("(record { foo = 1 : nat })"), "(record { foo = 1 : nat })\n");
}

#[test]
fn identity_variant() {
    assert_eq!(text_out("(variant { Ok = \"hello\" })"), "(variant { Ok = \"hello\" })\n");
}

#[test]
fn identity_opt_some() {
    assert_eq!(text_out("(opt (42 : nat32))"), "(opt (42 : nat32))\n");
}

#[test]
fn identity_vec() {
    assert_eq!(
        text_out("(vec { 1 : nat; 2 : nat; 3 : nat })"),
        "(vec { 1 : nat; 2 : nat; 3 : nat })\n"
    );
}

#[test]
fn identity_bool() {
    assert_eq!(text_out("(true)"), "(true)\n");
}

#[test]
fn identity_int() {
    assert_eq!(text_out("(42 : int)"), "(42 : int)\n");
}

#[test]
fn identity_text() {
    assert_eq!(text_out("(\"hello world\")"), "(\"hello world\")\n");
}

#[test]
fn identity_principal() {
    assert_eq!(text_out("(principal \"aaaaa-aa\")"), "(principal \"aaaaa-aa\")\n");
}

#[test]
fn identity_blob() {
    assert_eq!(text_out("(blob \"hello\")"), "(blob \"hello\")\n");
}

#[test]
fn identity_null() {
    assert_eq!(text_out("(null)"), "(null : null)\n");
}

// --- Error handling ---

#[test]
fn parse_failure_exits_nonzero() {
    let r = convert(b"not valid candid", InputFormat::Auto, OutputFormat::Candid);
    assert!(r.unwrap_err().contains("failed to parse Candid text"));
}

#[test]
fn empty_input_produces_no_output() {
    assert_eq!(convert(b"", InputFormat::Auto, OutputFormat::Candid).unwrap(), b"".to_vec());
}

#[test]
fn invalid_hex_odd_length_errors() {
    let r = convert(b"abc", InputFormat::Hex, OutputFormat::Candid);
    assert!(r.unwrap_err().contains("invalid hex"));
}

#[test]
fn invalid_hex_non_hex_chars_errors() {
    let r = convert(b"zz", InputFormat::Hex, OutputFormat::Candid);
    assert!(r.unwrap_err().contains("invalid hex"));
}

#[test]
fn truncated_binary_errors() {
    let r = convert(b"DIDL", InputFormat::Bin, OutputFormat::Candid);
    assert!(!r.unwrap_err().is_empty());
}

// --- Text format alias ---

#[test]
fn output_text_alias_for_candid() {
    let f = OutputFormat::from_str("text").unwrap();
    assert_eq!(f, OutputFormat::Candid);
    let out = convert(b"(42 : nat)", InputFormat::Auto, f).unwrap();
    assert_eq!(out, b"(42 : nat)\n".to_vec());
}

#[test]
fn input_format_candid_alias_for_text() {
    let f = InputFormat::from_str("candid").unwrap();
    assert_eq!(f, InputFormat::Candid);
    let out = convert(b"(42 : nat)", f, OutputFormat::Candid).unwrap();
    assert_eq!(out, b"(42 : nat)\n".to_vec());
}

// --- Multi-value streaming ---

#[test]
fn multi_value_text_input() {
    assert_eq!(text_out("(42 : nat)(99 : nat)"), "(42 : nat)\n(99 : nat)\n");
}

#[test]
fn multi_value_text_input_newline_separated() {
    assert_eq!(text_out("(42 : nat)\n(99 : nat)\n"), "(42 : nat)\n(99 : nat)\n");
}

#[test]
fn multi_value_hex_input() {
    let out = convert(b"4449444c00017d2a\n4449444c00017d63\n", InputFormat::Hex, OutputFormat::Candid);
    assert_eq!(out.unwrap(), b"(42 : nat)\n(99 : nat)\n".to_vec());
}

#[test]
fn multi_value_bin_parse_and_advance() {
    let frame1 = hex::decode("4449444c00017d2a").unwrap();
    let frame2 = hex::decode("4449444c00017d63").unwrap();
    let mut both = frame1;
    both.extend_from_slice(&frame2);
    let out = convert(&both, InputFormat::Bin, OutputFormat::Candid);
    assert_eq!(out.unwrap(), b"(42 : nat)\n(99 : nat)\n".to_vec());
}

// --- 3x3 round-trip matrix ---

#[test]
fn roundtrip_text_to_text() {
    let out = convert(text_for_nat42().as_bytes(), InputFormat::Auto, OutputFormat::Candid).unwrap();
    assert_eq!(out, format!("{}\n", text_for_nat42()).into_bytes());
}

#[test]
fn roundtrip_text_to_hex() {
    let out = convert(text_for_nat42().as_bytes(), InputFormat::Auto, OutputFormat::Hex).unwrap();
    assert_eq!(out, format!("{}\n", hex_for_nat42()).into_bytes());
}

#[test]
fn roundtrip_text_to_bin() {
    let out = convert(text_for_nat42().as_bytes(), InputFormat::Auto, OutputFormat::Bin).unwrap();
    assert_eq!(out, bin_for_nat42());
}

#[test]
fn roundtrip_hex_to_text() {
    let out = convert(hex_for_nat42().as_bytes(), InputFormat::Hex, OutputFormat::Candid).unwrap();
    assert_eq!(out, format!("{}\n", text_for_nat42()).into_bytes());
}

#[test]
fn roundtrip_hex_to_hex() {
    let out = convert(hex_for_nat42().as_bytes(), InputFormat::Hex, OutputFormat::Hex).unwrap();
    assert_eq!(out, format!("{}\n", hex_for_nat42()).into_bytes());
}

#[test]
fn roundtrip_hex_to_bin() {
    let out = convert(hex_for_nat42().as_bytes(), InputFormat::Hex, OutputFormat::Bin).unwrap();
    assert_eq!(out, bin_for_nat42());
}

#[test]
fn roundtrip_bin_to_text() {
    let out = convert(&bin_for_nat42(), InputFormat::Bin, OutputFormat::Candid).unwrap();
    assert_eq!(out, format!("{}\n", text_for_nat42()).into_bytes());
}

#[test]
fn roundtrip_bin_to_hex() {
    let out = convert(&bin_for_nat42(), InputFormat::Bin, OutputFormat::Hex).unwrap();
    assert_eq!(out, format!("{}\n", hex_for_nat42()).into_bytes());
}

#[test]
fn roundtrip_bin_to_bin() {
    let out = convert(&bin_for_nat42(), InputFormat::Bin, OutputFormat::Bin).unwrap();
    assert_eq!(out, bin_for_nat42());
}

// --- Field access and pipe ---

#[test]
fn field_access_simple() {
    assert_eq!(cq_text("(record { foo = 42 : nat })", ".foo"), "(42 : nat)\n");
}

#[test]
fn field_access_chained() {
    assert_eq!(cq_text("(record { foo = record { bar = 7 : nat } })", ".foo.bar"), "(7 : nat)\n");
}

#[test]
fn field_access_three_levels() {
    assert_eq!(
        cq_text("(record { a = record { b = record { c = 99 : nat } } })", ".a.b.c"),
        "(99 : nat)\n"
    );
}

#[test]
fn pipe_field_access() {
    assert_eq!(cq_text("(record { foo = record { bar = 3 : nat } })", ".foo | .bar"), "(3 : nat)\n");
}

#[test]
fn pipe_identity_passthrough() {
    assert_eq!(cq_text("(record { foo = 5 : nat })", ". | .foo"), "(5 : nat)\n");
}

#[test]
fn identity_explicit_dot() {
    assert_eq!(cq_text("(record { foo = 1 : nat })", "."), "(record { foo = 1 : nat })\n");
}

#[test]
fn field_access_unknown_field_errors() {
    let e = cq(b"(record { foo = 1 : nat })", ".missing").unwrap_err();
    assert!(e.contains("unknown field 'missing'"));
    assert!(e.contains("foo"));
}

#[test]
fn field_access_non_record_errors() {
    let e = cq(b"(42 : nat)", ".foo").unwrap_err();
    assert!(e.contains("field access '.foo' requires a record"));
}

#[test]
fn field_access_text_field() {
    assert_eq!(cq_text("(record { name = \"alice\" })", ".name"), "(\"alice\")\n");
}

#[test]
fn field_access_round_trip_pipe_cq() {
    let direct = cq(b"(record { foo = 1 : nat })", ".foo").unwrap();
    let piped = cq(&direct, ".").unwrap();
    assert_eq!(direct, piped);
}

// --- Round trips through other formats ---

#[test]
fn round_trip_text_via_hex_preserves_hash() {
    let hex_out = convert(b"(record { foo = 1 : nat })", InputFormat::Auto, OutputFormat::Hex).unwrap();
    let hex_str = String::from_utf8(hex_out).unwrap();
    let out = convert(hex_str.trim().as_bytes(), InputFormat::Hex, OutputFormat::Candid).unwrap();
    assert_eq!(String::from_utf8(out).unwrap(), "(record { 5_097_222 = 1 : nat })\n");
}

#[test]
fn round_trip_text_to_text_is_identity() {
    let first = text_out("(opt (42 : nat32))");
    let second = text_out(first.trim());
    assert_eq!(second, format!("{}\n", first.trim()));
}
