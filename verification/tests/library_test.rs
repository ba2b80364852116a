//! Scenarios and edge cases of the library's parts, and instances of its laws.
use std::collections::HashMap;

use cq::bin_frame::{frame_size, FrameError};
use cq::cli::{fails_for_no_output, render, Args as CliArgs, ColorMode, RenderError};
use cq::input::{parse, InputError, InputFormat};
use cq::output::{hex_line_bytes, line_bytes, emit, OutputError, OutputFormat};
use cq::query::{evaluate, parse as parse_query, Expr, QueryError};
use cq::schema::{
    args_with_names, build_hash_map, with_names, DidSource, SchemaError, SchemaResolver, ShapeField, TypeShape,
    TypeTable,
};
use cq::value::{label_display, Args, Field, Label, Value};

fn named(n: &str, v: Value) -> Field {
    Field { id: Label::Named(n.to_string()), val: v }
}

fn nat_value(n: &str) -> Value {
    Value::Nat(n.to_string())
}

fn one(v: Value) -> Args {
    Args { args: vec![v] }
}

fn nats(ns: &[&str]) -> Value {
    Value::Vec(ns.iter().map(|n| nat_value(n)).collect())
}

fn query(input: Args, q: &str) -> Result<Vec<Args>, String> {
    evaluate(input, Some(q)).map_err(|e| e.message())
}

fn text_of(a: &Args) -> String {
    String::from_utf8(emit(a, &OutputFormat::Candid).unwrap()).unwrap()
}

// --- Frames ---

#[test]
fn frame_size_of_nat_frame() {
    let frame = hex::decode("4449444c00017d2a").unwrap();
    assert_eq!(frame_size(&frame), Ok(8));
}

#[test]
fn frame_size_of_record_frame() {
    let frame = hex::decode("4449444c016c01868eb7027d01002a").unwrap();
    assert_eq!(frame_size(&frame), Ok(15));
}

#[test]
fn frame_size_ignores_following_bytes() {
    let mut data = hex::decode("4449444c00017d2a").unwrap();
    data.extend_from_slice(b"anything at all");
    assert_eq!(frame_size(&data), Ok(8));
}

#[test]
fn frame_size_of_text_frame() {
    // ("hi"): type text (0x71), length 2, then the two bytes.
    let frame = hex::decode("4449444c0001710268690000").unwrap();
    assert_eq!(frame_size(&frame), Ok(10));
}

#[test]
fn frame_without_magic() {
    assert_eq!(frame_size(b""), Err(FrameError::MissingMagic));
    assert_eq!(frame_size(b"DIDX\x00\x00"), Err(FrameError::MissingMagic));
    assert_eq!(
        FrameError::MissingMagic.message(),
        "not a DIDL binary frame (missing magic bytes)"
    );
}

#[test]
fn frame_cut_short() {
    assert_eq!(frame_size(b"DIDL"), Err(FrameError::UnexpectedEnd));
    let frame = hex::decode("4449444c00017d").unwrap();
    assert_eq!(frame_size(&frame), Err(FrameError::UnexpectedEnd));
    assert_eq!(FrameError::UnexpectedEnd.message(), "unexpected end of binary Candid frame");
}

#[test]
fn every_cut_of_a_frame_is_refused() {
    let frame = hex::decode("4449444c016c01868eb7027d01002a").unwrap();
    let n = frame_size(&frame).unwrap();
    assert!(n >= 6);
    for m in 0..n {
        assert!(frame_size(&frame[..m]).is_err(), "prefix of {} bytes", m);
    }
    // The shortest frame: the magic, no types, no arguments.
    assert_eq!(frame_size(&hex::decode("4449444c0000").unwrap()), Ok(6));
}

#[test]
fn blob_frames_skip_their_bytes() {
    // (blob "abc"): type table [vec nat8], one argument of type 0.
    let blob = hex::decode("4449444c016d7b010003616263").unwrap();
    assert_eq!(frame_size(&blob), Ok(13));
    // The same bytes as vec nat16 need twice the room; 3 bytes are too few.
    let short = hex::decode("4449444c016d7a010003616263").unwrap();
    assert_eq!(frame_size(&short), Err(FrameError::UnexpectedEnd));
    let cut = hex::decode("4449444c016d7b0100036162").unwrap();
    assert_eq!(frame_size(&cut), Err(FrameError::UnexpectedEnd));
}

#[test]
fn frame_with_bad_type_reference() {
    // One argument of type table entry 5, but the table is empty.
    let frame = hex::decode("4449444c000105").unwrap();
    assert_eq!(frame_size(&frame), Err(FrameError::TypeIndexOutOfRange(5, 0)));
    assert_eq!(
        FrameError::TypeIndexOutOfRange(5, 0).message(),
        "type table index 5 out of range (table len 0)"
    );
}

#[test]
fn frame_with_unknown_opcode() {
    // A type table entry with opcode 0x01, which constructs nothing.
    let frame = hex::decode("4449444c010100").unwrap();
    assert_eq!(frame_size(&frame), Err(FrameError::UnexpectedOpcode(1)));
    assert_eq!(FrameError::UnexpectedOpcode(-30).message(), "unexpected type opcode -30 in type table");
}

// --- Query parsing ---

#[test]
fn query_parse_forms() {
    assert_eq!(parse_query(".").unwrap(), Expr::Identity);
    assert_eq!(parse_query(".foo?").unwrap(), Expr::Field("foo".to_string(), true));
    assert_eq!(parse_query(".[3]").unwrap(), Expr::Index(3));
    assert_eq!(parse_query(".[1:]").unwrap(), Expr::Slice(Some(1), None));
    assert_eq!(parse_query(".[:2]").unwrap(), Expr::Slice(None, Some(2)));
    assert_eq!(parse_query(".[]").unwrap(), Expr::Iter);
    assert_eq!(
        parse_query(".a.b").unwrap(),
        Expr::Pipe(Box::new(Expr::Field("a".to_string(), false)), Box::new(Expr::Field("b".to_string(), false)))
    );
    assert_eq!(parse_query(".a.b").unwrap(), parse_query(".a | .b").unwrap());
    assert_eq!(parse_query("  .a  |  .b  ").unwrap(), parse_query(".a|.b").unwrap());
}

#[test]
fn query_parse_errors() {
    assert_eq!(parse_query("foo"), Err(QueryError::MustStartWithDot));
    assert_eq!(parse_query("foo").unwrap_err().message(), "query must start with '.'");
    assert_eq!(parse_query(".a junk"), Err(QueryError::UnexpectedCharacters("junk".to_string())));
    assert_eq!(
        parse_query(".a junk").unwrap_err().message(),
        "unexpected characters in query: \"junk\""
    );
    assert_eq!(parse_query(".[x]"), Err(QueryError::InvalidBracket));
    assert_eq!(parse_query(".[1:2"), Err(QueryError::ExpectedCloseBracket));
    assert_eq!(
        parse_query(".[99999999999999999999999]"),
        Err(QueryError::InvalidIndex("99999999999999999999999".to_string()))
    );
}

// --- Query evaluation ---

#[test]
fn index_slice_and_iterate() {
    let v = || one(nats(&["1", "2", "3", "4"]));
    assert_eq!(query(v(), ".[0]").unwrap(), vec![one(nat_value("1"))]);
    assert_eq!(query(v(), ".[1:3]").unwrap(), vec![one(nats(&["2", "3"]))]);
    assert_eq!(query(v(), ".[2:]").unwrap(), vec![one(nats(&["3", "4"]))]);
    assert_eq!(query(v(), ".[:9]").unwrap(), vec![one(nats(&["1", "2", "3", "4"]))]);
    assert_eq!(
        query(one(nats(&["1", "2", "3"])), ".[]").unwrap(),
        vec![one(nat_value("1")), one(nat_value("2")), one(nat_value("3"))]
    );
    assert_eq!(query(one(nats(&[])), ".[]").unwrap(), Vec::<Args>::new());
}

#[test]
fn index_and_slice_errors() {
    let v = || one(nats(&["1", "2", "3", "4"]));
    assert_eq!(query(v(), ".[5]").unwrap_err(), "index 5 out of bounds: vec has 4 element(s)");
    assert_eq!(query(v(), ".[9:]").unwrap_err(), "slice start 9 out of bounds: vec has 4 element(s)");
    assert_eq!(query(v(), ".[3:2]").unwrap_err(), "slice index starts at 3 but ends at 2");
    assert_eq!(query(one(nat_value("1")), ".[0]").unwrap_err(), "index access '.[0]' requires a vec, got nat");
    assert_eq!(query(one(nat_value("1")), ".[]").unwrap_err(), "iterator '.[]' requires a vec, got nat");
    assert_eq!(query(one(nat_value("1")), ".[0:1]").unwrap_err(), "slice access requires a vec, got nat");
    let two = Args { args: vec![nat_value("1"), nat_value("2")] };
    assert_eq!(evaluate(two, Some(".[]")), Err(QueryError::IterNeedsSingleValue(2)));
}

#[test]
fn variant_tags() {
    let ok = || one(Value::Variant(Box::new(named("Ok", Value::Text("hello".to_string()))), 0));
    assert_eq!(query(ok(), ".Ok").unwrap(), vec![one(Value::Text("hello".to_string()))]);
    let pending = || one(Value::Variant(Box::new(named("Pending", Value::Null)), 1));
    assert_eq!(query(pending(), ".Ok?").unwrap(), Vec::<Args>::new());
    assert_eq!(
        query(pending(), ".Ok").unwrap_err(),
        "tag mismatch: active tag is 'Pending', tried to access 'Ok'"
    );
}

#[test]
fn optional_field_on_record() {
    let r = || one(Value::Record(vec![named("foo", nat_value("1")), named("bar", nat_value("2"))]));
    assert_eq!(query(r(), ".baz?").unwrap(), Vec::<Args>::new());
    assert_eq!(query(r(), ".bar?").unwrap(), vec![one(nat_value("2"))]);
    assert_eq!(query(r(), ".baz").unwrap_err(), "unknown field 'baz'; available fields: foo, bar");
}

#[test]
fn field_found_by_hash() {
    // A record decoded from binary Candid knows `foo` only by its hash.
    let input = one(Value::Record(vec![Field { id: Label::Id(5_097_222), val: nat_value("42") }]));
    assert_eq!(query(input, ".foo").unwrap(), vec![one(nat_value("42"))]);
    assert_eq!(label_display(&Label::Id(5_097_222)), "5097222");
    let other = one(Value::Record(vec![Field { id: Label::Id(5_097_223), val: nat_value("42") }]));
    assert_eq!(query(other, ".foo").unwrap_err(), "unknown field 'foo'; available fields: 5097223");
}

#[test]
fn field_access_kinds_in_messages() {
    assert_eq!(
        query(one(nats(&["1"])), ".foo").unwrap_err(),
        "field access '.foo' requires a record or variant, got vec"
    );
    assert_eq!(
        query(one(Value::OptNone), ".foo").unwrap_err(),
        "field access '.foo' requires a record or variant, got null"
    );
    let two = Args { args: vec![nat_value("1"), nat_value("2")] };
    assert_eq!(query(two, ".foo").unwrap_err(), "field access '.foo' requires a single value, got 2 values");
}

#[test]
fn a_pipe_concatenates_the_results_of_its_right_side() {
    let input = one(Value::Vec(vec![nats(&["1", "2"]), nats(&[]), nats(&["3"])]));
    let out = query(input, ".[] | .[]").unwrap();
    let expected: Vec<Args> = ["1", "2", "3"].iter().map(|n| one(nat_value(n))).collect();
    assert_eq!(out, expected);
    // One failing run of the right side fails the whole pipe.
    let mixed = one(Value::Vec(vec![nats(&["1"]), Value::Bool(true)]));
    assert!(query(mixed, ".[] | .[]").is_err());
}

#[test]
fn pipes_group_either_way() {
    let r = || {
        let c = Value::Record(vec![named("c", nats(&["7", "8"]))]);
        let b = Value::Record(vec![named("b", c)]);
        one(Value::Record(vec![named("a", b)]))
    };
    let left = query(r(), ".a | .b | .c | .[]").unwrap();
    assert_eq!(left, vec![one(nat_value("7")), one(nat_value("8"))]);
    assert_eq!(query(r(), ".a.b | .c.[]").unwrap(), left);
    assert_eq!(query(r(), ".a.b.c.[]").unwrap(), left);
}

#[test]
fn identity_is_neutral() {
    let r = || one(Value::Record(vec![named("foo", nat_value("5"))]));
    let plain = query(r(), ".foo").unwrap();
    assert_eq!(query(r(), ". | .foo").unwrap(), plain);
    assert_eq!(query(r(), ".foo | .").unwrap(), plain);
    assert_eq!(evaluate(r(), None).unwrap(), vec![r()]);
    assert_eq!(evaluate(r(), Some("")).unwrap(), vec![r()]);
}

// --- Input ---

#[test]
fn format_names() {
    assert_eq!(InputFormat::from_str("hex"), Ok(InputFormat::Hex));
    assert_eq!(InputFormat::from_str("bin"), Ok(InputFormat::Bin));
    assert_eq!(
        InputFormat::from_str("json").unwrap_err().message(),
        "unknown input format: json; expected candid, hex, or bin"
    );
    assert_eq!(InputFormat::from_str("text"), Err(InputError::UnknownFormat("text".to_string())));
    assert_eq!(OutputFormat::from_str("candid"), Ok(OutputFormat::Candid));
    assert_eq!(OutputFormat::from_str("hex"), Ok(OutputFormat::Hex));
    assert_eq!(OutputFormat::from_str("bin"), Ok(OutputFormat::Bin));
    assert_eq!(
        OutputFormat::from_str("yaml").unwrap_err().message(),
        "unknown output format: yaml; expected candid, hex, or bin"
    );
    assert_eq!(OutputFormat::from_str("Text"), Err(OutputError::UnknownFormat("Text".to_string())));
}

#[test]
fn hex_is_detected() {
    let all = parse(b"  4449444c00017d2a\n", &InputFormat::Auto).unwrap();
    assert_eq!(all.len(), 1);
    assert_eq!(text_of(&all[0]), "(42 : nat)\n");
}

#[test]
fn binary_is_detected() {
    let frame = hex::decode("4449444c00017d2a").unwrap();
    let all = parse(&frame, &InputFormat::Auto).unwrap();
    assert_eq!(all.len(), 1);
    assert_eq!(text_of(&all[0]), "(42 : nat)\n");
}

#[test]
fn text_that_is_not_utf8() {
    let r = parse(&[0xff, 0xfe, 0x28], &InputFormat::Candid);
    assert_eq!(r.unwrap_err(), InputError::NotUtf8);
    assert_eq!(InputError::NotUtf8.message(), "input is not valid UTF-8");
}

#[test]
fn hex_lines_blank_and_bad() {
    let all = parse(b"\n4449444c00017d2a\n\n  \n", &InputFormat::Hex).unwrap();
    assert_eq!(all.len(), 1);
    let bad = parse(b"4449444c00017d2a\n zz \n", &InputFormat::Hex).unwrap_err();
    assert_eq!(bad, InputError::InvalidHex("zz".to_string()));
    assert_eq!(bad.message(), "invalid hex on line: zz");
    let not_candid = parse(b"00", &InputFormat::Hex).unwrap_err();
    assert_eq!(not_candid, InputError::HexDecode);
    assert_eq!(not_candid.message(), "failed to decode binary Candid from hex");
}

#[test]
fn binary_that_candid_refuses() {
    assert_eq!(parse(b"", &InputFormat::Bin).unwrap().len(), 0);
    let frame = hex::decode("4449444c00017d2a").unwrap();
    let mut data = frame.clone();
    data.extend_from_slice(b"XY");
    assert_eq!(parse(&data, &InputFormat::Bin).unwrap_err(), InputError::Frame(FrameError::MissingMagic));
    assert_eq!(
        InputError::Frame(FrameError::MissingMagic).message(),
        "not a DIDL binary frame (missing magic bytes)"
    );
    assert_eq!(InputError::BinDecode.message(), "failed to decode binary Candid");
}

#[test]
fn text_values_respect_strings_and_nesting() {
    let all = parse(b"(\"a)(b\")  (record { x = (1 : nat) })", &InputFormat::Candid).unwrap();
    assert_eq!(all.len(), 2);
    assert_eq!(text_of(&all[0]), "(\"a)(b\")\n");
    let bad = parse(b"(1 : nat)(oops)", &InputFormat::Candid).unwrap_err();
    assert!(bad.message().starts_with("failed to parse Candid text: "));
}

// --- Output ---

#[test]
fn output_lines() {
    assert_eq!(line_bytes("ab"), b"ab\n".to_vec());
    assert_eq!(hex_line_bytes(&[0xde, 0xad, 0x01]), b"dead01\n".to_vec());
    assert_eq!(hex_line_bytes(&[]), b"\n".to_vec());
}

#[test]
fn hex_output_reads_back() {
    let all = parse(b"(record { foo = 1 : nat })", &InputFormat::Auto).unwrap();
    let hex_line = emit(&all[0], &OutputFormat::Hex).unwrap();
    let bin = emit(&all[0], &OutputFormat::Bin).unwrap();
    assert_eq!(hex_line, hex_line_bytes(&bin));
    let again = parse(&hex_line, &InputFormat::Auto).unwrap();
    assert_eq!(again.len(), 1);
    assert_eq!(emit(&again[0], &OutputFormat::Bin).unwrap(), bin);
}

#[test]
fn concatenated_frames_read_back() {
    let a = parse(b"(1 : nat)(\"two\")(true)", &InputFormat::Candid).unwrap();
    let mut data = Vec::new();
    for x in &a {
        data.extend(emit(x, &OutputFormat::Bin).unwrap());
    }
    let back = parse(&data, &InputFormat::Auto).unwrap();
    assert_eq!(back.len(), 3);
    let texts: Vec<String> = back.iter().map(text_of).collect();
    assert_eq!(texts, vec!["(1 : nat)\n", "(\"two\")\n", "(true)\n"]);
}

// --- Command line ---

#[test]
fn colour_decision() {
    assert!(ColorMode::Always.use_color(false, true));
    assert!(!ColorMode::Never.use_color(true, false));
    assert!(ColorMode::Auto.use_color(true, false));
    assert!(!ColorMode::Auto.use_color(true, true));
    assert!(!ColorMode::Auto.use_color(false, false));
}

#[test]
fn exit_status_decision() {
    assert!(fails_for_no_output(true, 0));
    assert!(!fails_for_no_output(true, 3));
    assert!(!fails_for_no_output(false, 0));
}

#[test]
fn chosen_formats() {
    let mut opts = CliArgs {
        query: None,
        input_format: None,
        output: None,
        did: vec![],
        color: ColorMode::Auto,
        compact: false,
        blob_threshold: 64,
        exit_status: false,
    };
    assert_eq!(opts.input_format(), Ok(InputFormat::Auto));
    assert_eq!(opts.output_format(), Ok(OutputFormat::Candid));
    opts.input_format = Some("hex".to_string());
    opts.output = Some("text".to_string());
    assert_eq!(opts.input_format(), Ok(InputFormat::Hex));
    assert_eq!(opts.output_format(), Ok(OutputFormat::Candid));
    opts.output = Some("xml".to_string());
    assert_eq!(opts.output_format(), Err(OutputError::UnknownFormat("xml".to_string())));
}

// --- Schemas ---

fn field(n: &str, ty: TypeShape) -> ShapeField {
    ShapeField { id: Label::Named(n.to_string()), ty }
}

#[test]
fn names_from_a_table() {
    // type node = record { next : opt node; value : nat }; type wrap = variant { node : node };
    let node = TypeShape::Record(vec![
        field("next", TypeShape::Opt(Box::new(TypeShape::Var("node".to_string())))),
        field("value", TypeShape::Other),
    ]);
    let wrap = TypeShape::Variant(vec![field("node", TypeShape::Var("node".to_string()))]);
    let table = TypeTable { names: vec!["node".to_string(), "wrap".to_string()], types: vec![node, wrap], services: vec![] };
    let m = build_hash_map(&table);
    assert_eq!(m.len(), 3);
    for n in ["next", "value", "node"] {
        assert_eq!(m.get(&candid::idl_hash(n)), Some(&n.to_string()));
    }
}

#[test]
fn names_from_a_did_file() {
    let did = DidSource {
        path: "a.did".to_string(),
        text: "type t = record { foo : nat; kind : variant { Transfer : nat; Receive } };".to_string(),
    };
    let s = SchemaResolver::load(&[did]).unwrap();
    assert_eq!(s.hash_to_name.get(&5_097_222), Some(&"foo".to_string()));
    assert_eq!(s.hash_to_name.get(&candid::idl_hash("Transfer")), Some(&"Transfer".to_string()));
    assert_eq!(s.hash_to_name.len(), 4);
    assert_eq!(s.type_env.names, vec!["t".to_string()]);
}

#[test]
fn schema_errors() {
    let bad = DidSource { path: "bad.did".to_string(), text: "type t = ;".to_string() };
    match SchemaResolver::load(&[bad]) {
        Err(e @ SchemaError::Parse(..)) => assert!(e.message().starts_with("failed to parse bad.did: ")),
        _ => panic!("expected a parse error"),
    }
    let unbound = DidSource { path: "u.did".to_string(), text: "type t = record { a : missing };".to_string() };
    match SchemaResolver::load(&[unbound]) {
        Err(e @ SchemaError::Check(..)) => assert!(e.message().starts_with("type error in u.did: ")),
        _ => panic!("expected a type error"),
    }
    assert_eq!(SchemaResolver::load(&[]).unwrap().hash_to_name.len(), 0);
}

#[test]
fn names_from_a_service_declaration() {
    // Labels written only inside the service are recovered too.
    let did = DidSource {
        path: "svc.did".to_string(),
        text: "type t = record { foo : nat };\nservice : (record { owner : principal }) -> {\n  get : (record { key : text }) -> (variant { found : t; missing }) query;\n}".to_string(),
    };
    let s = SchemaResolver::load(&[did]).unwrap();
    for n in ["foo", "owner", "key", "found", "missing"] {
        assert_eq!(s.hash_to_name.get(&candid::idl_hash(n)), Some(&n.to_string()), "{}", n);
    }
    assert_eq!(s.hash_to_name.len(), 5);
    assert_eq!(s.type_env.services.len(), 1);
    let plain = DidSource { path: "p.did".to_string(), text: "service : { ping : (record { seq : nat }) -> () }".to_string() };
    let s = SchemaResolver::load(&[plain]).unwrap();
    assert_eq!(s.hash_to_name.get(&candid::idl_hash("seq")), Some(&"seq".to_string()));
}

#[test]
fn schemas_read_in_order() {
    let first = DidSource { path: "a.did".to_string(), text: "type a = record { foo : nat };".to_string() };
    let second = DidSource { path: "b.did".to_string(), text: "type b = record { bar : a };".to_string() };
    let s = SchemaResolver::load(&[first, second]).unwrap();
    assert_eq!(s.type_env.names, vec!["a".to_string(), "b".to_string()]);
    assert_eq!(s.hash_to_name.get(&candid::idl_hash("bar")), Some(&"bar".to_string()));
    // The later schema is checked against the earlier ones only.
    let first = DidSource { path: "a.did".to_string(), text: "type a = record { foo : nat };".to_string() };
    let second = DidSource { path: "b.did".to_string(), text: "type b = record { bar : a };".to_string() };
    match SchemaResolver::load(&[second, first]) {
        Err(e @ SchemaError::Check(..)) => assert!(e.message().starts_with("type error in b.did: ")),
        _ => panic!("expected a type error in the first schema"),
    }
    // A name bound twice across schemas is refused at the second.
    let one = DidSource { path: "one.did".to_string(), text: "type a = nat;".to_string() };
    let two = DidSource { path: "two.did".to_string(), text: "type a = int;".to_string() };
    match SchemaResolver::load(&[one, two]) {
        Err(SchemaError::Check(p, m)) => {
            assert_eq!(p, "two.did");
            assert!(m.contains("duplicate binding for a"));
        },
        _ => panic!("expected a type error in the second schema"),
    }
}

#[test]
fn names_put_on_values() {
    let mut names = HashMap::new();
    names.insert(5_097_222u32, "foo".to_string());
    let v = Value::Record(vec![
        Field { id: Label::Id(5_097_222), val: Value::Opt(Box::new(Value::Variant(
            Box::new(Field { id: Label::Id(5_097_222), val: nat_value("1") }),
            0,
        ))) },
        Field { id: Label::Id(7), val: nat_value("2") },
        Field { id: Label::Unnamed(5_097_222), val: nat_value("3") },
    ]);
    let expected = Value::Record(vec![
        named("foo", Value::Opt(Box::new(Value::Variant(Box::new(named("foo", nat_value("1"))), 0)))),
        Field { id: Label::Id(7), val: nat_value("2") },
        Field { id: Label::Unnamed(5_097_222), val: nat_value("3") },
    ]);
    assert_eq!(with_names(&v, &names), expected);
    let a = Args { args: vec![v] };
    assert_eq!(args_with_names(&a, &names), Args { args: vec![expected] });
    // A renamed field is still found by its old hash.
    let renamed = args_with_names(&one(Value::Record(vec![Field { id: Label::Id(5_097_222), val: nat_value("4") }])), &names);
    assert_eq!(query(renamed, ".foo").unwrap(), vec![one(nat_value("4"))]);
}

#[test]
fn opt_and_bool_bytes_must_be_zero_or_one() {
    // One argument of type 0 = opt nat, with presence byte 2.
    let frame = hex::decode("4449444c016e7d010002").unwrap();
    assert_eq!(frame_size(&frame), Err(FrameError::InvalidOptFlag(2)));
    let absent = hex::decode("4449444c016e7d010000").unwrap();
    assert_eq!(frame_size(&absent), Ok(10));
    // (true) is the byte 1; the byte 2 is no bool.
    assert_eq!(frame_size(&hex::decode("4449444c00017e01").unwrap()), Ok(8));
    assert_eq!(frame_size(&hex::decode("4449444c00017e02").unwrap()), Err(FrameError::InvalidBool(2)));
    assert_eq!(FrameError::InvalidBool(2).message(), "invalid bool value 2 in value");
    assert_eq!(FrameError::InvalidOptFlag(7).message(), "invalid opt presence flag 7 in value");
}

#[test]
fn upper_case_hex_prefix_is_refused() {
    assert_eq!(parse(b"(0X1)", &InputFormat::Candid).unwrap_err(), InputError::UpperHexPrefix);
    assert_eq!(parse(b"(vec { 1 : nat; 0X2 })", &InputFormat::Candid).unwrap_err(), InputError::UpperHexPrefix);
    // Inside a string or a name, `0X` starts no number.
    let inside = parse(b"(\"0X1 \\\" 0X2\", variant { a0X1 })", &InputFormat::Candid).unwrap();
    assert_eq!(inside.len(), 1);
    assert_eq!(inside[0].args[0], Value::Text("0X1 \" 0X2".to_string()));
    assert_eq!(
        InputError::UpperHexPrefix.message(),
        "failed to parse Candid text: hex numbers start with 0x, not 0X"
    );
    let all = parse(b"(0x1f)", &InputFormat::Candid).unwrap();
    assert_eq!(text_of(&all[0]), "(31)\n");
}

#[test]
fn field_ids_near_the_top_are_refused() {
    let r = parse(b"(record { 4294967295 = 1 : nat })", &InputFormat::Candid);
    assert_eq!(r.unwrap_err(), InputError::FieldIdTooLarge);
    let r = parse(b"(record { 0xffff_ffff = 1 : nat })", &InputFormat::Candid);
    assert_eq!(r.unwrap_err(), InputError::FieldIdTooLarge);
    let r = parse(b"(record { a = record { 1; 2 } } : record { a : record { 4294967295 : nat; nat } })", &InputFormat::Candid);
    assert_eq!(r.unwrap_err(), InputError::FieldIdTooLarge);
    // Just below the top with no unlabelled field after it: read as it is.
    assert!(parse(b"(record { 4294967294 = 1 : nat })", &InputFormat::Candid).is_ok());
    // An unlabelled field after it would take the number past the top.
    let r = parse(b"(record { 4294967294 = 1 : nat; 2 : nat })", &InputFormat::Candid);
    assert_eq!(r.unwrap_err(), InputError::FieldIdTooLarge);
    let all = parse(b"(record { 5097222 = 1 : nat })", &InputFormat::Candid).unwrap();
    assert_eq!(text_of(&all[0]), "(record { 5_097_222 = 1 : nat })\n");
    let did = DidSource { path: "big.did".to_string(), text: "type T = record { 4294967295 : nat; nat };".to_string() };
    match SchemaResolver::load(&[did]) {
        Err(e) => assert_eq!(e.message(), "failed to parse big.did: a field id is too close to 4294967295"),
        Ok(_) => panic!("expected a parse error"),
    }
}

/// What the command writes for the Candid text `input` and the query `q`.
fn run_query(input: &str, q: &str) -> Result<String, String> {
    let all = parse(input.as_bytes(), &InputFormat::Auto).map_err(|e| e.message())?;
    let mut out = Vec::new();
    for a in all {
        for r in evaluate(a, Some(q)).map_err(|e| e.message())? {
            out.extend(emit(&r, &OutputFormat::Candid).map_err(|e| e.message())?);
        }
    }
    Ok(String::from_utf8(out).unwrap())
}

#[test]
fn opt_fields_and_their_postfix() {
    assert_eq!(run_query("(record { x = opt 42 : opt nat })", ".x?").unwrap(), "(42 : nat)\n");
    assert_eq!(run_query("(record { x = opt 42 : opt nat })", ".x").unwrap(), "(opt (42 : nat))\n");
    assert_eq!(run_query("(record { x = null : opt nat })", ".x?").unwrap(), "");
    assert_eq!(run_query("(record { address = opt record { city = \"NYC\" } })", ".address?.city").unwrap(), "(\"NYC\")\n");
    assert_eq!(run_query("(variant { Pending })", ".Ok?").unwrap(), "");
    assert_eq!(
        run_query("(record { kind = variant { Transfer = record { amount = 100 : nat } } })", ".kind.Transfer?.amount").unwrap(),
        "(100 : nat)\n"
    );
}

#[test]
fn length_builtin() {
    assert_eq!(run_query("(vec { 1 : nat; 2 : nat; 3 : nat })", "length").unwrap(), "(3 : nat)\n");
    assert_eq!(run_query("(\"héllo\")", "length").unwrap(), "(5 : nat)\n");
    assert_eq!(run_query("(record { a = 1 : nat; b = 2 : nat })", "length").unwrap(), "(2 : nat)\n");
    assert_eq!(run_query("(record { v = vec { 1 : nat } })", ".v | length").unwrap(), "(1 : nat)\n");
    assert_eq!(run_query("(42 : nat)", "length").unwrap_err(), "length requires a vec, text, blob or record, got nat");
    assert_eq!(parse_query("lengthy"), Err(QueryError::MustStartWithDot));
    assert_eq!(parse_query(" length ").unwrap(), Expr::Length);
}

#[test]
fn numeric_field_fallback() {
    let hex = hex::decode("4449444c016c01868eb7027d01002a").unwrap();
    let all = parse(&hex, &InputFormat::Bin).unwrap();
    let a = all.into_iter().next().unwrap();
    assert_eq!(text_of(&a), "(record { 5_097_222 = 42 : nat })\n");
    let by_hash = evaluate(a, Some(".[5097222]")).unwrap();
    assert_eq!(text_of(&by_hash[0]), "(42 : nat)\n");
    assert_eq!(run_query("(record { foo = 42 : nat })", ".[5097222]").unwrap(), "(42 : nat)\n");
    assert_eq!(
        run_query("(record { foo = 42 : nat })", ".[7]").unwrap_err(),
        "unknown field '7'; available fields: foo"
    );
}

#[test]
fn unknown_field_hint() {
    assert_eq!(
        run_query("(record { foo = 1 : nat })", ".fo").unwrap_err(),
        "unknown field 'fo'; did you mean 'foo'?; available fields: foo"
    );
    assert_eq!(
        run_query("(record { foo = 1 : nat; bar = 2 : nat })", ".barn").unwrap_err(),
        "unknown field 'barn'; did you mean 'bar'?; available fields: bar, foo"
    );
}

#[test]
fn render_writes_each_result_with_names() {
    let mut names = HashMap::new();
    names.insert(5_097_222u32, "foo".to_string());
    let input = one(Value::Vec(vec![
        Value::Record(vec![Field { id: Label::Id(5_097_222), val: nat_value("1") }]),
        Value::Record(vec![Field { id: Label::Id(5_097_222), val: nat_value("2") }]),
    ]));
    let r = render(input, Some(".[]"), &names, &OutputFormat::Candid);
    assert_eq!(r.error, None);
    assert_eq!(r.count, 2);
    assert_eq!(
        String::from_utf8(r.bytes).unwrap(),
        "(record { foo = 1 : nat })\n(record { foo = 2 : nat })\n"
    );
    let failed = render(one(nat_value("1")), Some(".a"), &names, &OutputFormat::Candid);
    assert_eq!(failed.count, 0);
    assert!(failed.bytes.is_empty());
    match failed.error {
        Some(e @ RenderError::Query(_)) => assert!(e.message().starts_with("field access '.a'")),
        _ => panic!("expected a query error"),
    }
}

#[test]
fn joined_queries_run_the_right_one_on_each_result() {
    let rec = |a: &str, b: &str| {
        Value::Record(vec![named("a", nats(&[a, b])), named("b", nat_value(b))])
    };
    let input = || one(Value::Vec(vec![rec("1", "2"), rec("3", "4")]));
    for (p, q) in [(".[]", ".a"), (".[]", ".a | .[]"), (".[] | .a", ".[]"), (".[1]", ".b"), (".", ".[0].b")] {
        let joined = evaluate(input(), Some(&format!("{} | {}", p, q))).unwrap();
        let mut expected = Vec::new();
        for x in evaluate(input(), Some(p)).unwrap() {
            expected.extend(evaluate(x, Some(q)).unwrap());
        }
        assert_eq!(joined, expected, "{} | {}", p, q);
    }
    // When the right query fails on a result, the joined query fails.
    assert!(evaluate(input(), Some(".[] | .c")).is_err());
}
