//! candid's values converted to the library's values and back, variant for
//! variant: big integers as their decimal numerals, floats as the shortest
//! decimal that reads back to them, principals as their bytes.
use vstd::prelude::*;
use candid::types::value::{IDLField, VariantValue};
use candid::{IDLArgs, IDLValue};
use crate::value::{Args, Field, Label, SpecField, SpecValue, Value};

verus! {

/// A candid value; only converted.
#[verifier::external_type_specification]
#[verifier::external_body]
pub struct ExIdlValue(IDLValue);

/// A numeral that candid reads back as a `nat`: decimal digits, at least one.
pub open spec fn nat_numeral(s: Seq<char>) -> bool {
    &&& s.len() > 0
    &&& forall|i: int| 0 <= i < s.len() ==> '0' <= #[trigger] s[i] <= '9'
}

/// A numeral that candid reads back as an `int`: a `nat` numeral, maybe after `-`.
pub open spec fn int_numeral(s: Seq<char>) -> bool {
    nat_numeral(s) || (s.len() > 0 && s[0] == '-' && nat_numeral(s.drop_first()))
}

/// A value that candid can hold for certain: principals of at most 29
/// bytes and numerals that candid reads back, at every depth, and no float
/// (whose text is not checked here).
pub open spec fn ready_value(v: SpecValue) -> bool
    decreases v,
{
    match v {
        SpecValue::Opt(b) => ready_value(*b),
        SpecValue::Vec(items) => ready_values(items),
        SpecValue::Record(fs) => ready_fields(fs),
        SpecValue::Variant(f, _) => ready_value(f.val),
        SpecValue::Principal(b) => b.len() <= 29,
        SpecValue::Service(b) => b.len() <= 29,
        SpecValue::Func(b, _) => b.len() <= 29,
        SpecValue::Nat(s) => nat_numeral(s),
        SpecValue::Int(s) => int_numeral(s),
        SpecValue::Float64(_) => false,
        SpecValue::Float32(_) => false,
        _ => true,
    }
}

pub open spec fn ready_values(s: Seq<SpecValue>) -> bool
    decreases s,
{
    if s.len() == 0 {
        true
    } else {
        ready_values(s.subrange(0, s.len() - 1)) && ready_value(s[s.len() - 1])
    }
}

pub open spec fn ready_fields(s: Seq<SpecField>) -> bool
    decreases s,
{
    if s.len() == 0 {
        true
    } else {
        ready_fields(s.subrange(0, s.len() - 1)) && ready_value(s[s.len() - 1].val)
    }
}

/// A candid field.
#[verifier::external_type_specification]
#[verifier::external_body]
pub struct ExIdlField(IDLField);

/// A candid value as a library value, for the containers; the rest goes to
/// [`scalar_of`].
#[verifier::external_body]
pub(crate) fn value_of(v: &IDLValue) -> Value {
    match v {
        IDLValue::Opt(b) => Value::Opt(Box::new(value_of(b))),
        IDLValue::Vec(items) => Value::Vec(items.iter().map(value_of).collect()),
        IDLValue::Record(fs) => Value::Record(fs.iter().map(field_of).collect()),
        IDLValue::Variant(VariantValue(f, i)) => Value::Variant(Box::new(field_of(f)), *i),
        IDLValue::None => Value::OptNone,
        IDLValue::Reserved => Value::Reserved,
        _ => scalar_of(v),
    }
}

/// A candid field as a library field: its label, variant for variant, and its value.
#[verifier::external_body]
fn field_of(f: &IDLField) -> Field {
    let id = match &f.id {
        candid::types::Label::Id(n) => Label::Id(*n),
        candid::types::Label::Named(s) => Label::Named(s.clone()),
        candid::types::Label::Unnamed(n) => Label::Unnamed(*n),
    };
    Field { id, val: value_of(&f.val) }
}

/// A candid value that holds no other value, as a library value; numbers go
/// to [`number_of`].
#[verifier::external_body]
fn scalar_of(v: &IDLValue) -> Value {
    match v {
        IDLValue::Bool(b) => Value::Bool(*b),
        IDLValue::Null => Value::Null,
        IDLValue::Text(s) => Value::Text(s.clone()),
        IDLValue::Number(s) => Value::Number(s.clone()),
        IDLValue::Blob(b) => Value::Blob(b.clone()),
        IDLValue::Principal(p) => Value::Principal(p.as_slice().to_vec()),
        IDLValue::Service(p) => Value::Service(p.as_slice().to_vec()),
        IDLValue::Func(p, m) => Value::Func(p.as_slice().to_vec(), m.clone()),
        _ => number_of(v),
    }
}

/// A candid number as a library value (the other variants are handed to
/// [`value_of`] and [`scalar_of`], never here).
#[verifier::external_body]
fn number_of(v: &IDLValue) -> Value {
    match v {
        IDLValue::Int(i) => Value::Int(i.0.to_str_radix(10)),
        IDLValue::Nat(n) => Value::Nat(n.0.to_str_radix(10)),
        IDLValue::Float64(x) => Value::Float64(x.to_string()),
        IDLValue::Float32(x) => Value::Float32(x.to_string()),
        _ => sized_of(v),
    }
}

/// A candid fixed-size integer as a library value (the other variants are
/// handed to [`value_of`], [`scalar_of`] and [`number_of`], never here).
#[verifier::external_body]
fn sized_of(v: &IDLValue) -> Value {
    match v {
        IDLValue::Nat8(x) => Value::Nat8(*x),
        IDLValue::Nat16(x) => Value::Nat16(*x),
        IDLValue::Nat32(x) => Value::Nat32(*x),
        IDLValue::Nat64(x) => Value::Nat64(*x),
        IDLValue::Int8(x) => Value::Int8(*x),
        IDLValue::Int16(x) => Value::Int16(*x),
        IDLValue::Int32(x) => Value::Int32(*x),
        IDLValue::Int64(x) => Value::Int64(*x),
        _ => Value::Reserved,
    }
}

/// candid's argument list as the library's.
#[verifier::external_body]
pub(crate) fn args_of(a: &IDLArgs) -> Args {
    Args { args: a.args.iter().map(value_of).collect() }
}

/// A library value as a candid value, for the containers; the rest goes to
/// [`idl_scalar`].  Fails where candid cannot hold the value.
#[verifier::external_body]
fn idl_value(v: &Value) -> Result<IDLValue, String> {
    Ok(match v {
        Value::Opt(b) => IDLValue::Opt(Box::new(idl_value(b)?)),
        Value::Vec(items) => IDLValue::Vec(items.iter().map(idl_value).collect::<Result<_, _>>()?),
        Value::Record(fs) => IDLValue::Record(fs.iter().map(idl_field).collect::<Result<_, _>>()?),
        Value::Variant(f, i) => IDLValue::Variant(VariantValue(Box::new(idl_field(f)?), *i)),
        Value::OptNone => IDLValue::None,
        Value::Reserved => IDLValue::Reserved,
        _ => idl_scalar(v)?,
    })
}

/// A library field as a candid field: its label, variant for variant, and its value.
#[verifier::external_body]
fn idl_field(f: &Field) -> Result<IDLField, String> {
    let id = match &f.id {
        Label::Id(n) => candid::types::Label::Id(*n),
        Label::Named(s) => candid::types::Label::Named(s.clone()),
        Label::Unnamed(n) => candid::types::Label::Unnamed(*n),
    };
    Ok(IDLField { id, val: idl_value(&f.val)? })
}

/// A library value that holds no other value as a candid value; numbers go
/// to [`idl_number`].
#[verifier::external_body]
fn idl_scalar(v: &Value) -> Result<IDLValue, String> {
    let principal = |b: &Vec<u8>| candid::Principal::try_from_slice(b).map_err(|e| e.to_string());
    Ok(match v {
        Value::Bool(b) => IDLValue::Bool(*b),
        Value::Null => IDLValue::Null,
        Value::Text(s) => IDLValue::Text(s.clone()),
        Value::Number(s) => IDLValue::Number(s.clone()),
        Value::Blob(b) => IDLValue::Blob(b.clone()),
        Value::Principal(b) => IDLValue::Principal(principal(b)?),
        Value::Service(b) => IDLValue::Service(principal(b)?),
        Value::Func(b, m) => IDLValue::Func(principal(b)?, m.clone()),
        _ => idl_number(v)?,
    })
}

/// A library number as a candid number (the other variants are handed to
/// [`idl_value`] and [`idl_scalar`], never here).
#[verifier::external_body]
fn idl_number(v: &Value) -> Result<IDLValue, String> {
    Ok(match v {
        Value::Int(s) => IDLValue::Int(s.parse().map_err(|_| format!("not an int: {s}"))?),
        Value::Nat(s) => IDLValue::Nat(s.parse().map_err(|_| format!("not a nat: {s}"))?),
        Value::Float64(s) => IDLValue::Float64(s.parse().map_err(|_| format!("not a float: {s}"))?),
        Value::Float32(s) => IDLValue::Float32(s.parse().map_err(|_| format!("not a float: {s}"))?),
        _ => idl_sized(v),
    })
}

/// A library fixed-size integer as a candid value (the other variants are
/// handed to [`idl_value`], [`idl_scalar`] and [`idl_number`], never here).
#[verifier::external_body]
fn idl_sized(v: &Value) -> IDLValue {
    match v {
        Value::Nat8(x) => IDLValue::Nat8(*x),
        Value::Nat16(x) => IDLValue::Nat16(*x),
        Value::Nat32(x) => IDLValue::Nat32(*x),
        Value::Nat64(x) => IDLValue::Nat64(*x),
        Value::Int8(x) => IDLValue::Int8(*x),
        Value::Int16(x) => IDLValue::Int16(*x),
        Value::Int32(x) => IDLValue::Int32(*x),
        Value::Int64(x) => IDLValue::Int64(*x),
        _ => IDLValue::Reserved,
    }
}

/// The library's argument list as candid's; fails where candid cannot hold a value.
#[verifier::external_body]
pub(crate) fn idl_args(a: &Args) -> Result<IDLArgs, String> {
    Ok(IDLArgs { args: a.args.iter().map(idl_value).collect::<Result<_, _>>()? })
}

} // verus!
