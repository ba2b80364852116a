//! Candid values as plain data: what queries read, build and hand back.
use vstd::prelude::*;
use crate::text::{decimal, push_decimal};

verus! {

broadcast use vstd::std_specs::vec::group_vec_axioms;

/// The name of a record field or variant tag.
#[derive(Debug, PartialEq, Eq)]
pub enum Label {
    /// A numeric label, as binary Candid carries it.
    Id(u32),
    /// A textual label.
    Named(String),
    /// A positional label of a tuple-like record.
    Unnamed(u32),
}

/// A field of a record, or the chosen tag of a variant, with its value.
#[derive(Debug, PartialEq, Eq)]
pub struct Field {
    pub id: Label,
    pub val: Value,
}

/// A Candid value.  Big integers are kept as their decimal numerals, floats
/// as the shortest decimal text that reads back to them, principals by
/// their bytes.
#[derive(Debug, PartialEq, Eq)]
pub enum Value {
    Bool(bool),
    Null,
    Text(String),
    Number(String),
    Float64(String),
    Opt(Box<Value>),
    Vec(Vec<Value>),
    Record(Vec<Field>),
    Variant(Box<Field>, u64),
    Blob(Vec<u8>),
    Principal(Vec<u8>),
    Service(Vec<u8>),
    Func(Vec<u8>, String),
    OptNone,
    Int(String),
    Nat(String),
    Nat8(u8),
    Nat16(u16),
    Nat32(u32),
    Nat64(u64),
    Int8(i8),
    Int16(i16),
    Int32(i32),
    Int64(i64),
    Float32(String),
    Reserved,
}

/// The values of one Candid argument list.
#[derive(Debug, PartialEq, Eq)]
pub struct Args {
    pub args: Vec<Value>,
}

/// The mathematical model of a [`Label`].
pub enum SpecLabel {
    Id(u32),
    Named(Seq<char>),
    Unnamed(u32),
}

/// The mathematical model of a [`Field`].
pub struct SpecField {
    pub id: SpecLabel,
    pub val: SpecValue,
}

/// The mathematical model of a [`Value`].
pub enum SpecValue {
    Bool(bool),
    Null,
    Text(Seq<char>),
    Number(Seq<char>),
    Float64(Seq<char>),
    Opt(Box<SpecValue>),
    Vec(Seq<SpecValue>),
    Record(Seq<SpecField>),
    Variant(Box<SpecField>, u64),
    Blob(Seq<u8>),
    Principal(Seq<u8>),
    Service(Seq<u8>),
    Func(Seq<u8>, Seq<char>),
    OptNone,
    Int(Seq<char>),
    Nat(Seq<char>),
    Nat8(u8),
    Nat16(u16),
    Nat32(u32),
    Nat64(u64),
    Int8(i8),
    Int16(i16),
    Int32(i32),
    Int64(i64),
    Float32(Seq<char>),
    Reserved,
}

pub open spec fn label_view(l: Label) -> SpecLabel {
    match l {
        Label::Id(n) => SpecLabel::Id(n),
        Label::Named(s) => SpecLabel::Named(s@),
        Label::Unnamed(n) => SpecLabel::Unnamed(n),
    }
}

pub open spec fn value_view(v: Value) -> SpecValue
    decreases v,
{
    match v {
        Value::Bool(b) => SpecValue::Bool(b),
        Value::Null => SpecValue::Null,
        Value::Text(s) => SpecValue::Text(s@),
        Value::Number(s) => SpecValue::Number(s@),
        Value::Float64(x) => SpecValue::Float64(x@),
        Value::Opt(b) => SpecValue::Opt(Box::new(value_view(*b))),
        Value::Vec(items) => SpecValue::Vec(values_view(items@)),
        Value::Record(fields) => SpecValue::Record(fields_view(fields@)),
        Value::Variant(f, i) => SpecValue::Variant(
            Box::new(SpecField { id: label_view(f.id), val: value_view(f.val) }),
            i,
        ),
        Value::Blob(b) => SpecValue::Blob(b@),
        Value::Principal(b) => SpecValue::Principal(b@),
        Value::Service(b) => SpecValue::Service(b@),
        Value::Func(b, m) => SpecValue::Func(b@, m@),
        Value::OptNone => SpecValue::OptNone,
        Value::Int(b) => SpecValue::Int(b@),
        Value::Nat(b) => SpecValue::Nat(b@),
        Value::Nat8(x) => SpecValue::Nat8(x),
        Value::Nat16(x) => SpecValue::Nat16(x),
        Value::Nat32(x) => SpecValue::Nat32(x),
        Value::Nat64(x) => SpecValue::Nat64(x),
        Value::Int8(x) => SpecValue::Int8(x),
        Value::Int16(x) => SpecValue::Int16(x),
        Value::Int32(x) => SpecValue::Int32(x),
        Value::Int64(x) => SpecValue::Int64(x),
        Value::Float32(x) => SpecValue::Float32(x@),
        Value::Reserved => SpecValue::Reserved,
    }
}

pub open spec fn values_view(s: Seq<Value>) -> Seq<SpecValue>
    decreases s,
{
    if s.len() == 0 {
        Seq::empty()
    } else {
        values_view(s.subrange(0, s.len() - 1)).push(value_view(s[s.len() - 1]))
    }
}

pub open spec fn fields_view(s: Seq<Field>) -> Seq<SpecField>
    decreases s,
{
    if s.len() == 0 {
        Seq::empty()
    } else {
        fields_view(s.subrange(0, s.len() - 1)).push(
            SpecField { id: label_view(s[s.len() - 1].id), val: value_view(s[s.len() - 1].val) },
        )
    }
}

impl View for Label {
    type V = SpecLabel;

    open spec fn view(&self) -> SpecLabel {
        label_view(*self)
    }
}

impl View for Value {
    type V = SpecValue;

    open spec fn view(&self) -> SpecValue {
        value_view(*self)
    }
}

impl View for Field {
    type V = SpecField;

    open spec fn view(&self) -> SpecField {
        SpecField { id: label_view(self.id), val: value_view(self.val) }
    }
}

impl View for Args {
    type V = Seq<SpecValue>;

    open spec fn view(&self) -> Seq<SpecValue> {
        values_view(self.args@)
    }
}


pub proof fn lemma_values_view_push(s: Seq<Value>, v: Value)
    ensures
        values_view(s.push(v)) == values_view(s).push(value_view(v)),
{
    assert(s.push(v).subrange(0, s.len() as int) =~= s);
}

pub proof fn lemma_values_view_index(s: Seq<Value>)
    ensures
        values_view(s).len() == s.len(),
        forall|i: int| 0 <= i < s.len() ==> #[trigger] values_view(s)[i] == value_view(s[i]),
    decreases s.len(),
{
    if s.len() > 0 {
        let t = s.subrange(0, s.len() - 1);
        lemma_values_view_index(t);
        assert forall|i: int| 0 <= i < s.len() implies #[trigger] values_view(s)[i] == value_view(s[i]) by {
            if i < s.len() - 1 {
                assert(s[i] == t[i]);
            }
        }
    }
}

pub proof fn lemma_fields_view_push(s: Seq<Field>, f: Field)
    ensures
        fields_view(s.push(f)) == fields_view(s).push(f@),
{
    assert(s.push(f).subrange(0, s.len() as int) =~= s);
}

pub proof fn lemma_fields_view_index(s: Seq<Field>)
    ensures
        fields_view(s).len() == s.len(),
        forall|i: int| 0 <= i < s.len() ==> #[trigger] fields_view(s)[i] == s[i]@,
    decreases s.len(),
{
    if s.len() > 0 {
        let t = s.subrange(0, s.len() - 1);
        lemma_fields_view_index(t);
        assert forall|i: int| 0 <= i < s.len() implies #[trigger] fields_view(s)[i] == s[i]@ by {
            if i < s.len() - 1 {
                assert(s[i] == t[i]);
            }
        }
    }
}

/// A copy of `b`.
pub fn copy_bytes(b: &Vec<u8>) -> (r: Vec<u8>)
    ensures
        r@ == b@,
{
    let mut out: Vec<u8> = Vec::new();
    let mut i: usize = 0;
    while i < b.len()
        invariant
            i <= b.len(),
            out@ == b@.subrange(0, i as int),
        decreases b.len() - i,
    {
        out.push(b[i]);
        i = i + 1;
        assert(out@ =~= b@.subrange(0, i as int));
    }
    assert(out@ =~= b@);
    out
}

/// A copy of the label `l`.
pub fn copy_label(l: &Label) -> (r: Label)
    ensures
        r@ == l@,
{
    match l {
        Label::Id(n) => Label::Id(*n),
        Label::Named(s) => Label::Named(s.clone()),
        Label::Unnamed(n) => Label::Unnamed(*n),
    }
}

/// A copy of the field `f`.
pub fn copy_field(f: &Field) -> (r: Field)
    ensures
        r@ == f@,
    decreases f,
{
    Field { id: copy_label(&f.id), val: copy_value(&f.val) }
}

/// A copy of the values `vs[from..to]`.
pub fn copy_values(vs: &Vec<Value>, from: usize, to: usize) -> (r: Vec<Value>)
    requires
        from <= to <= vs@.len(),
    ensures
        values_view(r@) == values_view(vs@).subrange(from as int, to as int),
    decreases vs, 0int,
{
    let mut out: Vec<Value> = Vec::new();
    let mut i = from;
    proof {
        lemma_values_view_index(vs@);
    }
    while i < to
        invariant
            from <= i <= to <= vs@.len(),
            values_view(out@) == values_view(vs@).subrange(from as int, i as int),
            values_view(vs@).len() == vs@.len(),
            forall|k: int| 0 <= k < vs@.len() ==> #[trigger] values_view(vs@)[k] == value_view(vs@[k]),
        decreases to - i,
    {
        let v = copy_value(&vs[i]);
        proof {
            lemma_values_view_push(out@, v);
        }
        out.push(v);
        i = i + 1;
        assert(values_view(out@) =~= values_view(vs@).subrange(from as int, i as int));
    }
    out
}

/// A copy of the fields `fs`.
pub fn copy_fields(fs: &Vec<Field>) -> (r: Vec<Field>)
    ensures
        fields_view(r@) == fields_view(fs@),
    decreases fs, 0int,
{
    let mut out: Vec<Field> = Vec::new();
    let mut i: usize = 0;
    proof {
        lemma_fields_view_index(fs@);
    }
    while i < fs.len()
        invariant
            i <= fs@.len(),
            fields_view(out@) == fields_view(fs@).subrange(0, i as int),
            fields_view(fs@).len() == fs@.len(),
            forall|k: int| 0 <= k < fs@.len() ==> #[trigger] fields_view(fs@)[k] == fs@[k]@,
        decreases fs.len() - i,
    {
        let f = copy_field(&fs[i]);
        proof {
            lemma_fields_view_push(out@, f);
        }
        out.push(f);
        i = i + 1;
        assert(fields_view(out@) =~= fields_view(fs@).subrange(0, i as int));
    }
    assert(fields_view(fs@).subrange(0, fs@.len() as int) =~= fields_view(fs@));
    out
}

/// A copy of the value `v`.
pub fn copy_value(v: &Value) -> (r: Value)
    ensures
        r@ == v@,
    decreases v,
{
    match v {
        Value::Bool(b) => Value::Bool(*b),
        Value::Null => Value::Null,
        Value::Text(s) => Value::Text(s.clone()),
        Value::Number(s) => Value::Number(s.clone()),
        Value::Float64(x) => Value::Float64(x.clone()),
        Value::Opt(b) => Value::Opt(Box::new(copy_value(b))),
        Value::Vec(items) => {
            let r = copy_values(items, 0, items.len());
            proof {
                lemma_values_view_index(items@);
                assert(values_view(items@).subrange(0, items@.len() as int) =~= values_view(items@));
            }
            Value::Vec(r)
        },
        Value::Record(fs) => Value::Record(copy_fields(fs)),
        Value::Variant(f, i) => Value::Variant(Box::new(copy_field(f)), *i),
        Value::Blob(b) => Value::Blob(copy_bytes(b)),
        Value::Principal(b) => Value::Principal(copy_bytes(b)),
        Value::Service(b) => Value::Service(copy_bytes(b)),
        Value::Func(b, m) => Value::Func(copy_bytes(b), m.clone()),
        Value::OptNone => Value::OptNone,
        Value::Int(b) => Value::Int(b.clone()),
        Value::Nat(b) => Value::Nat(b.clone()),
        Value::Nat8(x) => Value::Nat8(*x),
        Value::Nat16(x) => Value::Nat16(*x),
        Value::Nat32(x) => Value::Nat32(*x),
        Value::Nat64(x) => Value::Nat64(*x),
        Value::Int8(x) => Value::Int8(*x),
        Value::Int16(x) => Value::Int16(*x),
        Value::Int32(x) => Value::Int32(*x),
        Value::Int64(x) => Value::Int64(*x),
        Value::Float32(x) => Value::Float32(x.clone()),
        Value::Reserved => Value::Reserved,
    }
}

impl Args {
    /// A copy of these arguments.
    pub fn copy(&self) -> (r: Args)
        ensures
            r@ == self@,
    {
        let v = copy_values(&self.args, 0, self.args.len());
        proof {
            lemma_values_view_index(self.args@);
            assert(values_view(self.args@).subrange(0, self.args@.len() as int) =~= values_view(self.args@));
        }
        Args { args: v }
    }

    /// The argument list holding the single value `v`.
    pub fn single(v: Value) -> (r: Args)
        ensures
            r@ == seq![v@],
    {
        let mut args: Vec<Value> = Vec::new();
        proof {
            lemma_values_view_push(args@, v);
        }
        args.push(v);
        assert(values_view(args@) =~= seq![v@]);
        Args { args }
    }
}

/// The name of the kind of `v`, as error messages give it.
pub open spec fn kind_name_of(v: SpecValue) -> Seq<char> {
    match v {
        SpecValue::Bool(_) => "bool"@,
        SpecValue::Null | SpecValue::OptNone => "null"@,
        SpecValue::Text(_) => "text"@,
        SpecValue::Number(_) => "number"@,
        SpecValue::Float64(_) | SpecValue::Float32(_) => "float"@,
        SpecValue::Opt(_) => "opt"@,
        SpecValue::Vec(_) => "vec"@,
        SpecValue::Record(_) => "record"@,
        SpecValue::Variant(_, _) => "variant"@,
        SpecValue::Blob(_) => "blob"@,
        SpecValue::Principal(_) => "principal"@,
        SpecValue::Service(_) => "service"@,
        SpecValue::Func(_, _) => "func"@,
        SpecValue::Int(_) => "int"@,
        SpecValue::Nat(_) => "nat"@,
        SpecValue::Nat8(_) => "nat8"@,
        SpecValue::Nat16(_) => "nat16"@,
        SpecValue::Nat32(_) => "nat32"@,
        SpecValue::Nat64(_) => "nat64"@,
        SpecValue::Int8(_) => "int8"@,
        SpecValue::Int16(_) => "int16"@,
        SpecValue::Int32(_) => "int32"@,
        SpecValue::Int64(_) => "int64"@,
        SpecValue::Reserved => "reserved"@,
    }
}

/// The name of the kind of `v`, as error messages give it.
pub fn kind_name(v: &Value) -> (r: &'static str)
    ensures
        r@ == kind_name_of(v@),
{
    match v {
        Value::Bool(_) => "bool",
        Value::Null | Value::OptNone => "null",
        Value::Text(_) => "text",
        Value::Number(_) => "number",
        Value::Float64(_) | Value::Float32(_) => "float",
        Value::Opt(_) => "opt",
        Value::Vec(_) => "vec",
        Value::Record(_) => "record",
        Value::Variant(_, _) => "variant",
        Value::Blob(_) => "blob",
        Value::Principal(_) => "principal",
        Value::Service(_) => "service",
        Value::Func(_, _) => "func",
        Value::Int(_) => "int",
        Value::Nat(_) => "nat",
        Value::Nat8(_) => "nat8",
        Value::Nat16(_) => "nat16",
        Value::Nat32(_) => "nat32",
        Value::Nat64(_) => "nat64",
        Value::Int8(_) => "int8",
        Value::Int16(_) => "int16",
        Value::Int32(_) => "int32",
        Value::Int64(_) => "int64",
        Value::Reserved => "reserved",
    }
}

/// How a label is written in messages: its name, or its number in decimal.
pub open spec fn label_text(l: SpecLabel) -> Seq<char> {
    match l {
        SpecLabel::Named(n) => n,
        SpecLabel::Id(n) => decimal(n as nat),
        SpecLabel::Unnamed(n) => decimal(n as nat),
    }
}

/// How a label is written in messages: its name, or its number in decimal.
pub fn label_display(l: &Label) -> (r: String)
    ensures
        r@ == label_text(l@),
{
    match l {
        Label::Named(n) => n.clone(),
        Label::Id(n) | Label::Unnamed(n) => {
            let mut s = String::new();
            push_decimal(&mut s, *n as u64);
            assert(s@ =~= decimal(*n as nat));
            s
        },
    }
}

/// The hash that Candid gives a textual label: over the label's UTF-8 bytes,
/// `h = h * 223 + byte`, modulo 2^32, from `h = 0`.
pub open spec fn idl_hash_of(bytes: Seq<u8>) -> u32
    decreases bytes.len(),
{
    if bytes.len() == 0 {
        0
    } else {
        ((idl_hash_of(bytes.drop_last()) as int * 223 + bytes.last() as int) % 0x1_0000_0000) as u32
    }
}

/// candid's `idl_hash`: the hash of a textual label, over its UTF-8 bytes.
#[verifier::external_body]
pub(crate) fn idl_hash(name: &str) -> (h: u32)
    ensures
        h == idl_hash_of(vstd::utf8::encode_utf8(name@)),
{
    candid::idl_hash(name)
}

/// Whether the label `l` names `name`: by its text, or by the hash of `name`.
pub open spec fn label_matches(l: SpecLabel, name: Seq<char>) -> bool {
    match l {
        SpecLabel::Named(n) => n == name,
        SpecLabel::Id(h) => h == idl_hash_of(vstd::utf8::encode_utf8(name)),
        SpecLabel::Unnamed(h) => h == idl_hash_of(vstd::utf8::encode_utf8(name)),
    }
}

/// Whether the label `l` names `name` (whose hash is `hash`).
pub fn label_is(l: &Label, name: &String, hash: u32) -> (r: bool)
    requires
        hash == idl_hash_of(vstd::utf8::encode_utf8(name@)),
    ensures
        r == label_matches(l@, name@),
{
    match l {
        Label::Named(n) => *n == *name,
        Label::Id(h) | Label::Unnamed(h) => *h == hash,
    }
}
} // verus!
