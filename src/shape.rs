//! Shape descriptors, which say what a decode is to produce, and the values
//! that decoding produces.
use vstd::prelude::*;

verus! {

/// How a tagged union is written.
#[derive(Clone, Copy, Debug, PartialEq, Eq, Structural)]
pub enum Tagging {
    /// The node's own scalar names the variant; the payload is that node.
    External,
    /// A field inside the payload names the variant.
    Internal,
    /// One field names the variant, another holds the payload.
    Adjacent,
    /// No tag: the first variant that decodes wins.
    Untagged,
}

/// The target structure of a decode.
#[derive(Debug)]
pub enum Shape {
    Bool,
    I8,
    I16,
    I32,
    I64,
    U8,
    U16,
    U32,
    U64,
    /// A 32-bit float, handed over as its text.
    F32,
    /// A 64-bit float, handed over as its text.
    F64,
    Char,
    Str,
    Bytes,
    /// Whatever is there, taken as text.
    Any,
    Optional(Box<Shape>),
    Newtype(Box<Shape>),
    /// A comma-separated list; empty elements are dropped.
    Sequence(Box<Shape>),
    /// A comma-separated tuple, one shape per position.
    Tuple(Vec<Shape>),
    /// A keyed map: the shape of the keys, then of the values.
    Keyed(Box<Shape>, Box<Shape>),
    /// A record with named fields, in declaration order.
    Record(Vec<Field>),
    /// A tagged union.
    Union(Tagging, Vec<Variant>),
}

/// What a record field takes when its key is not found.
#[derive(Debug)]
pub enum Fallback {
    /// Nothing: an optional field becomes absent, any other field fails.
    Required,
    /// The zero value of the field's shape.
    Zero,
    /// The given value.
    Given(Value),
}

/// A named field of a record.
#[derive(Debug)]
pub struct Field {
    pub name: String,
    pub shape: Shape,
    pub fallback: Fallback,
}

/// The payload that a variant carries.
#[derive(Debug)]
pub enum VariantForm {
    Unit,
    Newtype(Shape),
    /// A tuple payload of the given arity.
    Tuple(usize),
    Record(Vec<Field>),
}

/// A named variant of a tagged union.
#[derive(Debug)]
pub struct Variant {
    pub name: String,
    pub form: VariantForm,
}

/// A decoded value.
#[derive(Debug)]
pub enum Value {
    Bool(bool),
    /// Any integer kind.
    Int(i128),
    /// A float, as the text it was written in.
    Float(String),
    Char(char),
    Str(String),
    Bytes(Vec<u8>),
    Unit,
    /// An optional value that is absent.
    Null,
    /// An optional value that is present.
    Present(Box<Value>),
    Newtype(Box<Value>),
    List(Vec<Value>),
    /// Map entries, in ascending order of key text.
    Entries(Vec<(Value, Value)>),
    /// Record fields with their names, in declaration order.
    Record(Vec<(String, Value)>),
    /// A variant's declared name and its payload.
    Variant(String, Box<Value>),
}

/// The model of a decoded value.
pub enum Val {
    Bool(bool),
    Int(int),
    Float(Seq<char>),
    Char(char),
    Str(Seq<char>),
    Bytes(Seq<u8>),
    Unit,
    Null,
    Present(Box<Val>),
    Newtype(Box<Val>),
    List(Seq<Val>),
    Entries(Seq<(Val, Val)>),
    Record(Seq<(Seq<char>, Val)>),
    Variant(Seq<char>, Box<Val>),
}

impl Value {
    pub open spec fn model(&self) -> Val
        decreases self,
    {
        match self {
            Value::Bool(b) => Val::Bool(*b),
            Value::Int(i) => Val::Int(*i as int),
            Value::Float(s) => Val::Float(s@),
            Value::Char(c) => Val::Char(*c),
            Value::Str(s) => Val::Str(s@),
            Value::Bytes(b) => Val::Bytes(b@),
            Value::Unit => Val::Unit,
            Value::Null => Val::Null,
            Value::Present(v) => Val::Present(Box::new(v.model())),
            Value::Newtype(v) => Val::Newtype(Box::new(v.model())),
            Value::List(vs) => Val::List(
                Seq::new(
                    vs@.len(),
                    |i: int|
                        if 0 <= i < vs@.len() {
                            vs@[i].model()
                        } else {
                            Val::Unit
                        },
                ),
            ),
            Value::Entries(es) => Val::Entries(
                Seq::new(
                    es@.len(),
                    |i: int|
                        if 0 <= i < es@.len() {
                            (es@[i].0.model(), es@[i].1.model())
                        } else {
                            (Val::Unit, Val::Unit)
                        },
                ),
            ),
            Value::Record(fs) => Val::Record(
                Seq::new(
                    fs@.len(),
                    |i: int|
                        if 0 <= i < fs@.len() {
                            (fs@[i].0@, fs@[i].1.model())
                        } else {
                            (Seq::empty(), Val::Unit)
                        },
                ),
            ),
            Value::Variant(n, v) => Val::Variant(n@, Box::new(v.model())),
        }
    }
}

impl View for Value {
    type V = Val;

    open spec fn view(&self) -> Val {
        self.model()
    }
}

} // verus!
