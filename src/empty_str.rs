//! Zero values: what a field takes when its key is absent and it falls back
//! on the zero value of its shape.
use vstd::prelude::*;
use crate::de::{
    absent_list, absent_spec, agrees, agrees_field, collect, lemma_collect_all, lemma_collect_empty,
    lemma_collect_err, lemma_collect_step, zero_list, zero_spec,
};
use crate::error::{Error, ErrorKind, Fail};
use crate::shape::{Fallback, Field, Shape, Val, Value};

verus! {

/// A source that holds nothing: decoding from it gives the zero value of a
/// shape (`false`, `0`, the empty text, an absent option, empty
/// collections, and for a record each field's fallback).
pub struct EmptyStr;

impl EmptyStr {
    /// The zero value of `shape`; a tagged union has none.
    pub fn decode(&self, shape: &Shape) -> (r: Result<Value, Error>)
        ensures
            agrees(r, zero_spec(*shape)),
    {
        zero_value(shape)
    }
}

/// The zero value of `shape`.
pub fn zero_value(shape: &Shape) -> (r: Result<Value, Error>)
    ensures
        agrees(r, zero_spec(*shape)),
    decreases shape,
{
    match shape {
        Shape::Bool => Ok(Value::Bool(false)),
        Shape::I8 | Shape::I16 | Shape::I32 | Shape::I64 | Shape::U8 | Shape::U16 | Shape::U32
        | Shape::U64 => Ok(Value::Int(0)),
        Shape::F32 | Shape::F64 => {
            proof {
                reveal_strlit("0");
                assert("0"@ =~= seq!['0']);
            }
            Ok(Value::Float(String::from_str("0")))
        },
        Shape::Char => Ok(Value::Char('\0')),
        Shape::Str | Shape::Any => Ok(Value::Str(String::new())),
        Shape::Bytes => {
            let b: Vec<u8> = Vec::new();
            assert(b@ =~= Seq::<u8>::empty());
            Ok(Value::Bytes(b))
        },
        Shape::Optional(_) => Ok(Value::Null),
        Shape::Newtype(inner) => match zero_value(inner) {
            Ok(v) => Ok(Value::Newtype(Box::new(v))),
            Err(e) => Err(e),
        },
        Shape::Sequence(_) => {
            let r = Value::List(Vec::new());
            assert(r@->List_0 =~= Seq::<Val>::empty());
            Ok(r)
        },
        Shape::Keyed(_, _) => {
            let r = Value::Entries(Vec::new());
            assert(r@->Entries_0 =~= Seq::<(Val, Val)>::empty());
            Ok(r)
        },
        Shape::Tuple(shapes) => {
            let ghost rs = zero_list(shapes@);
            let mut out: Vec<Value> = Vec::new();
            let ghost mut vs: Seq<Val> = Seq::empty();
            let mut i: usize = 0;
            proof {
                lemma_collect_empty(rs);
            }
            while i < shapes.len()
                invariant
                    0 <= i <= shapes@.len(),
                    *shape == Shape::Tuple(*shapes),
                    rs == zero_list(shapes@),
                    rs.len() == shapes@.len(),
                    forall|j: int| 0 <= j < shapes@.len() ==> rs[j] == zero_spec(#[trigger] shapes@[j]),
                    collect(rs.take(i as int)) == Ok::<Seq<Val>, Fail>(vs),
                    out@.len() == i,
                    vs.len() == i,
                    forall|j: int| 0 <= j < i ==> (#[trigger] out@[j])@ == vs[j],
                decreases shapes@.len() - i,
            {
                proof {
                    assert(decreases_to!(*shape => shape->Tuple_0));
                    assert(decreases_to!(*shapes => shapes[i as int]));
                }
                match zero_value(&shapes[i]) {
                    Ok(v) => {
                        proof {
                            lemma_collect_step(rs, i as int, vs, v@);
                            vs = vs.push(v@);
                        }
                        out.push(v);
                    },
                    Err(e) => {
                        proof {
                            lemma_collect_err(rs, i as int, e@);
                        }
                        return Err(e);
                    },
                }
                i += 1;
            }
            proof {
                lemma_collect_all(rs);
            }
            let r = Value::List(out);
            assert(r@->List_0 =~= vs);
            Ok(r)
        },
        Shape::Record(fields) => {
            let ghost rs = absent_list(fields@);
            let mut out: Vec<(String, Value)> = Vec::new();
            let ghost mut vs: Seq<(Seq<char>, Val)> = Seq::empty();
            let mut i: usize = 0;
            proof {
                lemma_collect_empty(rs);
            }
            while i < fields.len()
                invariant
                    0 <= i <= fields@.len(),
                    *shape == Shape::Record(*fields),
                    rs == absent_list(fields@),
                    rs.len() == fields@.len(),
                    forall|j: int| 0 <= j < fields@.len() ==> rs[j] == absent_spec(#[trigger] fields@[j]),
                    collect(rs.take(i as int)) == Ok::<Seq<(Seq<char>, Val)>, Fail>(vs),
                    out@.len() == i,
                    vs.len() == i,
                    forall|j: int| 0 <= j < i ==> (#[trigger] out@[j]).0@ == vs[j].0 && out@[j].1@ == vs[j].1,
                decreases fields@.len() - i,
            {
                proof {
                    assert(decreases_to!(*shape => shape->Record_0));
                    assert(decreases_to!(*fields => fields[i as int]));
                }
                match absent_value(&fields[i]) {
                    Ok((n, v)) => {
                        proof {
                            lemma_collect_step(rs, i as int, vs, (n@, v@));
                            vs = vs.push((n@, v@));
                        }
                        out.push((n, v));
                    },
                    Err(e) => {
                        proof {
                            lemma_collect_err(rs, i as int, e@);
                        }
                        return Err(e);
                    },
                }
                i += 1;
            }
            proof {
                lemma_collect_all(rs);
            }
            let r = Value::Record(out);
            assert(r@->Record_0 =~= vs);
            Ok(r)
        },
        Shape::Union(_, _) => Err(Error::new(ErrorKind::MissingVariant, String::new())),
    }
}

/// What field `f` becomes when its key is not found: its given value, the
/// zero value of its shape, absent for an optional field, or a missing-field
/// error.
pub fn absent_value(f: &Field) -> (r: Result<(String, Value), Error>)
    ensures
        agrees_field(r, absent_spec(*f)),
    decreases f,
{
    match &f.fallback {
        Fallback::Given(v) => Ok((f.name.clone(), v.duplicate())),
        Fallback::Zero => match zero_value(&f.shape) {
            Ok(v) => Ok((f.name.clone(), v)),
            Err(e) => Err(e),
        },
        Fallback::Required => match &f.shape {
            Shape::Optional(_) => Ok((f.name.clone(), Value::Null)),
            _ => Err(Error::new(ErrorKind::MissingField, f.name.clone())),
        },
    }
}

} // verus!
