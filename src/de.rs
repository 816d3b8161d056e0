//! Shape-directed decoding of a namespace tree.
use vstd::prelude::*;
use vstd::utf8::encode_utf8;
use crate::error::{Error, ErrorKind, Fail};
use crate::shape::{Fallback, Field, Shape, Tagging, Val, Value, Variant, VariantForm};
use crate::empty_str::absent_value;
use crate::text::{
    bool_of, char_of, compare_text, eq_ignore_ascii_case, lemma_lt_asymmetric, lemma_lt_irreflexive,
    lower_of, parse_bool, parse_char, parse_integer, parse_integer_spec, seq_lt, split_on, split_text,
    text_eq_ignore_ascii_case, texts, trim, trim_text,
};
use crate::value::{
    ascending, build, build_with_prefix, flatten_set, law_case_insensitive, leaf, pairs_view, tree_get,
    Node, Tree,
};

verus! {

pub open spec fn fail(kind: ErrorKind, detail: Seq<char>) -> Fail {
    Fail { kind, detail }
}

/// `r` is the executable form of the result `m`.
pub open spec fn agrees(r: Result<Value, Error>, m: Result<Val, Fail>) -> bool {
    match r {
        Ok(v) => m == Ok::<Val, Fail>(v@),
        Err(e) => m == Err::<Val, Fail>(e@),
    }
}

/// `r` is the executable form of the field result `m`.
pub open spec fn agrees_field(r: Result<(String, Value), Error>, m: Result<(Seq<char>, Val), Fail>) -> bool {
    match r {
        Ok((n, v)) => m == Ok::<(Seq<char>, Val), Fail>((n@, v@)),
        Err(e) => m == Err::<(Seq<char>, Val), Fail>(e@),
    }
}

/// The values of `rs` where all are `Ok`; otherwise the first error.
pub open spec fn collect<T>(rs: Seq<Result<T, Fail>>) -> Result<Seq<T>, Fail>
    decreases rs.len(),
{
    if rs.len() == 0 {
        Ok(Seq::empty())
    } else {
        match collect(rs.drop_last()) {
            Err(e) => Err(e),
            Ok(vs) => match rs.last() {
                Ok(v) => Ok(vs.push(v)),
                Err(e) => Err(e),
            },
        }
    }
}

/// An integer scalar of the range `lo..=hi`.
pub open spec fn int_result(text: Seq<char>, signed: bool, lo: int, hi: int) -> Result<Val, Fail> {
    match parse_integer_spec(text, signed, lo, hi) {
        Some(v) => Ok(Val::Int(v)),
        None => Err(fail(ErrorKind::Parse, text)),
    }
}

/// `ss` without its empty texts.
pub open spec fn drop_empty(ss: Seq<Seq<char>>) -> Seq<Seq<char>>
    decreases ss.len(),
{
    if ss.len() == 0 {
        Seq::empty()
    } else if ss.last().len() == 0 {
        drop_empty(ss.drop_last())
    } else {
        drop_empty(ss.drop_last()).push(ss.last())
    }
}

/// The elements of a tuple's text: split at commas and trimmed.
pub open spec fn tuple_items(text: Seq<char>) -> Seq<Seq<char>> {
    split_on(text, ',').map_values(|x: Seq<char>| trim(x))
}

/// The elements of a sequence's text: split at commas, trimmed, and the
/// empty ones dropped.
pub open spec fn sequence_items(text: Seq<char>) -> Seq<Seq<char>> {
    drop_empty(tuple_items(text))
}

/// The candidate keys of a keyed map at `t`, in ascending order.
pub open spec fn map_keys(t: Tree) -> Seq<Seq<char>> {
    choose|ks: Seq<Seq<char>>| ascending(ks) && ks.to_set() == flatten_set(t, Seq::empty())
}

pub open spec fn is_variant_at(vs: Seq<Variant>, text: Seq<char>, i: int) -> bool {
    &&& 0 <= i < vs.len()
    &&& eq_ignore_ascii_case(text, vs[i].name@)
    &&& forall|j: int| 0 <= j < i ==> !eq_ignore_ascii_case(text, #[trigger] vs[j].name@)
}

/// The first variant whose name equals `text` up to ASCII case, or -1.
pub open spec fn variant_index(vs: Seq<Variant>, text: Seq<char>) -> int {
    if exists|i: int| is_variant_at(vs, text, i) {
        choose|i: int| is_variant_at(vs, text, i)
    } else {
        -1
    }
}

/// A map key decoded as a union: the declared name of the unit variant it
/// names.
pub open spec fn key_variant_spec(k: Seq<char>, vs: Seq<Variant>) -> Result<Val, Fail> {
    let i = variant_index(vs, k);
    if 0 <= i < vs.len() {
        match vs[i].form {
            VariantForm::Unit => Ok(Val::Variant(vs[i].name@, Box::new(Val::Unit))),
            _ => Err(fail(ErrorKind::Unsupported, vs[i].name@)),
        }
    } else {
        Err(fail(ErrorKind::MissingVariant, k))
    }
}

/// The zero value of a shape.
pub open spec fn zero_spec(s: Shape) -> Result<Val, Fail>
    decreases s,
{
    match s {
        Shape::Bool => Ok(Val::Bool(false)),
        Shape::I8 | Shape::I16 | Shape::I32 | Shape::I64 | Shape::U8 | Shape::U16 | Shape::U32
        | Shape::U64 => Ok(Val::Int(0)),
        Shape::F32 | Shape::F64 => Ok(Val::Float(seq!['0'])),
        Shape::Char => Ok(Val::Char('\0')),
        Shape::Str | Shape::Any => Ok(Val::Str(Seq::empty())),
        Shape::Bytes => Ok(Val::Bytes(Seq::empty())),
        Shape::Optional(_) => Ok(Val::Null),
        Shape::Newtype(inner) => match zero_spec(*inner) {
            Ok(v) => Ok(Val::Newtype(Box::new(v))),
            Err(e) => Err(e),
        },
        Shape::Sequence(_) => Ok(Val::List(Seq::empty())),
        Shape::Tuple(shapes) => match collect(zero_list(shapes@)) {
            Ok(vs) => Ok(Val::List(vs)),
            Err(e) => Err(e),
        },
        Shape::Keyed(_, _) => Ok(Val::Entries(Seq::empty())),
        Shape::Record(fields) => match collect(absent_list(fields@)) {
            Ok(vs) => Ok(Val::Record(vs)),
            Err(e) => Err(e),
        },
        Shape::Union(_, _) => Err(fail(ErrorKind::MissingVariant, Seq::empty())),
    }
}

/// The zero values of `shapes`, one per position.
pub open spec fn zero_list(shapes: Seq<Shape>) -> Seq<Result<Val, Fail>>
    decreases shapes,
{
    Seq::new(
        shapes.len(),
        |i: int|
            if 0 <= i < shapes.len() {
                zero_spec(shapes[i])
            } else {
                Ok(Val::Unit)
            },
    )
}

/// What each of `fields` becomes when its key is not found.
pub open spec fn absent_list(fields: Seq<Field>) -> Seq<Result<(Seq<char>, Val), Fail>>
    decreases fields,
{
    Seq::new(
        fields.len(),
        |i: int|
            if 0 <= i < fields.len() {
                absent_spec(fields[i])
            } else {
                Ok((Seq::empty(), Val::Unit))
            },
    )
}

/// What a record field becomes when its key is not found.
pub open spec fn absent_spec(f: Field) -> Result<(Seq<char>, Val), Fail>
    decreases f,
{
    match f.fallback {
        Fallback::Given(v) => Ok((f.name@, v@)),
        Fallback::Zero => match zero_spec(f.shape) {
            Ok(v) => Ok((f.name@, v)),
            Err(e) => Err(e),
        },
        Fallback::Required => if f.shape is Optional {
            Ok((f.name@, Val::Null))
        } else {
            Err(fail(ErrorKind::MissingField, f.name@))
        },
    }
}

/// The result of decoding node `t` as shape `s`.
pub open spec fn decode_spec(t: Tree, s: Shape) -> Result<Val, Fail>
    decreases s, 1int,
{
    let text = t.scalar;
    match s {
        Shape::Bool => match bool_of(text) {
            Some(b) => Ok(Val::Bool(b)),
            None => Err(fail(ErrorKind::Parse, text)),
        },
        Shape::I8 => int_result(text, true, -0x80, 0x7f),
        Shape::I16 => int_result(text, true, -0x8000, 0x7fff),
        Shape::I32 => int_result(text, true, -0x8000_0000, 0x7fff_ffff),
        Shape::I64 => int_result(text, true, -0x8000_0000_0000_0000, 0x7fff_ffff_ffff_ffff),
        Shape::U8 => int_result(text, false, 0, 0xff),
        Shape::U16 => int_result(text, false, 0, 0xffff),
        Shape::U32 => int_result(text, false, 0, 0xffff_ffff),
        Shape::U64 => int_result(text, false, 0, 0xffff_ffff_ffff_ffff),
        Shape::F32 | Shape::F64 => Ok(Val::Float(text)),
        Shape::Char => match char_of(text) {
            Some(c) => Ok(Val::Char(c)),
            None => Err(fail(ErrorKind::Parse, text)),
        },
        Shape::Str | Shape::Any => Ok(Val::Str(text)),
        Shape::Bytes => Ok(Val::Bytes(encode_utf8(text))),
        Shape::Optional(inner) => if text.len() == 0 && t.children.len() == 0 {
            Ok(Val::Null)
        } else {
            match decode_spec(t, *inner) {
                Ok(v) => Ok(Val::Present(Box::new(v))),
                Err(e) => Err(e),
            }
        },
        Shape::Newtype(inner) => match decode_spec(t, *inner) {
            Ok(v) => Ok(Val::Newtype(Box::new(v))),
            Err(e) => Err(e),
        },
        Shape::Sequence(_) => match collect(item_results(t, s)) {
            Ok(vs) => Ok(Val::List(vs)),
            Err(e) => Err(e),
        },
        Shape::Tuple(shapes) => if tuple_items(text).len() < shapes@.len() {
            Err(fail(ErrorKind::Length, text))
        } else {
            match collect(tuple_results(t, s)) {
                Ok(vs) => Ok(Val::List(vs)),
                Err(e) => Err(e),
            }
        },
        Shape::Keyed(_, _) => match collect(entry_results(t, s)) {
            Ok(es) => Ok(Val::Entries(somes(es))),
            Err(e) => Err(e),
        },
        Shape::Record(fields) => record_spec(t, fields@),
        Shape::Union(tagging, variants) => if tagging != Tagging::External {
            Err(fail(ErrorKind::Unsupported, text))
        } else {
            let i = variant_index(variants@, text);
            if 0 <= i < variants@.len() {
                let name = variants@[i].name@;
                match variants@[i].form {
                    VariantForm::Unit => if t.children.len() > 0 {
                        Err(fail(ErrorKind::NotUnitVariant, name))
                    } else {
                        Ok(Val::Variant(name, Box::new(Val::Unit)))
                    },
                    VariantForm::Newtype(inner) => match decode_spec(t, inner) {
                        Ok(v) => Ok(Val::Variant(name, Box::new(v))),
                        Err(e) => Err(e),
                    },
                    VariantForm::Tuple(_) => Err(fail(ErrorKind::Unsupported, name)),
                    VariantForm::Record(fields) => match record_spec(t, fields@) {
                        Ok(v) => Ok(Val::Variant(name, Box::new(v))),
                        Err(e) => Err(e),
                    },
                }
            } else {
                Err(fail(ErrorKind::MissingVariant, text))
            }
        },
    }
}

/// The element results of a sequence shape `s` at `t`: each non-empty
/// element decoded as a leaf.
pub open spec fn item_results(t: Tree, s: Shape) -> Seq<Result<Val, Fail>>
    decreases s, 0int,
{
    match s {
        Shape::Sequence(elem) => {
            let items = sequence_items(t.scalar);
            Seq::new(items.len(), |i: int| decode_spec(leaf(items[i]), *elem))
        },
        _ => Seq::empty(),
    }
}

/// The element results of a tuple shape `s` at `t`, one per position.
pub open spec fn tuple_results(t: Tree, s: Shape) -> Seq<Result<Val, Fail>>
    decreases s, 0int,
{
    match s {
        Shape::Tuple(shapes) => {
            let items = tuple_items(t.scalar);
            Seq::new(
                shapes@.len(),
                |i: int|
                    if 0 <= i < shapes@.len() {
                        decode_spec(leaf(items[i]), shapes@[i])
                    } else {
                        Ok(Val::Unit)
                    },
            )
        },
        _ => Seq::empty(),
    }
}

/// The entry results of a keyed-map shape `s` at `t`, one per candidate
/// key; a key with no node gives no entry.
pub open spec fn entry_results(t: Tree, s: Shape) -> Seq<Result<Option<(Val, Val)>, Fail>>
    decreases s, 0int,
{
    match s {
        Shape::Keyed(ks, vs) => {
            let keys = map_keys(t);
            Seq::new(
                keys.len(),
                |i: int|
                    match tree_get(t, keys[i]) {
                        None => Ok(None),
                        Some(sub) => {
                            let kr = match *ks {
                                Shape::Union(_, variants) => key_variant_spec(keys[i], variants@),
                                _ => decode_spec(leaf(keys[i]), *ks),
                            };
                            match kr {
                                Err(e) => Err(e),
                                Ok(kv) => match decode_spec(sub, *vs) {
                                    Err(e) => Err(e),
                                    Ok(vv) => Ok(Some((kv, vv))),
                                },
                            }
                        },
                    },
            )
        },
        _ => Seq::empty(),
    }
}

/// The present entries of `es`, in order.
pub open spec fn somes(es: Seq<Option<(Val, Val)>>) -> Seq<(Val, Val)>
    decreases es.len(),
{
    if es.len() == 0 {
        Seq::empty()
    } else {
        match es.last() {
            Some(e) => somes(es.drop_last()).push(e),
            None => somes(es.drop_last()),
        }
    }
}

/// A record at `t` with the fields `fields`, each looked up by its name.
pub open spec fn record_spec(t: Tree, fields: Seq<Field>) -> Result<Val, Fail>
    decreases fields, 1int,
{
    match collect(field_results(t, fields)) {
        Ok(vs) => Ok(Val::Record(vs)),
        Err(e) => Err(e),
    }
}

/// The results of the fields `fields` of the record at `t`.
pub open spec fn field_results(t: Tree, fields: Seq<Field>) -> Seq<Result<(Seq<char>, Val), Fail>>
    decreases fields, 0int,
{
    Seq::new(
        fields.len(),
        |i: int|
            if 0 <= i < fields.len() {
                field_spec(t, fields[i])
            } else {
                Ok((Seq::empty(), Val::Unit))
            },
    )
}

/// A field of the record at `t`: decoded where its key is found, else its
/// fallback.
pub open spec fn field_spec(t: Tree, f: Field) -> Result<(Seq<char>, Val), Fail>
    decreases f, 1int,
{
    match tree_get(t, f.name@) {
        Some(sub) => match decode_spec(sub, f.shape) {
            Ok(v) => Ok((f.name@, v)),
            Err(e) => Err(e),
        },
        None => absent_spec(f),
    }
}

pub proof fn lemma_collect_step<T>(rs: Seq<Result<T, Fail>>, i: int, vs: Seq<T>, v: T)
    requires
        0 <= i < rs.len(),
        collect(rs.take(i)) == Ok::<Seq<T>, Fail>(vs),
        rs[i] == Ok::<T, Fail>(v),
    ensures
        collect(rs.take(i + 1)) == Ok::<Seq<T>, Fail>(vs.push(v)),
{
    assert(rs.take(i + 1).drop_last() =~= rs.take(i));
}

pub proof fn lemma_collect_err<T>(rs: Seq<Result<T, Fail>>, i: int, e: Fail)
    requires
        0 <= i < rs.len(),
        collect(rs.take(i)) is Ok,
        rs[i] == Err::<T, Fail>(e),
    ensures
        collect(rs) == Err::<Seq<T>, Fail>(e),
    decreases rs.len(),
{
    if i == rs.len() - 1 {
        assert(rs.drop_last() =~= rs.take(i));
    } else {
        let r = rs.drop_last();
        assert(r.take(i) =~= rs.take(i));
        lemma_collect_err(r, i, e);
    }
}

pub proof fn lemma_collect_all<T>(rs: Seq<Result<T, Fail>>)
    ensures
        rs.take(rs.len() as int) == rs,
{
    assert(rs.take(rs.len() as int) =~= rs);
}

pub proof fn lemma_collect_empty<T>(rs: Seq<Result<T, Fail>>)
    ensures
        collect(rs.take(0)) == Ok::<Seq<T>, Fail>(Seq::empty()),
{
    assert(rs.take(0) =~= Seq::<Result<T, Fail>>::empty());
}

/// The trimmed, comma-separated elements of `text`.
pub(crate) fn tuple_items_of(text: &str) -> (r: Vec<String>)
    ensures
        texts(r@) == tuple_items(text@),
{
    let parts = split_text(text, ',');
    let mut out: Vec<String> = Vec::new();
    let n = parts.len();
    let mut i: usize = 0;
    while i < n
        invariant
            n == parts@.len(),
            0 <= i <= n,
            texts(parts@) == split_on(text@, ','),
            texts(out@) == tuple_items(text@).take(i as int),
        decreases n - i,
    {
        let t = trim_text(parts[i].as_str());
        proof {
            assert(texts(parts@)[i as int] == parts@[i as int]@);
            assert(tuple_items(text@)[i as int] == t@);
        }
        let ghost before = out@;
        out.push(t);
        proof {
            assert(texts(out@) =~= texts(before).push(t@));
        }
        proof {
            assert(texts(out@) =~= tuple_items(text@).take(i + 1));
        }
        i += 1;
    }
    proof {
        assert(tuple_items(text@).take(n as int) =~= tuple_items(text@));
    }
    out
}

/// The non-empty, trimmed, comma-separated elements of `text`.
pub(crate) fn sequence_items_of(text: &str) -> (r: Vec<String>)
    ensures
        texts(r@) == sequence_items(text@),
{
    let all = tuple_items_of(text);
    let mut out: Vec<String> = Vec::new();
    let n = all.len();
    let mut i: usize = 0;
    proof {
        assert(tuple_items(text@).take(0) =~= Seq::<Seq<char>>::empty());
    }
    while i < n
        invariant
            n == all@.len(),
            0 <= i <= n,
            texts(all@) == tuple_items(text@),
            texts(out@) == drop_empty(tuple_items(text@).take(i as int)),
        decreases n - i,
    {
        proof {
            let ts = tuple_items(text@).take(i + 1);
            assert(ts.drop_last() =~= tuple_items(text@).take(i as int));
            assert(ts.last() == all@[i as int]@);
        }
        if all[i].as_str().unicode_len() > 0 {
            out.push(all[i].clone());
            proof {
                assert(texts(out@) =~= drop_empty(tuple_items(text@).take(i as int)).push(all@[i as int]@));
            }
        }
        i += 1;
    }
    proof {
        assert(tuple_items(text@).take(n as int) =~= tuple_items(text@));
    }
    out
}

/// Two ascending sequences of texts with the same elements are equal.
pub proof fn lemma_ascending_unique(a: Seq<Seq<char>>, b: Seq<Seq<char>>)
    requires
        ascending(a),
        ascending(b),
        a.to_set() == b.to_set(),
    ensures
        a == b,
    decreases a.len(),
{
    if a.len() == 0 {
        if b.len() > 0 {
            assert(b.to_set().contains(b[0]));
        }
        assert(a =~= b);
    } else {
        assert(a.to_set().contains(a[0]));
        assert(b.len() > 0);
        assert(b.to_set().contains(b[0]));
        let j = choose|j: int| 0 <= j < b.len() && b[j] == a[0];
        let k = choose|k: int| 0 <= k < a.len() && a[k] == b[0];
        if j > 0 {
            assert(seq_lt_pair(b, 0, j));
            if k > 0 {
                assert(seq_lt_pair(a, 0, k));
                lemma_lt_asymmetric(a[0], a[k]);
            } else {
                lemma_lt_irreflexive(a[0]);
            }
        }
        assert(a[0] == b[0]);
        let (ra, rb) = (a.drop_first(), b.drop_first());
        assert forall|x: Seq<char>| ra.to_set().contains(x) <==> rb.to_set().contains(x) by {
            if ra.to_set().contains(x) {
                let m = choose|m: int| 0 <= m < ra.len() && ra[m] == x;
                assert(a[m + 1] == x);
                assert(seq_lt_pair(a, 0, m + 1));
                lemma_lt_irreflexive(x);
                assert(a.to_set().contains(x));
                let n = choose|n: int| 0 <= n < b.len() && b[n] == x;
                assert(n != 0);
                assert(rb[n - 1] == x);
            }
            if rb.to_set().contains(x) {
                let m = choose|m: int| 0 <= m < rb.len() && rb[m] == x;
                assert(b[m + 1] == x);
                assert(seq_lt_pair(b, 0, m + 1));
                lemma_lt_irreflexive(x);
                assert(b.to_set().contains(x));
                let n = choose|n: int| 0 <= n < a.len() && a[n] == x;
                assert(n != 0);
                assert(ra[n - 1] == x);
            }
        }
        assert(ra.to_set() =~= rb.to_set());
        assert forall|p: int, q: int| 0 <= p < q < ra.len() implies seq_lt(#[trigger] ra[p], #[trigger] ra[q]) by {
            assert(seq_lt_pair(a, p + 1, q + 1));
        }
        assert forall|p: int, q: int| 0 <= p < q < rb.len() implies seq_lt(#[trigger] rb[p], #[trigger] rb[q]) by {
            assert(seq_lt_pair(b, p + 1, q + 1));
        }
        lemma_ascending_unique(ra, rb);
        assert(a =~= seq![a[0]] + ra);
        assert(b =~= seq![b[0]] + rb);
    }
}

spec fn seq_lt_pair(s: Seq<Seq<char>>, i: int, j: int) -> bool {
    seq_lt(s[i], s[j])
}

/// The keys of a keyed map at `node`, ascending.
fn map_keys_of(node: &Node) -> (r: Vec<String>)
    ensures
        texts(r@) == map_keys(node@),
{
    proof {
        reveal_strlit("");
        assert(""@ =~= Seq::<char>::empty());
    }
    let keys = node.flatten("");
    proof {
        let ks = map_keys(node@);
        assert(ascending(ks) && ks.to_set() == flatten_set(node@, Seq::empty()));
        lemma_ascending_unique(ks, texts(keys@));
    }
    keys
}

/// The first variant named `text` up to ASCII case.
fn find_variant(variants: &Vec<Variant>, text: &str) -> (r: Option<usize>)
    ensures
        match r {
            Some(i) => variant_index(variants@, text@) == i && i < variants@.len(),
            None => variant_index(variants@, text@) == -1,
        },
{
    let n = variants.len();
    let mut i: usize = 0;
    while i < n
        invariant
            n == variants@.len(),
            0 <= i <= n,
            forall|j: int| 0 <= j < i ==> !eq_ignore_ascii_case(text@, #[trigger] variants@[j].name@),
        decreases n - i,
    {
        if text_eq_ignore_ascii_case(text, variants[i].name.as_str()) {
            proof {
                let m = choose|m: int| is_variant_at(variants@, text@, m);
                assert(is_variant_at(variants@, text@, i as int));
                if m < i {
                    assert(!eq_ignore_ascii_case(text@, variants@[m].name@));
                }
                if i < m {
                    assert(!eq_ignore_ascii_case(text@, variants@[i as int].name@));
                }
            }
            return Some(i);
        }
        i += 1;
    }
    None
}

/// A map key decoded as a union: the declared name of the unit variant it
/// names.
fn key_variant(key: &str, variants: &Vec<Variant>) -> (r: Result<Value, Error>)
    ensures
        agrees(r, key_variant_spec(key@, variants@)),
{
    match find_variant(variants, key) {
        None => Err(Error::new(ErrorKind::MissingVariant, String::from_str(key))),
        Some(i) => match &variants[i].form {
            VariantForm::Unit => {
                assert(Value::Unit@ == Val::Unit);
                Ok(Value::Variant(variants[i].name.clone(), Box::new(Value::Unit)))
            },
            _ => Err(Error::new(ErrorKind::Unsupported, variants[i].name.clone())),
        },
    }
}

fn parse_failure(text: &str) -> (r: Error)
    ensures
        r@ == fail(ErrorKind::Parse, text@),
{
    Error::new(ErrorKind::Parse, String::from_str(text))
}

fn integer_value(text: &str, signed: bool, lo: i128, hi: i128) -> (r: Result<Value, Error>)
    requires
        -0x8000_0000_0000_0000 <= lo,
        hi <= 0xFFFF_FFFF_FFFF_FFFF,
    ensures
        agrees(r, int_result(text@, signed, lo as int, hi as int)),
{
    match parse_integer(text, signed, lo, hi) {
        Some(v) => Ok(Value::Int(v)),
        None => Err(parse_failure(text)),
    }
}

/// Decodes `node` as `shape`.
pub fn decode(node: &Node, shape: &Shape) -> (r: Result<Value, Error>)
    ensures
        agrees(r, decode_spec(node@, *shape)),
    decreases shape, 1int,
{
    let text = node.value();
    match shape {
        Shape::Bool => match parse_bool(text) {
            Some(b) => Ok(Value::Bool(b)),
            None => Err(parse_failure(text)),
        },
        Shape::I8 => integer_value(text, true, -0x80, 0x7f),
        Shape::I16 => integer_value(text, true, -0x8000, 0x7fff),
        Shape::I32 => integer_value(text, true, -0x8000_0000, 0x7fff_ffff),
        Shape::I64 => integer_value(text, true, -0x8000_0000_0000_0000, 0x7fff_ffff_ffff_ffff),
        Shape::U8 => integer_value(text, false, 0, 0xff),
        Shape::U16 => integer_value(text, false, 0, 0xffff),
        Shape::U32 => integer_value(text, false, 0, 0xffff_ffff),
        Shape::U64 => integer_value(text, false, 0, 0xffff_ffff_ffff_ffff),
        Shape::F32 | Shape::F64 => Ok(Value::Float(String::from_str(text))),
        Shape::Char => match parse_char(text) {
            Some(c) => {
                proof {
                    lemma_char_model(c);
                }
                Ok(Value::Char(c))
            },
            None => Err(parse_failure(text)),
        },
        Shape::Str | Shape::Any => Ok(Value::Str(String::from_str(text))),
        Shape::Bytes => Ok(Value::Bytes(text.as_bytes_vec())),
        Shape::Optional(inner) => if node.is_empty() {
            Ok(Value::Null)
        } else {
            match decode(node, inner) {
                Ok(v) => Ok(Value::Present(Box::new(v))),
                Err(e) => Err(e),
            }
        },
        Shape::Newtype(inner) => match decode(node, inner) {
            Ok(v) => Ok(Value::Newtype(Box::new(v))),
            Err(e) => Err(e),
        },
        Shape::Sequence(_) => decode_sequence(node, shape),
        Shape::Tuple(_) => decode_tuple(node, shape),
        Shape::Keyed(_, _) => decode_keyed(node, shape),
        Shape::Record(fields) => decode_record(node, fields),
        Shape::Union(tagging, variants) => {
            if *tagging != Tagging::External {
                return Err(Error::new(ErrorKind::Unsupported, String::from_str(text)));
            }
            match find_variant(variants, text) {
                None => Err(Error::new(ErrorKind::MissingVariant, String::from_str(text))),
                Some(i) => {
                    let name = &variants[i].name;
                    match &variants[i].form {
                        VariantForm::Unit => if node.has_children() {
                            Err(Error::new(ErrorKind::NotUnitVariant, name.clone()))
                        } else {
                            assert(Value::Unit@ == Val::Unit);
                            Ok(Value::Variant(name.clone(), Box::new(Value::Unit)))
                        },
                        VariantForm::Newtype(inner) => {
                            proof {
                                assert(decreases_to!(*shape => shape->Union_1));
                                assert(decreases_to!(*variants => variants[i as int]));
                            }
                            match decode(node, inner) {
                                Ok(v) => Ok(Value::Variant(name.clone(), Box::new(v))),
                                Err(e) => Err(e),
                            }
                        },
                        VariantForm::Tuple(_) => Err(Error::new(ErrorKind::Unsupported, name.clone())),
                        VariantForm::Record(fields) => {
                            proof {
                                assert(decreases_to!(*shape => shape->Union_1));
                                assert(decreases_to!(*variants => variants[i as int]));
                            }
                            match decode_record(node, fields) {
                                Ok(v) => Ok(Value::Variant(name.clone(), Box::new(v))),
                                Err(e) => Err(e),
                            }
                        },
                    }
                },
            }
        },
    }
}

fn decode_sequence(node: &Node, shape: &Shape) -> (r: Result<Value, Error>)
    requires
        shape is Sequence,
    ensures
        agrees(r, decode_spec(node@, *shape)),
    decreases shape, 0int,
{
    match shape {
        Shape::Sequence(elem) => {
            let items = sequence_items_of(node.value());
            let ghost rs = item_results(node@, *shape);
            let mut out: Vec<Value> = Vec::new();
            let ghost mut vs: Seq<Val> = Seq::empty();
            let mut i: usize = 0;
            proof {
                lemma_collect_empty(rs);
            }
            while i < items.len()
                invariant
                    rs == item_results(node@, *shape),
                    *shape == Shape::Sequence(*elem),
                    texts(items@) == sequence_items(node@.scalar),
                    rs.len() == items@.len(),
                    0 <= i <= items@.len(),
                    collect(rs.take(i as int)) == Ok::<Seq<Val>, Fail>(vs),
                    out@.len() == i,
                    vs.len() == i,
                    forall|j: int| 0 <= j < i ==> (#[trigger] out@[j])@ == vs[j],
                decreases items@.len() - i,
            {
                let leaf_node = Node::new(items[i].as_str());
                proof {
                    assert(texts(items@)[i as int] == items@[i as int]@);
                    assert(rs[i as int] == decode_spec(leaf_node@, **elem));
                    assert(decreases_to!(*shape => shape->Sequence_0));
                }
                match decode(&leaf_node, elem) {
                    Ok(v) => {
                        proof {
                            lemma_collect_step(rs, i as int, vs, v@);
                            vs = vs.push(v@);
                        }
                        out.push(v);
                    },
                    Err(e) => {
                        proof {
                            lemma_collect_err(rs, i as int, e@);
                            assert(collect(rs) == Err::<Seq<Val>, Fail>(e@));
                        }
                        return Err(e);
                    },
                }
                i += 1;
            }
            proof {
                lemma_collect_all(rs);
            }
            let r = Value::List(out);
            assert(r@->List_0 =~= vs);
            Ok(r)
        },
        _ => Err(Error::from_str("")),
    }
}

fn decode_tuple(node: &Node, shape: &Shape) -> (r: Result<Value, Error>)
    requires
        shape is Tuple,
    ensures
        agrees(r, decode_spec(node@, *shape)),
    decreases shape, 0int,
{
    match shape {
        Shape::Tuple(shapes) => {
            let items = tuple_items_of(node.value());
            if items.len() < shapes.len() {
                return Err(Error::new(ErrorKind::Length, String::from_str(node.value())));
            }
            let ghost rs = tuple_results(node@, *shape);
            let mut out: Vec<Value> = Vec::new();
            let ghost mut vs: Seq<Val> = Seq::empty();
            let mut i: usize = 0;
            proof {
                lemma_collect_empty(rs);
            }
            while i < shapes.len()
                invariant
                    rs == tuple_results(node@, *shape),
                    *shape == Shape::Tuple(*shapes),
                    texts(items@) == tuple_items(node@.scalar),
                    rs.len() == shapes@.len(),
                    items@.len() >= shapes@.len(),
                    0 <= i <= shapes@.len(),
                    collect(rs.take(i as int)) == Ok::<Seq<Val>, Fail>(vs),
                    out@.len() == i,
                    vs.len() == i,
                    forall|j: int| 0 <= j < i ==> (#[trigger] out@[j])@ == vs[j],
                decreases shapes@.len() - i,
            {
                let leaf_node = Node::new(items[i].as_str());
                proof {
                    assert(texts(items@)[i as int] == items@[i as int]@);
                    assert(rs[i as int] == decode_spec(leaf_node@, shapes@[i as int]));
                    assert(decreases_to!(*shape => shape->Tuple_0));
                    assert(decreases_to!(*shapes => shapes[i as int]));
                }
                match decode(&leaf_node, &shapes[i]) {
                    Ok(v) => {
                        proof {
                            lemma_collect_step(rs, i as int, vs, v@);
                            vs = vs.push(v@);
                        }
                        out.push(v);
                    },
                    Err(e) => {
                        proof {
                            lemma_collect_err(rs, i as int, e@);
                            assert(collect(rs) == Err::<Seq<Val>, Fail>(e@));
                        }
                        return Err(e);
                    },
                }
                i += 1;
            }
            proof {
                lemma_collect_all(rs);
            }
            let r = Value::List(out);
            assert(r@->List_0 =~= vs);
            Ok(r)
        },
        _ => Err(Error::from_str("")),
    }
}

fn decode_keyed(node: &Node, shape: &Shape) -> (r: Result<Value, Error>)
    requires
        shape is Keyed,
    ensures
        agrees(r, decode_spec(node@, *shape)),
    decreases shape, 0int,
{
    match shape {
        Shape::Keyed(ks, vs) => {
            let keys = map_keys_of(node);
            let ghost rs = entry_results(node@, *shape);
            let mut out: Vec<(Value, Value)> = Vec::new();
            let ghost mut es: Seq<Option<(Val, Val)>> = Seq::empty();
            let mut i: usize = 0;
            proof {
                lemma_collect_empty(rs);
            }
            while i < keys.len()
                invariant
                    rs == entry_results(node@, *shape),
                    *shape == Shape::Keyed(*ks, *vs),
                    texts(keys@) == map_keys(node@),
                    rs.len() == keys@.len(),
                    0 <= i <= keys@.len(),
                    collect(rs.take(i as int)) == Ok::<Seq<Option<(Val, Val)>>, Fail>(es),
                    es.len() == i,
                    out@.len() == somes(es).len(),
                    forall|j: int| 0 <= j < out@.len() ==> ((#[trigger] out@[j]).0@, out@[j].1@) == somes(es)[j],
                decreases keys@.len() - i,
            {
                let key = keys[i].as_str();
                proof {
                    assert(texts(keys@)[i as int] == key@);
                    assert(decreases_to!(*shape => shape->Keyed_0));
                    assert(decreases_to!(*shape => shape->Keyed_1));
                }
                match node.get(key) {
                    None => {
                        proof {
                            lemma_collect_step(rs, i as int, es, None);
                            assert(somes(es.push(None)) == somes(es)) by {
                                assert(es.push(None).drop_last() =~= es);
                            }
                            es = es.push(None);
                        }
                    },
                    Some(sub) => {
                        let kr = match &**ks {
                            Shape::Union(_, variants) => key_variant(key, variants),
                            _ => {
                                let leaf_node = Node::new(key);
                                decode(&leaf_node, ks)
                            },
                        };
                        match kr {
                            Err(e) => {
                                proof {
                                    lemma_collect_err(rs, i as int, e@);
                                    assert(collect(rs) == Err::<Seq<Option<(Val, Val)>>, Fail>(e@));
                                }
                                return Err(e);
                            },
                            Ok(kv) => match decode(sub, vs) {
                                Err(e) => {
                                    proof {
                                        lemma_collect_err(rs, i as int, e@);
                                        assert(collect(rs) == Err::<Seq<Option<(Val, Val)>>, Fail>(e@));
                                    }
                                    return Err(e);
                                },
                                Ok(vv) => {
                                    proof {
                                        lemma_collect_step(rs, i as int, es, Some((kv@, vv@)));
                                        assert(somes(es.push(Some((kv@, vv@)))) == somes(es).push((kv@, vv@))) by {
                                            assert(es.push(Some((kv@, vv@))).drop_last() =~= es);
                                        }
                                        es = es.push(Some((kv@, vv@)));
                                    }
                                    out.push((kv, vv));
                                },
                            },
                        }
                    },
                }
                i += 1;
            }
            proof {
                lemma_collect_all(rs);
            }
            let r = Value::Entries(out);
            assert(r@->Entries_0 =~= somes(es));
            Ok(r)
        },
        _ => Err(Error::from_str("")),
    }
}

fn decode_record(node: &Node, fields: &Vec<Field>) -> (r: Result<Value, Error>)
    ensures
        agrees(r, record_spec(node@, fields@)),
    decreases fields, 1int,
{
    let ghost rs = field_results(node@, fields@);
    let mut out: Vec<(String, Value)> = Vec::new();
    let ghost mut vs: Seq<(Seq<char>, Val)> = Seq::empty();
    let mut i: usize = 0;
    proof {
        lemma_collect_empty(rs);
    }
    while i < fields.len()
        invariant
            rs == field_results(node@, fields@),
            rs.len() == fields@.len(),
            0 <= i <= fields@.len(),
            collect(rs.take(i as int)) == Ok::<Seq<(Seq<char>, Val)>, Fail>(vs),
            out@.len() == i,
            vs.len() == i,
            forall|j: int| 0 <= j < i ==> (#[trigger] out@[j]).0@ == vs[j].0 && out@[j].1@ == vs[j].1,
        decreases fields@.len() - i,
    {
        proof {
            assert(decreases_to!(*fields => fields[i as int]));
        }
        match decode_field(node, &fields[i]) {
            Ok((n, v)) => {
                proof {
                    lemma_collect_step(rs, i as int, vs, (n@, v@));
                    vs = vs.push((n@, v@));
                }
                out.push((n, v));
            },
            Err(e) => {
                proof {
                    lemma_collect_err(rs, i as int, e@);
                    assert(collect(rs) == Err::<Seq<(Seq<char>, Val)>, Fail>(e@));
                }
                return Err(e);
            },
        }
        i += 1;
    }
    proof {
        lemma_collect_all(rs);
    }
    let r = Value::Record(out);
    assert(r@->Record_0 =~= vs);
    Ok(r)
}

fn decode_field(node: &Node, f: &Field) -> (r: Result<(String, Value), Error>)
    ensures
        agrees_field(r, field_spec(node@, *f)),
    decreases f, 1int,
{
    match node.get(f.name.as_str()) {
        Some(sub) => match decode(sub, &f.shape) {
            Ok(v) => Ok((f.name.clone(), v)),
            Err(e) => Err(e),
        },
        None => absent_value(f),
    }
}

/// Decodes the key/value pairs `pairs` as `shape`: the pairs are folded
/// into a tree (keys in lower case, empty values dropped, `_` as the level
/// separator) and the tree's root is decoded.
pub fn from_iter(pairs: &Vec<(String, String)>, shape: &Shape) -> (r: Result<Value, Error>)
    ensures
        agrees(r, decode_spec(build(pairs_view(pairs@)), *shape)),
{
    let root = Node::from_iter(pairs);
    decode(&root, shape)
}

/// As `from_iter`, with only the pairs whose key begins with `prefix` and
/// `_` (in any case) taking part, that part taken off.
pub fn from_iter_with_prefix(pairs: &Vec<(String, String)>, prefix: &str, shape: &Shape) -> (r: Result<Value, Error>)
    ensures
        agrees(r, decode_spec(build_with_prefix(pairs_view(pairs@), prefix@), *shape)),
{
    let root = Node::from_iter_with_prefix(pairs, prefix);
    decode(&root, shape)
}

/// Case-insensitivity: pairs whose keys fold to the same lower-case text,
/// with the same values, decode identically.
pub proof fn law_case_insensitive_decoding(
    ps: Seq<(Seq<char>, Seq<char>)>,
    qs: Seq<(Seq<char>, Seq<char>)>,
    shape: Shape,
)
    requires
        ps.len() == qs.len(),
        forall|i: int| 0 <= i < ps.len() ==> lower_of(#[trigger] ps[i].0) == lower_of(qs[i].0) && ps[i].1 == qs[i].1,
    ensures
        decode_spec(build(ps), shape) == decode_spec(build(qs), shape),
{
    assert forall|i: int| 0 <= i < ps.len() implies lower_of(#[trigger] ps[i].0) == lower_of(qs[i].0) && ps[i].1 == qs[i].1 by {
    }
    law_case_insensitive(ps, qs);
}

/// Repeatability: any two results that `decode` gives for the same tree and
/// shape are the same value or the same error.
pub proof fn law_repeatable(t: Tree, shape: Shape, rp: Result<Value, Error>, rq: Result<Value, Error>)
    requires
        agrees(rp, decode_spec(t, shape)),
        agrees(rq, decode_spec(t, shape)),
    ensures
        rp is Ok <==> rq is Ok,
        rp is Ok ==> rp->Ok_0@ == rq->Ok_0@,
        rp is Err ==> rp->Err_0@ == rq->Err_0@,
{
}

impl Value {
    /// A copy of this value.
    pub fn duplicate(&self) -> (r: Value)
        ensures
            r@ == self@,
        decreases self,
    {
        match self {
            Value::Bool(b) => Value::Bool(*b),
            Value::Int(i) => Value::Int(*i),
            Value::Float(s) => Value::Float(s.clone()),
            Value::Char(c) => Value::Char(*c),
            Value::Str(s) => Value::Str(s.clone()),
            Value::Bytes(b) => {
                let c = b.clone();
                assert(c@ =~= b@);
                Value::Bytes(c)
            },
            Value::Unit => Value::Unit,
            Value::Null => Value::Null,
            Value::Present(v) => Value::Present(Box::new((**v).duplicate())),
            Value::Newtype(v) => Value::Newtype(Box::new((**v).duplicate())),
            Value::List(vs) => {
                let mut out: Vec<Value> = Vec::new();
                let mut i: usize = 0;
                while i < vs.len()
                    invariant
                        0 <= i <= vs@.len(),
                        out@.len() == i,
                        *self == Value::List(*vs),
                        forall|j: int| 0 <= j < i ==> (#[trigger] out@[j])@ == vs@[j]@,
                    decreases vs@.len() - i,
                {
                    proof {
                        assert(decreases_to!(*self => self->List_0));
                        assert(decreases_to!(*vs => vs[i as int]));
                        assert(decreases_to!(*self => vs[i as int]));
                    }
                    out.push(vs[i].duplicate());
                    i += 1;
                }
                let r = Value::List(out);
                assert(r@ == self@) by {
                    assert(r@->List_0 =~= self@->List_0);
                }
                r
            },
            Value::Entries(es) => {
                let mut out: Vec<(Value, Value)> = Vec::new();
                let mut i: usize = 0;
                while i < es.len()
                    invariant
                        0 <= i <= es@.len(),
                        out@.len() == i,
                        *self == Value::Entries(*es),
                        forall|j: int| 0 <= j < i ==> (#[trigger] out@[j]).0@ == es@[j].0@ && out@[j].1@ == es@[j].1@,
                    decreases es@.len() - i,
                {
                    proof {
                        assert(decreases_to!(*self => self->Entries_0));
                        assert(decreases_to!(*es => es[i as int]));
                        assert(decreases_to!(*self => es[i as int].0));
                        assert(decreases_to!(*self => es[i as int].1));
                    }
                    out.push((es[i].0.duplicate(), es[i].1.duplicate()));
                    i += 1;
                }
                let r = Value::Entries(out);
                assert(r@ == self@) by {
                    assert(r@->Entries_0 =~= self@->Entries_0);
                }
                r
            },
            Value::Record(fs) => {
                let mut out: Vec<(String, Value)> = Vec::new();
                let mut i: usize = 0;
                while i < fs.len()
                    invariant
                        0 <= i <= fs@.len(),
                        out@.len() == i,
                        *self == Value::Record(*fs),
                        forall|j: int| 0 <= j < i ==> (#[trigger] out@[j]).0@ == fs@[j].0@ && out@[j].1@ == fs@[j].1@,
                    decreases fs@.len() - i,
                {
                    proof {
                        assert(decreases_to!(*self => self->Record_0));
                        assert(decreases_to!(*fs => fs[i as int]));
                        assert(decreases_to!(*self => fs[i as int].1));
                    }
                    out.push((fs[i].0.clone(), fs[i].1.duplicate()));
                    i += 1;
                }
                let r = Value::Record(out);
                assert(r@ == self@) by {
                    assert(r@->Record_0 =~= self@->Record_0);
                }
                r
            },
            Value::Variant(n, v) => Value::Variant(n.clone(), Box::new((**v).duplicate())),
        }
    }
}

} // verus!
verus! {
impl Value {
    fn same_value(&self, other: &Value) -> (r: bool)
        ensures
            r == (self@ == other@),
        decreases self,
    {
        match (self, other) {
            (Value::Bool(a), Value::Bool(b)) => *a == *b,
            (Value::Int(a), Value::Int(b)) => *a == *b,
            (Value::Float(a), Value::Float(b)) => compare_text(a.as_str(), b.as_str()) == 0,
            (Value::Char(a), Value::Char(b)) => {
                proof {
                    lemma_char_model(*a);
                    lemma_char_model(*b);
                }
                *a == *b
            },
            (Value::Str(a), Value::Str(b)) => compare_text(a.as_str(), b.as_str()) == 0,
            (Value::Bytes(a), Value::Bytes(b)) => {
                if a.len() != b.len() {
                    assert(self@->Bytes_0.len() != other@->Bytes_0.len());
                    return false;
                }
                let mut i: usize = 0;
                while i < a.len()
                    invariant
                        *self == Value::Bytes(*a),
                        *other == Value::Bytes(*b),
                        a@.len() == b@.len(),
                        0 <= i <= a@.len(),
                        forall|j: int| 0 <= j < i ==> a@[j] == b@[j],
                    decreases a@.len() - i,
                {
                    if a[i] != b[i] {
                        assert(self@->Bytes_0[i as int] != other@->Bytes_0[i as int]);
                        return false;
                    }
                    i += 1;
                }
                assert(a@ =~= b@);
                true
            },
            (Value::Unit, Value::Unit) => true,
            (Value::Null, Value::Null) => true,
            (Value::Present(a), Value::Present(b)) => (**a).same_value(&**b),
            (Value::Newtype(a), Value::Newtype(b)) => (**a).same_value(&**b),
            (Value::List(a), Value::List(b)) => {
                if a.len() != b.len() {
                    assert(self@->List_0.len() != other@->List_0.len());
                    return false;
                }
                let mut i: usize = 0;
                while i < a.len()
                    invariant
                        *self == Value::List(*a),
                        *other == Value::List(*b),
                        a@.len() == b@.len(),
                        0 <= i <= a@.len(),
                        forall|j: int| 0 <= j < i ==> (#[trigger] a@[j])@ == b@[j]@,
                    decreases a@.len() - i,
                {
                    proof {
                        assert(decreases_to!(*self => self->List_0));
                        assert(decreases_to!(*a => a[i as int]));
                    }
                    if !a[i].same_value(&b[i]) {
                        assert(self@->List_0[i as int] != other@->List_0[i as int]);
                        return false;
                    }
                    i += 1;
                }
                assert(self@->List_0 =~= other@->List_0);
                true
            },
            (Value::Entries(a), Value::Entries(b)) => {
                if a.len() != b.len() {
                    assert(self@->Entries_0.len() != other@->Entries_0.len());
                    return false;
                }
                let mut i: usize = 0;
                while i < a.len()
                    invariant
                        *self == Value::Entries(*a),
                        *other == Value::Entries(*b),
                        a@.len() == b@.len(),
                        0 <= i <= a@.len(),
                        forall|j: int| 0 <= j < i ==> (#[trigger] a@[j]).0@ == b@[j].0@ && a@[j].1@ == b@[j].1@,
                    decreases a@.len() - i,
                {
                    proof {
                        assert(decreases_to!(*self => self->Entries_0));
                        assert(decreases_to!(*a => a[i as int]));
                    }
                    if !a[i].0.same_value(&b[i].0) || !a[i].1.same_value(&b[i].1) {
                        assert(self@->Entries_0[i as int] != other@->Entries_0[i as int]);
                        return false;
                    }
                    i += 1;
                }
                assert(self@->Entries_0 =~= other@->Entries_0);
                true
            },
            (Value::Record(a), Value::Record(b)) => {
                if a.len() != b.len() {
                    assert(self@->Record_0.len() != other@->Record_0.len());
                    return false;
                }
                let mut i: usize = 0;
                while i < a.len()
                    invariant
                        *self == Value::Record(*a),
                        *other == Value::Record(*b),
                        a@.len() == b@.len(),
                        0 <= i <= a@.len(),
                        forall|j: int| 0 <= j < i ==> (#[trigger] a@[j]).0@ == b@[j].0@ && a@[j].1@ == b@[j].1@,
                    decreases a@.len() - i,
                {
                    proof {
                        assert(decreases_to!(*self => self->Record_0));
                        assert(decreases_to!(*a => a[i as int]));
                    }
                    if compare_text(a[i].0.as_str(), b[i].0.as_str()) != 0 || !a[i].1.same_value(&b[i].1) {
                        assert(self@->Record_0[i as int] != other@->Record_0[i as int]);
                        return false;
                    }
                    i += 1;
                }
                assert(self@->Record_0 =~= other@->Record_0);
                true
            },
            (Value::Variant(n, a), Value::Variant(m, b)) => compare_text(n.as_str(), m.as_str()) == 0
                && (**a).same_value(&**b),
            _ => false,
        }
    }
}

impl PartialEq for Value {
    fn eq(&self, other: &Value) -> (r: bool) {
        self.same_value(other)
    }
}

impl vstd::std_specs::cmp::PartialEqSpecImpl for Value {
    open spec fn obeys_eq_spec() -> bool {
        true
    }

    open spec fn eq_spec(&self, other: &Value) -> bool {
        self@ == other@
    }
}

proof fn lemma_char_model(c: char)
    ensures
        Value::Char(c)@ == Val::Char(c),
{
}
}
