use serde_env::{
    decode, from_iter, from_iter_with_prefix, EmptyStr, Error, ErrorKind, Fallback, Field, Node,
    Shape, Tagging, Value, Variant, VariantForm,
};

fn pairs(items: &[(&str, &str)]) -> Vec<(String, String)> {
    items.iter().map(|(k, v)| (k.to_string(), v.to_string())).collect()
}

fn field(name: &str, shape: Shape) -> Field {
    Field { name: name.to_string(), shape, fallback: Fallback::Required }
}

fn field_or(name: &str, shape: Shape, fallback: Fallback) -> Field {
    Field { name: name.to_string(), shape, fallback }
}

fn text(s: &str) -> Value {
    Value::Str(s.to_string())
}

fn record(fields: Vec<(&str, Value)>) -> Value {
    Value::Record(fields.into_iter().map(|(n, v)| (n.to_string(), v)).collect())
}

fn variant(name: &str, payload: Value) -> Value {
    Value::Variant(name.to_string(), Box::new(payload))
}

fn unit_variant(name: &str) -> Variant {
    Variant { name: name.to_string(), form: VariantForm::Unit }
}

fn test_struct() -> Shape {
    Shape::Record(vec![
        field_or("a", Shape::I64, Fallback::Zero),
        field_or("b", Shape::Bool, Fallback::Zero),
        field_or("c", Shape::Str, Fallback::Zero),
        field_or(
            "d",
            Shape::Record(vec![
                field_or("aa", Shape::F32, Fallback::Zero),
                field_or("bb", Shape::Str, Fallback::Zero),
            ]),
            Fallback::Zero,
        ),
    ])
}

#[test]
fn test_from_env() {
    let env = pairs(&[
        ("A", "123"),
        ("B", "true"),
        ("C", "Hello, test"),
        ("D_AA", "1.2"),
        ("D_BB", "Hello, embed"),
    ]);
    let t = from_iter(&env, &test_struct()).expect("must success");
    assert_eq!(
        t,
        record(vec![
            ("a", Value::Int(123)),
            ("b", Value::Bool(true)),
            ("c", text("Hello, test")),
            ("d", record(vec![("aa", Value::Float("1.2".to_string())), ("bb", text("Hello, embed"))])),
        ])
    );
    if let Value::Record(fs) = &t {
        if let Value::Record(inner) = &fs[3].1 {
            if let Value::Float(f) = &inner[0].1 {
                assert_eq!(f.parse::<f32>().unwrap(), 1.2f32);
            }
        }
    }
}

fn foo_shape() -> Shape {
    Shape::Record(vec![
        field("bar", Shape::Str),
        field("baz", Shape::Bool),
        field("zoom", Shape::Optional(Box::new(Shape::U16))),
        field("doom", Shape::Sequence(Box::new(Shape::U64))),
        field("boom", Shape::Sequence(Box::new(Shape::Str))),
        field_or("kaboom", Shape::U16, Fallback::Given(Value::Int(8080))),
        field_or("debug_mode", Shape::Bool, Fallback::Zero),
        field("provided", Shape::Optional(Box::new(Shape::Str))),
        field("newtype", Shape::Newtype(Box::new(Shape::U32))),
        field("boom_zoom", Shape::Bool),
        field_or("mode_xx", Shape::Bool, Fallback::Given(Value::Bool(true))),
    ])
}

#[test]
fn test_ported_from_envy() {
    let env = pairs(&[
        ("BAR", "test"),
        ("BAZ", "true"),
        ("DOOM", "1, 2, 3 "),
        ("BOOM", ""),
        ("SIZE", "small"),
        ("PROVIDED", "test"),
        ("NEWTYPE", "42"),
        ("boom_zoom", "true"),
        ("mode_xx", "false"),
    ]);
    let actual = from_iter(&env, &foo_shape()).expect("must success");
    assert_eq!(
        actual,
        record(vec![
            ("bar", text("test")),
            ("baz", Value::Bool(true)),
            ("zoom", Value::Null),
            ("doom", Value::List(vec![Value::Int(1), Value::Int(2), Value::Int(3)])),
            ("boom", Value::List(vec![])),
            ("kaboom", Value::Int(8080)),
            ("debug_mode", Value::Bool(false)),
            ("provided", Value::Present(Box::new(text("test")))),
            ("newtype", Value::Newtype(Box::new(Value::Int(42)))),
            ("boom_zoom", Value::Bool(true)),
            ("mode_xx", Value::Bool(false)),
        ])
    );
}

fn flat_shape() -> Shape {
    Shape::Record(vec![field("meta_log_level", Shape::Str)])
}

#[test]
fn test_from_env_flat() {
    let t = from_iter(&pairs(&[("meta_log_level", "DEBUG")]), &flat_shape()).expect("must success");
    assert_eq!(t, record(vec![("meta_log_level", text("DEBUG"))]));
}

#[test]
fn test_from_env_flat_upper() {
    let t = from_iter(&pairs(&[("META_LOG_LEVEL", "DEBUG")]), &flat_shape()).expect("must success");
    assert_eq!(t, record(vec![("meta_log_level", text("DEBUG"))]));
}

#[test]
fn test_from_env_flat_with_default() {
    let t = from_iter(&pairs(&[("meta_log_level", "DEBUG")]), &flat_shape()).expect("must success");
    assert_eq!(t, record(vec![("meta_log_level", text("DEBUG"))]));
}

#[test]
fn test_from_env_flat_upper_with_default() {
    let t = from_iter(&pairs(&[("META_LOG_LEVEL", "DEBUG")]), &flat_shape()).expect("must success");
    assert_eq!(t, record(vec![("meta_log_level", text("DEBUG"))]));
}

fn entry<'a>(map: &'a Value, key: &str) -> Option<&'a Value> {
    match map {
        Value::Entries(es) => es.iter().find(|(k, _)| *k == text(key)).map(|(_, v)| v),
        _ => None,
    }
}

#[test]
fn test_from_env_as_map() {
    let shape = Shape::Keyed(Box::new(Shape::Str), Box::new(Shape::Str));
    let t = from_iter(&pairs(&[("METASRV_LOG_LEVEL", "DEBUG")]), &shape).expect("must success");
    assert_eq!(entry(&t, "metasrv_log_level"), Some(&text("DEBUG")));
}

fn externally_enum_struct() -> Shape {
    Shape::Record(vec![field(
        "foo",
        Shape::Union(
            Tagging::External,
            vec![
                unit_variant("X"),
                Variant {
                    name: "Y".to_string(),
                    form: VariantForm::Newtype(Shape::Record(vec![field("bar", Shape::Str)])),
                },
                Variant {
                    name: "Z".to_string(),
                    form: VariantForm::Record(vec![field("a", Shape::I32)]),
                },
            ],
        ),
    )])
}

#[test]
fn test_from_env_externally_enum() {
    let t = from_iter(&pairs(&[("FOO", "X")]), &externally_enum_struct()).expect("must success");
    assert_eq!(t, record(vec![("foo", variant("X", Value::Unit))]));

    let t = from_iter(&pairs(&[("FOO", "Y"), ("FOO_BAR", "xxx")]), &externally_enum_struct())
        .expect("must success");
    assert_eq!(t, record(vec![("foo", variant("Y", record(vec![("bar", text("xxx"))])))]));

    let t = from_iter(&pairs(&[("FOO", "Z"), ("FOO_A", "1")]), &externally_enum_struct())
        .expect("must success");
    assert_eq!(t, record(vec![("foo", variant("Z", record(vec![("a", Value::Int(1))])))]));
}

#[test]
fn double_option() {
    let shape = Shape::Record(vec![field(
        "inner",
        Shape::Optional(Box::new(Shape::Record(vec![field(
            "val",
            Shape::Optional(Box::new(Shape::U8)),
        )]))),
    )]);
    let t = from_iter(&pairs(&[("INNER_VAL", "2")]), &shape).expect("must success");
    assert_eq!(
        t,
        record(vec![(
            "inner",
            Value::Present(Box::new(record(vec![("val", Value::Present(Box::new(Value::Int(2))))])))
        )])
    );
}

#[test]
fn inner_mapping_with_enum_keys() {
    let key = Shape::Union(Tagging::External, vec![unit_variant("Option1"), unit_variant("Option2")]);
    let shape = Shape::Record(vec![field("val", Shape::Keyed(Box::new(key), Box::new(Shape::Str)))]);
    let env = pairs(&[("VAL_OPTION1", "FOO"), ("VAL_OPTION2", "BAR")]);
    let t = from_iter(&env, &shape).expect("must succeed");
    assert_eq!(
        t,
        record(vec![(
            "val",
            Value::Entries(vec![
                (variant("Option1", Value::Unit), text("FOO")),
                (variant("Option2", Value::Unit), text("BAR")),
            ])
        )])
    );
}

#[test]
fn case_insensitive_keys_decode_identically() {
    let shape = Shape::Record(vec![field("foo_bar", Shape::U8)]);
    let upper = from_iter(&pairs(&[("FOO_BAR", "1")]), &shape).expect("decodes");
    let lower = from_iter(&pairs(&[("foo_bar", "1")]), &shape).expect("decodes");
    assert_eq!(upper, lower);
    assert_eq!(upper, record(vec![("foo_bar", Value::Int(1))]));
}

#[test]
fn sequence_trims_and_drops_empty_elements() {
    let shape = Shape::Record(vec![
        field("doom", Shape::Sequence(Box::new(Shape::U64))),
        field_or("boom", Shape::Sequence(Box::new(Shape::Str)), Fallback::Zero),
    ]);
    let t = from_iter(&pairs(&[("DOOM", "1, 2, 3 "), ("BOOM", "")]), &shape).expect("decodes");
    assert_eq!(
        t,
        record(vec![
            ("doom", Value::List(vec![Value::Int(1), Value::Int(2), Value::Int(3)])),
            ("boom", Value::List(vec![])),
        ])
    );
    let t = from_iter(&pairs(&[("S", " a ,, b,")]), &Shape::Record(vec![field("s", Shape::Sequence(Box::new(Shape::Str)))]))
        .expect("decodes");
    assert_eq!(t, record(vec![("s", Value::List(vec![text("a"), text("b")]))]));
}

#[test]
fn tuple_keeps_empty_elements() {
    let shape = Shape::Tuple(vec![Shape::Str, Shape::Str, Shape::Str]);
    let node = Node::new("a,, b ");
    assert_eq!(decode(&node, &shape).expect("decodes"), Value::List(vec![text("a"), text(""), text("b")]));
}

#[test]
fn tuple_with_too_few_elements_fails() {
    let shape = Shape::Tuple(vec![Shape::U8, Shape::U8, Shape::U8]);
    let err = decode(&Node::new("1,2"), &shape).unwrap_err();
    assert_eq!(err.kind(), ErrorKind::Length);
    assert_eq!(err.detail(), "1,2");
}

#[test]
fn decoding_twice_gives_the_same_result() {
    let root = Node::from_iter(&pairs(&[("FOO", "Z"), ("FOO_A", "1"), ("X_Y", "2")]));
    let first = decode(&root, &externally_enum_struct()).expect("decodes");
    let second = decode(&root, &externally_enum_struct()).expect("decodes");
    assert_eq!(first, second);
    let map = Shape::Keyed(Box::new(Shape::Str), Box::new(Shape::Str));
    assert_eq!(decode(&root, &map).expect("decodes"), decode(&root, &map).expect("decodes"));
}

#[test]
fn keyed_map_lists_every_path_in_ascending_order() {
    let shape = Shape::Keyed(Box::new(Shape::Str), Box::new(Shape::Str));
    let t = from_iter(&pairs(&[("B", "2"), ("A_C", "1")]), &shape).expect("decodes");
    assert_eq!(
        t,
        Value::Entries(vec![
            (text("a"), text("")),
            (text("a_c"), text("1")),
            (text("b"), text("2")),
        ])
    );
}

#[test]
fn keyed_map_with_integer_keys() {
    let shape = Shape::Keyed(Box::new(Shape::U8), Box::new(Shape::Bool));
    let t = from_iter(&pairs(&[("1", "true"), ("2", "false")]), &shape).expect("decodes");
    assert_eq!(
        t,
        Value::Entries(vec![
            (Value::Int(1), Value::Bool(true)),
            (Value::Int(2), Value::Bool(false)),
        ])
    );
}

#[test]
fn keyed_map_with_unknown_enum_key_fails() {
    let key = Shape::Union(Tagging::External, vec![unit_variant("Option1")]);
    let shape = Shape::Keyed(Box::new(key), Box::new(Shape::Str));
    let err = from_iter(&pairs(&[("OTHER", "x")]), &shape).unwrap_err();
    assert_eq!(err.kind(), ErrorKind::MissingVariant);
    assert_eq!(err.detail(), "other");
}

#[test]
fn integer_parsing_follows_the_kind() {
    let cases: Vec<(Shape, &str, Option<i128>)> = vec![
        (Shape::U8, "255", Some(255)),
        (Shape::U8, "256", None),
        (Shape::U8, "-0", None),
        (Shape::U8, "+7", Some(7)),
        (Shape::I8, "-128", Some(-128)),
        (Shape::I8, "-129", None),
        (Shape::I16, "-", None),
        (Shape::I32, " 1", None),
        (Shape::I64, "-9223372036854775808", Some(-9223372036854775808)),
        (Shape::U64, "18446744073709551615", Some(18446744073709551615)),
        (Shape::U64, "18446744073709551616", None),
        (Shape::U32, "00000000000000000000000042", Some(42)),
        (Shape::U16, "", None),
    ];
    for (shape, input, expected) in cases {
        let got = decode(&Node::new(input), &shape);
        match expected {
            Some(v) => assert_eq!(got.expect("parses"), Value::Int(v)),
            None => {
                let err = got.unwrap_err();
                assert_eq!(err.kind(), ErrorKind::Parse);
                assert_eq!(err.detail(), input);
            },
        }
    }
}

#[test]
fn scalar_kinds() {
    assert_eq!(decode(&Node::new("false"), &Shape::Bool).expect("parses"), Value::Bool(false));
    assert_eq!(decode(&Node::new("True"), &Shape::Bool).unwrap_err().kind(), ErrorKind::Parse);
    assert_eq!(decode(&Node::new("é"), &Shape::Char).expect("parses"), Value::Char('é'));
    assert_eq!(decode(&Node::new("ab"), &Shape::Char).unwrap_err().kind(), ErrorKind::Parse);
    assert_eq!(decode(&Node::new("hé"), &Shape::Bytes).expect("decodes"), Value::Bytes(vec![104, 195, 169]));
    assert_eq!(decode(&Node::new(" x "), &Shape::Any).expect("decodes"), text(" x "));
    assert_eq!(decode(&Node::new("2.5"), &Shape::F64).expect("decodes"), Value::Float("2.5".to_string()));
}

#[test]
fn optional_is_absent_only_for_an_empty_node() {
    let shape = Shape::Optional(Box::new(Shape::Str));
    assert_eq!(decode(&Node::new(""), &shape).expect("decodes"), Value::Null);
    let parent = Node::new("").with_child("x", Node::new("1"));
    assert_eq!(decode(&parent, &shape).expect("decodes"), Value::Present(Box::new(text(""))));
}

#[test]
fn variant_names_match_ignoring_ascii_case() {
    let t = from_iter(&pairs(&[("FOO", "x")]), &externally_enum_struct()).expect("decodes");
    assert_eq!(t, record(vec![("foo", variant("X", Value::Unit))]));
}

#[test]
fn unknown_variant_fails() {
    let err = from_iter(&pairs(&[("FOO", "W")]), &externally_enum_struct()).unwrap_err();
    assert_eq!(err.kind(), ErrorKind::MissingVariant);
    assert_eq!(err.detail(), "W");
}

#[test]
fn unit_variant_with_children_fails() {
    let err = from_iter(&pairs(&[("FOO", "X"), ("FOO_BAR", "1")]), &externally_enum_struct()).unwrap_err();
    assert_eq!(err.kind(), ErrorKind::NotUnitVariant);
    assert_eq!(err.detail(), "X");
}

#[test]
fn other_union_encodings_are_unsupported() {
    for tagging in [Tagging::Internal, Tagging::Adjacent, Tagging::Untagged] {
        let shape = Shape::Union(tagging, vec![unit_variant("X")]);
        let err = decode(&Node::new("X"), &shape).unwrap_err();
        assert_eq!(err.kind(), ErrorKind::Unsupported);
    }
    let tuple = Shape::Union(
        Tagging::External,
        vec![Variant { name: "T".to_string(), form: VariantForm::Tuple(2) }],
    );
    assert_eq!(decode(&Node::new("T"), &tuple).unwrap_err().kind(), ErrorKind::Unsupported);
}

#[test]
fn required_field_missing_fails() {
    let shape = Shape::Record(vec![field("present", Shape::Str), field("absent", Shape::Str)]);
    let err = from_iter(&pairs(&[("PRESENT", "1")]), &shape).unwrap_err();
    assert_eq!(err.kind(), ErrorKind::MissingField);
    assert_eq!(err.detail(), "absent");
}

#[test]
fn first_failing_field_is_reported() {
    let shape = Shape::Record(vec![field("a", Shape::U8), field("b", Shape::Bool)]);
    let err = from_iter(&pairs(&[("A", "x"), ("B", "y")]), &shape).unwrap_err();
    assert_eq!(err.kind(), ErrorKind::Parse);
    assert_eq!(err.detail(), "x");
}

#[test]
fn prefixed_decoding() {
    let shape = Shape::Record(vec![field("home", Shape::Str), field("path", Shape::Str)]);
    let env = pairs(&[("TEST_ENV_HOME", "/test"), ("TEST_ENV_PATH", "foo:bar"), ("HOME", "/root")]);
    let t = from_iter_with_prefix(&env, "TEST_ENV", &shape).expect("decodes");
    assert_eq!(t, record(vec![("home", text("/test")), ("path", text("foo:bar"))]));
}

#[test]
fn zero_values() {
    let shape = Shape::Record(vec![
        field("n", Shape::I32),
        field("o", Shape::Optional(Box::new(Shape::Str))),
        field_or("g", Shape::U8, Fallback::Given(Value::Int(5))),
        field_or("z", Shape::Tuple(vec![Shape::Bool, Shape::Char]), Fallback::Zero),
    ]);
    let err = EmptyStr.decode(&shape).unwrap_err();
    assert_eq!(err.kind(), ErrorKind::MissingField);
    assert_eq!(err.detail(), "n");
    let shape = Shape::Record(vec![
        field_or("n", Shape::I32, Fallback::Zero),
        field("o", Shape::Optional(Box::new(Shape::Str))),
        field_or("g", Shape::U8, Fallback::Given(Value::Int(5))),
        field_or("z", Shape::Tuple(vec![Shape::Bool, Shape::Char]), Fallback::Zero),
        field_or("s", Shape::Str, Fallback::Zero),
        field_or("f", Shape::F64, Fallback::Zero),
    ]);
    assert_eq!(
        EmptyStr.decode(&shape).expect("zero"),
        record(vec![
            ("n", Value::Int(0)),
            ("o", Value::Null),
            ("g", Value::Int(5)),
            ("z", Value::List(vec![Value::Bool(false), Value::Char('\0')])),
            ("s", text("")),
            ("f", Value::Float("0".to_string())),
        ])
    );
    let union = Shape::Union(Tagging::External, vec![unit_variant("X")]);
    assert_eq!(EmptyStr.decode(&union).unwrap_err().kind(), ErrorKind::MissingVariant);
}

#[test]
fn errors_carry_kind_and_detail() {
    let e = Error::from_str("something went wrong");
    assert_eq!(e.kind(), ErrorKind::Custom);
    assert_eq!(e.detail(), "something went wrong");
    let e = Error::new(ErrorKind::Parse, "abc".to_string());
    assert_eq!(e.kind(), ErrorKind::Parse);
    assert_eq!(e.detail(), "abc");
}
