use ron::{
    from_slice, from_str, to_string, to_string_pretty, EntryShape, Error, ErrorCode, FieldShape,
    FloatKind, IntKind, Payload, PayloadShape, Shape, Value, VariantShape,
};

fn syntax(result: Result<Value, Error>) -> (ErrorCode, usize, usize) {
    match result {
        Err(Error::Syntax(code, line, column)) => (code, line, column),
        other => panic!("not a syntax error: {:?}", other),
    }
}

fn u8s() -> Shape {
    Shape::sequence(Shape::Int(IntKind::U8))
}

fn record_ab() -> Shape {
    Shape::Record(vec![
        FieldShape { name: "a", shape: Shape::Int(IntKind::U8) },
        FieldShape { name: "b", shape: Shape::Int(IntKind::U8) },
    ])
}

fn foo() -> Shape {
    Shape::Enum(
        "Foo",
        vec![
            VariantShape { name: "Var0", payload: PayloadShape::Unit },
            VariantShape { name: "Var1", payload: PayloadShape::Sequence(Shape::Int(IntKind::U8)) },
            VariantShape { name: "Var2", payload: PayloadShape::Sequence(Shape::Str) },
            VariantShape {
                name: "Var3",
                payload: PayloadShape::Mapping(EntryShape {
                    key: Shape::Str,
                    value: Shape::Int(IntKind::I8),
                }),
            },
        ],
    )
}

#[test]
fn unit_and_bool() {
    assert_eq!(from_str("()", &Shape::Unit).unwrap(), Value::Unit);
    assert_eq!(from_str("  true", &Shape::Bool).unwrap(), Value::Bool(true));
    assert_eq!(from_str("false\n", &Shape::Bool).unwrap(), Value::Bool(false));
    assert_eq!(syntax(from_str("trux", &Shape::Bool)), (ErrorCode::ExpectedSomeValue, 1, 4));
    assert_eq!(syntax(from_str("fal", &Shape::Bool)), (ErrorCode::EOFWhileParsingValue, 1, 4));
    assert_eq!(syntax(from_str("(", &Shape::Unit)), (ErrorCode::EOFWhileParsingValue, 1, 2));
    assert_eq!(syntax(from_str("( )", &Shape::Unit)), (ErrorCode::ExpectedSomeValue, 1, 2));
    assert_eq!(syntax(from_str("", &Shape::Unit)), (ErrorCode::EOFWhileParsingValue, 1, 1));
}

#[test]
fn option_reads_unit_as_none() {
    let shape = Shape::optional(Shape::Int(IntKind::U8));
    assert_eq!(from_str("()", &shape).unwrap(), Value::Optional(None));
    assert_eq!(from_str("7", &shape).unwrap(), Value::Optional(Some(Box::new(Value::U8(7)))));
    let unit = Shape::optional(Shape::Unit);
    assert_eq!(from_str("()", &unit).unwrap(), Value::Optional(None));
}

#[test]
fn integers_by_kind() {
    assert_eq!(from_str("255", &Shape::Int(IntKind::U8)).unwrap(), Value::U8(255));
    assert_eq!(from_str("+7", &Shape::Int(IntKind::U8)).unwrap(), Value::U8(7));
    assert_eq!(from_str("007", &Shape::Int(IntKind::U16)).unwrap(), Value::U16(7));
    assert_eq!(from_str("-128", &Shape::Int(IntKind::I8)).unwrap(), Value::I8(-128));
    assert_eq!(from_str("-0", &Shape::Int(IntKind::I32)).unwrap(), Value::I32(0));
    assert_eq!(
        from_str("18446744073709551615", &Shape::Int(IntKind::U64)).unwrap(),
        Value::U64(u64::MAX)
    );
    assert_eq!(
        from_str("-9223372036854775808", &Shape::Int(IntKind::I64)).unwrap(),
        Value::I64(i64::MIN)
    );
    assert_eq!(from_str("42", &Shape::Int(IntKind::Usize)).unwrap(), Value::Usize(42));
    assert_eq!(from_str("-42", &Shape::Int(IntKind::Isize)).unwrap(), Value::Isize(-42));
    assert_eq!(from_str("65535", &Shape::Int(IntKind::U16)).unwrap(), Value::U16(65535));
    assert_eq!(from_str("-32768", &Shape::Int(IntKind::I16)).unwrap(), Value::I16(-32768));
    assert_eq!(from_str("4294967295", &Shape::Int(IntKind::U32)).unwrap(), Value::U32(u32::MAX));
}

#[test]
fn integers_that_do_not_convert() {
    let invalid = |text: &str, kind: IntKind| syntax(from_str(text, &Shape::Int(kind)));
    assert_eq!(invalid("256", IntKind::U8), (ErrorCode::InvalidNumber, 1, 1));
    assert_eq!(invalid("-1", IntKind::U8), (ErrorCode::InvalidNumber, 1, 1));
    assert_eq!(invalid("-0", IntKind::U8), (ErrorCode::InvalidNumber, 1, 1));
    assert_eq!(invalid("1.5", IntKind::U8), (ErrorCode::InvalidNumber, 1, 1));
    assert_eq!(invalid("1e2", IntKind::U32), (ErrorCode::InvalidNumber, 1, 1));
    assert_eq!(invalid(" -", IntKind::I8), (ErrorCode::InvalidNumber, 1, 2));
    assert_eq!(invalid("-129", IntKind::I8), (ErrorCode::InvalidNumber, 1, 1));
    assert_eq!(invalid("128", IntKind::I8), (ErrorCode::InvalidNumber, 1, 1));
    assert_eq!(invalid("18446744073709551616", IntKind::U64), (ErrorCode::InvalidNumber, 1, 1));
    assert_eq!(invalid("99999999999999999999999", IntKind::I64), (ErrorCode::InvalidNumber, 1, 1));
    assert_eq!(invalid("9223372036854775808", IntKind::I64), (ErrorCode::InvalidNumber, 1, 1));
    assert_eq!(invalid("x", IntKind::U8), (ErrorCode::ExpectedSomeValue, 1, 1));
    assert_eq!(invalid("", IntKind::U8), (ErrorCode::EOFWhileParsingValue, 1, 1));
}

#[test]
fn floats_keep_their_text() {
    let f64s = Shape::Float(FloatKind::F64);
    assert_eq!(from_str("0.4", &f64s).unwrap(), Value::F64("0.4".to_string()));
    assert_eq!(from_str("-1e-7", &f64s).unwrap(), Value::F64("-1e-7".to_string()));
    assert_eq!(from_str("3", &f64s).unwrap(), Value::F64("3".to_string()));
    assert_eq!(from_str("1.", &f64s).unwrap(), Value::F64("1.".to_string()));
    assert_eq!(from_str(".5", &f64s).unwrap(), Value::F64(".5".to_string()));
    assert_eq!(
        from_str("2.5E+3", &Shape::Float(FloatKind::F32)).unwrap(),
        Value::F32("2.5E+3".to_string())
    );
    assert_eq!(syntax(from_str(".", &f64s)), (ErrorCode::InvalidNumber, 1, 1));
    assert_eq!(syntax(from_str("1e", &f64s)), (ErrorCode::InvalidNumber, 1, 1));
    assert_eq!(syntax(from_str("-", &f64s)), (ErrorCode::InvalidNumber, 1, 1));
    assert_eq!(syntax(from_str("nan", &f64s)), (ErrorCode::ExpectedSomeValue, 1, 1));
    for text in ["0.4", "-1e-7", "3", "1.", ".5", "2.5E+3"] {
        assert!(text.parse::<f64>().is_ok());
    }
}

#[test]
fn strings_and_escapes() {
    assert_eq!(from_str("\"a b\"", &Shape::Str).unwrap(), Value::Str("a b".to_string()));
    assert_eq!(from_str("\"a\n b\"", &Shape::Str).unwrap(), Value::Str("a\n b".to_string()));
    assert_eq!(
        from_str("\"a\\n\\t\\\\\\\"\\'b\"", &Shape::Str).unwrap(),
        Value::Str("a\n\t\\\"'b".to_string())
    );
    assert_eq!(
        from_str("\"\\u00e9\\u20AC\"", &Shape::Str).unwrap(),
        Value::Str("\u{e9}\u{20ac}".to_string())
    );
    assert_eq!(
        from_str("\"\u{1f600} \u{e9}\"", &Shape::Str).unwrap(),
        Value::Str("\u{1f600} \u{e9}".to_string())
    );
    assert_eq!(from_str("\"\"", &Shape::Str).unwrap(), Value::Str(String::new()));
}

#[test]
fn malformed_escapes() {
    assert_eq!(
        syntax(from_str("\"\\uD800\"", &Shape::Str)),
        (ErrorCode::LoneLeadingSurrogateInHexEscape, 1, 2)
    );
    assert_eq!(
        syntax(from_str("\"ab\\uDFFF\"", &Shape::Str)),
        (ErrorCode::LoneLeadingSurrogateInHexEscape, 1, 4)
    );
    assert_eq!(syntax(from_str("\"\\uZZZZ\"", &Shape::Str)), (ErrorCode::UnrecognizedHex, 1, 4));
    assert_eq!(syntax(from_str("\"\\u12\"", &Shape::Str)), (ErrorCode::UnrecognizedHex, 1, 6));
    assert_eq!(syntax(from_str("\"\\u12", &Shape::Str)), (ErrorCode::NotFourDigit, 1, 6));
    assert_eq!(syntax(from_str("\"\\x\"", &Shape::Str)), (ErrorCode::InvalidEscape, 1, 3));
    assert_eq!(syntax(from_str("\"abc", &Shape::Str)), (ErrorCode::EOFWhileParsingString, 1, 5));
    assert_eq!(syntax(from_str("\"abc\\", &Shape::Str)), (ErrorCode::EOFWhileParsingString, 1, 6));
    assert_eq!(syntax(from_str("abc", &Shape::Str)), (ErrorCode::ExpectedSomeValue, 1, 1));
    assert_eq!(
        syntax(from_slice(b"[\"a\", \"\xff\"]", &Shape::sequence(Shape::Str))),
        (ErrorCode::NotUtf8, 1, 7)
    );
}

#[test]
fn chars() {
    assert_eq!(from_str("'a'", &Shape::Char).unwrap(), Value::Char('a'));
    assert_eq!(from_str("'\u{e9}'", &Shape::Char).unwrap(), Value::Char('\u{e9}'));
    assert_eq!(from_str("'\\n'", &Shape::Char).unwrap(), Value::Char('\n'));
    assert_eq!(from_str("'\\''", &Shape::Char).unwrap(), Value::Char('\''));
    assert_eq!(from_str("'\\u0041'", &Shape::Char).unwrap(), Value::Char('A'));
    assert_eq!(syntax(from_str("''", &Shape::Char)), (ErrorCode::InvalidUnicodeCodePoint, 1, 1));
    assert_eq!(syntax(from_str(" 'ab'", &Shape::Char)), (ErrorCode::InvalidUnicodeCodePoint, 1, 2));
    assert_eq!(syntax(from_str("'a", &Shape::Char)), (ErrorCode::EOFWhileParsingString, 1, 3));
}

#[test]
fn sequences() {
    assert_eq!(from_str("[]", &u8s()).unwrap(), Value::Sequence(vec![]));
    assert_eq!(from_str("[ \n\t ]", &u8s()).unwrap(), Value::Sequence(vec![]));
    assert_eq!(
        from_str("[1,2,3]", &u8s()).unwrap(),
        Value::Sequence(vec![Value::U8(1), Value::U8(2), Value::U8(3)])
    );
    assert_eq!(
        from_str(" [ 1 , 2 , ] ", &u8s()).unwrap(),
        Value::Sequence(vec![Value::U8(1), Value::U8(2)])
    );
    assert_eq!(
        from_str("[\n  1,\n  2\n]", &u8s()).unwrap(),
        Value::Sequence(vec![Value::U8(1), Value::U8(2)])
    );
    assert_eq!(syntax(from_str("[1 2]", &u8s())), (ErrorCode::ExpectedListCommaOrEnd, 1, 4));
    assert_eq!(syntax(from_str("[1,", &u8s())), (ErrorCode::EOFWhileParsingArray, 1, 4));
    assert_eq!(syntax(from_str("[1", &u8s())), (ErrorCode::EOFWhileParsingArray, 1, 3));
    assert_eq!(syntax(from_str("[", &u8s())), (ErrorCode::EOFWhileParsingArray, 1, 2));
    assert_eq!(syntax(from_str("[,]", &u8s())), (ErrorCode::ExpectedSomeValue, 1, 2));
    assert_eq!(syntax(from_str("[1,,]", &u8s())), (ErrorCode::ExpectedSomeValue, 1, 4));
    assert_eq!(syntax(from_str("1", &u8s())), (ErrorCode::ExpectedSomeValue, 1, 1));
}

#[test]
fn mappings() {
    let shape = Shape::mapping(Shape::Str, Shape::Int(IntKind::U8));
    assert_eq!(from_str("{}", &shape).unwrap(), Value::Mapping(vec![]));
    assert_eq!(from_str("{\n}", &shape).unwrap(), Value::Mapping(vec![]));
    assert_eq!(
        from_str("{\"a\":1,\"b\":2}", &shape).unwrap(),
        Value::Mapping(vec![
            (Value::Str("a".to_string()), Value::U8(1)),
            (Value::Str("b".to_string()), Value::U8(2)),
        ])
    );
    assert_eq!(
        from_str("{ \"a\" : 1 , \"a\" : 2 , }", &shape).unwrap(),
        Value::Mapping(vec![
            (Value::Str("a".to_string()), Value::U8(1)),
            (Value::Str("a".to_string()), Value::U8(2)),
        ])
    );
    let keyed = Shape::mapping(u8s(), Shape::Bool);
    assert_eq!(
        from_str("{[1]:true}", &keyed).unwrap(),
        Value::Mapping(vec![(Value::Sequence(vec![Value::U8(1)]), Value::Bool(true))])
    );
    assert_eq!(syntax(from_str("{:1}", &shape)), (ErrorCode::KeyMustBeAValue, 1, 2));
    assert_eq!(syntax(from_str("{a:1}", &shape)), (ErrorCode::KeyMustBeAValue, 1, 2));
    assert_eq!(syntax(from_str("{\"a\" 1}", &shape)), (ErrorCode::ExpectedColon, 1, 6));
    assert_eq!(syntax(from_str("{\"a\":1 \"b\":2}", &shape)), (ErrorCode::ExpectedObjectCommaOrEnd, 1, 8));
    assert_eq!(syntax(from_str("{\"a\":1", &shape)), (ErrorCode::EOFWhileParsingMap, 1, 7));
    assert_eq!(syntax(from_str("{\"a\"", &shape)), (ErrorCode::EOFWhileParsingMap, 1, 5));
    assert_eq!(syntax(from_str("{", &shape)), (ErrorCode::EOFWhileParsingMap, 1, 2));
}

#[test]
fn records() {
    let value = from_str("{a: 1, b: 2}", &record_ab()).unwrap();
    assert_eq!(
        value,
        Value::Mapping(vec![
            (Value::Str("a".to_string()), Value::U8(1)),
            (Value::Str("b".to_string()), Value::U8(2)),
        ])
    );
    let reordered = from_str("{\n  b: 2,\n  a: 1,\n}", &record_ab()).unwrap();
    assert_eq!(reordered, value);
    match from_str("{a: 1, c: 2}", &record_ab()) {
        Err(Error::Syntax(ErrorCode::UnknownField(name), 1, 8)) => assert_eq!(name, "c"),
        other => panic!("{:?}", other),
    }
    match from_str("{a: 1}", &record_ab()) {
        Err(Error::MissingField("b")) => {}
        other => panic!("{:?}", other),
    }
    match from_str("{}", &record_ab()) {
        Err(Error::MissingField("a")) => {}
        other => panic!("{:?}", other),
    }
    assert_eq!(syntax(from_str("{\"a\": 1}", &record_ab())), (ErrorCode::ExpectedName, 1, 2));
    assert_eq!(syntax(from_str("{a 1}", &record_ab())), (ErrorCode::ExpectedColon, 1, 4));
    assert_eq!(syntax(from_str("{a: 1 b: 2}", &record_ab())), (ErrorCode::ExpectedObjectCommaOrEnd, 1, 7));
    assert_eq!(syntax(from_str("{a: 1,", &record_ab())), (ErrorCode::EOFWhileParsingObject, 1, 7));
    assert_eq!(syntax(from_str("{a", &record_ab())), (ErrorCode::EOFWhileParsingObject, 1, 3));
}

#[test]
fn record_keeps_the_last_of_two() {
    assert_eq!(
        from_str("{a: 1, b: 2, a: 3}", &record_ab()).unwrap(),
        Value::Mapping(vec![
            (Value::Str("a".to_string()), Value::U8(3)),
            (Value::Str("b".to_string()), Value::U8(2)),
        ])
    );
}

#[test]
fn missing_value_is_reported_where_it_is_missing() {
    assert_eq!(
        syntax(from_str("{\n  a: ,\n}", &record_ab())),
        (ErrorCode::ExpectedSomeValue, 2, 6)
    );
}

#[test]
fn trailing_characters() {
    assert_eq!(syntax(from_str("() extra", &Shape::Unit)), (ErrorCode::TrailingCharacters, 1, 4));
    assert_eq!(syntax(from_str("[1]\n\n ]", &u8s())), (ErrorCode::TrailingCharacters, 3, 2));
    assert_eq!(from_str("() \n\t \r\n", &Shape::Unit).unwrap(), Value::Unit);
}

#[test]
fn variants_in_both_forms() {
    let unit = Value::Variant("Foo".to_string(), "Var0".to_string(), Payload::Unit);
    assert_eq!(from_str("\u{b6}Var0\u{b6}", &foo()).unwrap(), unit);
    assert_eq!(from_str("{\"Var0\": ()}", &foo()).unwrap(), unit);
    assert_eq!(
        from_str("{\"Var2\":[\"a\",\"b\"]}", &foo()).unwrap(),
        Value::Variant(
            "Foo".to_string(),
            "Var2".to_string(),
            Payload::Sequence(vec![Value::Str("a".to_string()), Value::Str("b".to_string())]),
        )
    );
    assert_eq!(
        from_str("{ \"Var3\" : { \"x\" : -1 } }", &foo()).unwrap(),
        Value::Variant(
            "Foo".to_string(),
            "Var3".to_string(),
            Payload::Mapping(vec![(Value::Str("x".to_string()), Value::I8(-1))]),
        )
    );
    assert_eq!(syntax(from_str("{\"Var9\":[]}", &foo())), (ErrorCode::UnknownVariant, 1, 2));
    assert_eq!(syntax(from_str("{\"var2\":[]}", &foo())), (ErrorCode::UnknownVariant, 1, 2));
    assert_eq!(syntax(from_str("\u{b6}Var9\u{b6}", &foo())), (ErrorCode::UnknownVariant, 1, 3));
    assert_eq!(syntax(from_str("\u{b6}Var1\u{b6}", &foo())), (ErrorCode::ExpectedEnumMapStart, 1, 1));
    assert_eq!(syntax(from_str("\u{b6}\u{b6}", &foo())), (ErrorCode::ExpectedSomeIdent, 1, 3));
    assert_eq!(syntax(from_str("\u{b6}Var0", &foo())), (ErrorCode::EOFWhileParsingValue, 1, 7));
    assert_eq!(syntax(from_str("\u{b6}Var0!", &foo())), (ErrorCode::ExpectedEnumEnd, 1, 7));
    assert_eq!(syntax(from_str("Var0", &foo())), (ErrorCode::ExpectedEnumToken, 1, 1));
    assert_eq!(syntax(from_str("{Var2:[]}", &foo())), (ErrorCode::ExpectedEnumVariantString, 1, 2));
    assert_eq!(syntax(from_str("{\"Var2\" []}", &foo())), (ErrorCode::ExpectedColon, 1, 9));
    assert_eq!(syntax(from_str("{\"Var2\":{}}", &foo())), (ErrorCode::ExpectedEnumMapStart, 1, 9));
    assert_eq!(syntax(from_str("{\"Var3\":[]}", &foo())), (ErrorCode::ExpectedEnumMapStart, 1, 9));
    assert_eq!(syntax(from_str("{\"Var2\":[],}", &foo())), (ErrorCode::ExpectedEnumEndToken, 1, 11));
    assert_eq!(syntax(from_str("{\"Var2\":[]", &foo())), (ErrorCode::EOFWhileParsingObject, 1, 11));
    assert_eq!(syntax(from_str("{", &foo())), (ErrorCode::EOFWhileParsingObject, 1, 2));
}

fn samples() -> Vec<(Value, Shape)> {
    vec![
        (Value::Unit, Shape::Unit),
        (Value::Bool(true), Shape::Bool),
        (Value::I64(i64::MIN), Shape::Int(IntKind::I64)),
        (Value::U64(u64::MAX), Shape::Int(IntKind::U64)),
        (Value::F64("0.4".to_string()), Shape::Float(FloatKind::F64)),
        (Value::Char('\u{e9}'), Shape::Char),
        (Value::Str("a\n b \u{1f600}".to_string()), Shape::Str),
        (Value::Optional(None), Shape::optional(Shape::Bool)),
        (Value::Optional(Some(Box::new(Value::Bool(false)))), Shape::optional(Shape::Bool)),
        (Value::Sequence(vec![]), u8s()),
        (Value::Sequence(vec![Value::U8(1), Value::U8(2), Value::U8(3)]), u8s()),
        (
            Value::Sequence(vec![
                Value::Sequence(vec![Value::U8(1)]),
                Value::Sequence(vec![]),
                Value::Sequence(vec![Value::U8(2), Value::U8(3)]),
            ]),
            Shape::sequence(u8s()),
        ),
        (
            Value::Mapping(vec![
                (Value::Str("a".to_string()), Value::Sequence(vec![Value::U8(1)])),
                (Value::Str("b".to_string()), Value::Sequence(vec![])),
            ]),
            Shape::mapping(Shape::Str, u8s()),
        ),
        (Value::Variant("Foo".to_string(), "Var0".to_string(), Payload::Unit), foo()),
        (
            Value::Variant(
                "Foo".to_string(),
                "Var2".to_string(),
                Payload::Sequence(vec![Value::Str("a".to_string()), Value::Str("b".to_string())]),
            ),
            foo(),
        ),
        (
            Value::Variant(
                "Foo".to_string(),
                "Var3".to_string(),
                Payload::Mapping(vec![(Value::Str("x".to_string()), Value::I8(-1))]),
            ),
            foo(),
        ),
        (Value::Variant("Foo".to_string(), "Var1".to_string(), Payload::Sequence(vec![])), foo()),
    ]
}

#[test]
fn compact_text_reads_back() {
    for (value, shape) in samples() {
        let text = to_string(&value).unwrap();
        assert_eq!(from_str(&text, &shape).unwrap(), value, "{}", text);
    }
}

#[test]
fn pretty_text_reads_back() {
    for (value, shape) in samples() {
        let text = to_string_pretty(&value).unwrap();
        assert_eq!(from_str(&text, &shape).unwrap(), value, "{}", text);
    }
}

#[test]
fn both_forms_read_alike() {
    for (value, shape) in samples() {
        let compact = to_string(&value).unwrap();
        let pretty = to_string_pretty(&value).unwrap();
        assert_eq!(from_str(&compact, &shape).unwrap(), from_str(&pretty, &shape).unwrap());
    }
}

#[test]
fn variant_with_two_elements_reads_back() {
    let value = Value::Variant(
        "Foo".to_string(),
        "Var2".to_string(),
        Payload::Sequence(vec![Value::Str("a".to_string()), Value::Str("b".to_string())]),
    );
    assert_eq!(from_slice(&ron::to_vec(&value), &foo()).unwrap(), value);
    assert_eq!(from_slice(&ron::to_vec_pretty(&value), &foo()).unwrap(), value);
}

#[test]
fn text_that_needs_escaping_does_not_read_back() {
    let value = Value::Str("a\"b".to_string());
    let text = to_string(&value).unwrap();
    assert_eq!(syntax(from_str(&text, &Shape::Str)), (ErrorCode::TrailingCharacters, 1, 4));
    let some_unit = Value::Optional(Some(Box::new(Value::Unit)));
    let text = to_string(&some_unit).unwrap();
    assert_eq!(from_str(&text, &Shape::optional(Shape::Unit)).unwrap(), Value::Optional(None));
}

#[test]
fn quotes_in_texts_can_make_the_two_forms_read_apart() {
    let value = Value::Sequence(vec![
        Value::Str("a\",".to_string()),
        Value::Str(",\"b".to_string()),
    ]);
    let shape = Shape::sequence(Shape::Str);
    let strings = |texts: &[&str]| {
        Value::Sequence(texts.iter().map(|text| Value::Str(text.to_string())).collect())
    };
    let compact = to_string(&value).unwrap();
    assert_eq!(compact, "[\"a\",\",\",\"b\"]");
    assert_eq!(from_str(&compact, &shape).unwrap(), strings(&["a", ",", "b"]));
    let pretty = to_string_pretty(&value).unwrap();
    assert_eq!(pretty, "[\n  \"a\",\",\n  \",\"b\"\n]");
    assert_eq!(from_str(&pretty, &shape).unwrap(), strings(&["a", ",\n  ", "b"]));
}
