use ron::{to_string, to_string_pretty, to_vec, Payload, Value};

fn text(value: &Value) -> String {
    to_string(value).unwrap()
}

fn pretty(value: &Value) -> String {
    to_string_pretty(value).unwrap()
}

#[test]
fn empty_collections_are_two_bytes() {
    assert_eq!(text(&Value::Sequence(vec![])), "[]");
    assert_eq!(text(&Value::Mapping(vec![])), "{}");
    assert_eq!(pretty(&Value::Sequence(vec![])), "[]");
    assert_eq!(pretty(&Value::Mapping(vec![])), "{}");
}

#[test]
fn option_is_transparent() {
    assert_eq!(text(&Value::Optional(None)), "()");
    assert_eq!(text(&Value::Optional(Some(Box::new(Value::U8(7))))), "7");
    assert_eq!(text(&Value::Optional(Some(Box::new(Value::U8(7))))), text(&Value::U8(7)));
    assert_eq!(text(&Value::Unit), "()");
}

#[test]
fn scalars_in_decimal() {
    assert_eq!(text(&Value::Bool(true)), "true");
    assert_eq!(text(&Value::Bool(false)), "false");
    assert_eq!(text(&Value::U8(0)), "0");
    assert_eq!(text(&Value::U64(u64::MAX)), "18446744073709551615");
    assert_eq!(text(&Value::I64(i64::MIN)), "-9223372036854775808");
    assert_eq!(text(&Value::I8(-128)), "-128");
    assert_eq!(text(&Value::I32(-1)), "-1");
    assert_eq!(text(&Value::Isize(42)), "42");
    assert_eq!(text(&Value::F64("0.4".to_string())), "0.4");
}

#[test]
fn text_is_written_verbatim() {
    assert_eq!(text(&Value::Char('a')), "'a'");
    assert_eq!(text(&Value::Str("a b".to_string())), "\"a b\"");
    assert_eq!(text(&Value::Str("a\"b".to_string())), "\"a\"b\"");
    assert_eq!(text(&Value::Char('\u{e9}')), "'\u{e9}'");
    assert_eq!(text(&Value::Str("\u{20ac}\u{1f600}".to_string())), "\"\u{20ac}\u{1f600}\"");
}

#[test]
fn compact_sequence_and_mapping() {
    let seq = Value::Sequence(vec![Value::U8(1), Value::U8(2), Value::U8(3)]);
    assert_eq!(text(&seq), "[1,2,3]");
    let map = Value::Mapping(vec![
        (Value::Str("a".to_string()), Value::U8(1)),
        (Value::Str("b".to_string()), Value::Sequence(vec![Value::Bool(true)])),
    ]);
    assert_eq!(text(&map), "{\"a\":1,\"b\":[true]}");
    assert_eq!(to_vec(&map), b"{\"a\":1,\"b\":[true]}".to_vec());
}

#[test]
fn pretty_sequence_and_mapping() {
    let seq = Value::Sequence(vec![Value::U8(1), Value::Sequence(vec![Value::U8(2), Value::U8(3)]), Value::U8(4)]);
    assert_eq!(pretty(&seq), "[\n  1,\n  [\n    2,\n    3\n  ],\n  4\n]");
    let map = Value::Mapping(vec![
        (Value::Str("a".to_string()), Value::U8(1)),
        (Value::Str("b".to_string()), Value::Sequence(vec![])),
    ]);
    assert_eq!(pretty(&map), "{\n  \"a\": 1,\n  \"b\": []\n}");
}

#[test]
fn variants_are_written() {
    let unit = Value::Variant("Foo".to_string(), "Bar".to_string(), Payload::Unit);
    assert_eq!(text(&unit), "\u{b6}Bar\u{b6}");
    let seq = Value::Variant(
        "Foo".to_string(),
        "Var2".to_string(),
        Payload::Sequence(vec![Value::Str("a".to_string()), Value::Str("b".to_string())]),
    );
    assert_eq!(text(&seq), "{\"Var2\":[\"a\",\"b\"]}");
    assert_eq!(pretty(&seq), "{\n  \"Var2\": [\n    \"a\",\n    \"b\"\n  ]\n}");
    let map = Value::Variant(
        "Foo".to_string(),
        "Var3".to_string(),
        Payload::Mapping(vec![(Value::Str("x".to_string()), Value::I8(-1))]),
    );
    assert_eq!(text(&map), "{\"Var3\":{\"x\":-1}}");
}
