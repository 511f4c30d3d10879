use ron::decode::integer_value;
use ron::encode::{indent, CompactFormatter, Formatter, PrettyFormatter};
use ron::lexer::Lexer;
use ron::number::{decimal_text, push_decimal, push_decimal_text, push_digits};
use ron::shape::{find_field, find_variant};
use ron::text::{bytes_equal, push_bytes, push_char};
use ron::{
    to_vec_pretty, to_writer, to_writer_pretty, Decoder, Encoder, Error, ErrorCode, FieldShape,
    IntKind, PayloadShape, Shape, Value, VariantShape,
};

fn written<F: Formatter>(encoder: Encoder<F>) -> String {
    String::from_utf8(encoder.into_inner()).unwrap()
}

#[test]
fn encoder_keeps_what_the_buffer_held() {
    let mut encoder = Encoder::new(b"x = ".to_vec());
    encoder.visit_u8(7);
    assert_eq!(written(encoder), "x = 7");
    let mut buffer = b"y = ".to_vec();
    to_writer(&mut buffer, &Value::Sequence(vec![Value::Bool(true)]));
    assert_eq!(buffer, b"y = [true]".to_vec());
    to_writer_pretty(&mut buffer, &Value::Sequence(vec![Value::Bool(false)]));
    assert_eq!(buffer, b"y = [true][\n  false\n]".to_vec());
}

#[test]
fn encoder_visits_scalars() {
    let mut encoder = Encoder::new(Vec::new());
    encoder.visit_bool(true);
    encoder.visit_usize(1);
    encoder.visit_u64(2);
    encoder.visit_u32(3);
    encoder.visit_u16(4);
    encoder.visit_u8(5);
    encoder.visit_isize(-1);
    encoder.visit_i64(-2);
    encoder.visit_i32(-3);
    encoder.visit_i16(-4);
    encoder.visit_i8(-5);
    encoder.visit_f64("0.5");
    encoder.visit_f32("1.5");
    encoder.visit_char('c');
    encoder.visit_str("s");
    encoder.visit_unit();
    encoder.visit_none();
    encoder.visit_some(&Value::U8(9));
    encoder.visit_enum_unit("Foo", "Bar");
    assert_eq!(written(encoder), "true12345-1-2-3-4-50.51.5'c'\"s\"()()9\u{b6}Bar\u{b6}");
    assert_eq!(Encoder::<CompactFormatter>::format(), "ron");
}

#[test]
fn encoder_emits_constants_and_escapes() {
    let mut encoder = Encoder::new(Vec::new());
    encoder.emit_constant(b"abc");
    encoder.emit_escape(b"def", '|');
    encoder.emit_escape(b"g", '\u{20ac}');
    assert_eq!(written(encoder), "abc|def|\u{20ac}g\u{20ac}");
}

#[test]
fn encoder_separates_elements() {
    let mut encoder = Encoder::new(Vec::new());
    encoder.visit_seq(&vec![Value::U8(1), Value::Sequence(vec![]), Value::U8(2)]);
    encoder.visit_seq_elt(&Value::U8(3));
    encoder.visit_map_elt(&Value::U8(4), &Value::U8(5));
    assert_eq!(written(encoder), "[1,[],2],3,4:5");
    let mut encoder = Encoder::pretty(Vec::new());
    encoder.visit_map(&vec![(Value::U8(1), Value::Sequence(vec![Value::U8(2)]))]);
    assert_eq!(written(encoder), "{\n  1: [\n    2\n  ]\n}");
    let mut encoder = Encoder::pretty(Vec::new());
    encoder.visit_enum_seq("Foo", "Bar", &vec![]);
    encoder.visit_enum_map("Foo", "Baz", &vec![(Value::U8(1), Value::U8(2))]);
    assert_eq!(written(encoder), "{\n  \"Bar\": []\n}{\n  \"Baz\": {\n    1: 2\n  }\n}");
}

#[test]
fn formatters_write_punctuation() {
    let mut out = Vec::new();
    let mut compact = CompactFormatter;
    compact.open(&mut out, b'[');
    compact.comma(&mut out, true);
    compact.comma(&mut out, false);
    compact.colon(&mut out);
    compact.close(&mut out, b']');
    assert_eq!(out, b"[,:]".to_vec());
    let mut out = Vec::new();
    let mut pretty = PrettyFormatter::with_indent(b"\t");
    pretty.open(&mut out, b'{');
    pretty.open(&mut out, b'[');
    pretty.comma(&mut out, true);
    pretty.comma(&mut out, false);
    pretty.colon(&mut out);
    pretty.close(&mut out, b']');
    pretty.close(&mut out, b'}');
    assert_eq!(out, b"{[\n\t\t,\n\t\t: \n\t]\n}".to_vec());
    let mut out = b">".to_vec();
    indent(&mut out, 3, b"ab");
    assert_eq!(out, b">ababab".to_vec());
    indent(&mut out, 0, b"ab");
    assert_eq!(out, b">ababab".to_vec());
}

#[test]
fn custom_indentation() {
    let value = Value::Sequence(vec![Value::U8(1), Value::U8(2)]);
    let mut encoder = Encoder::with_formatter(Vec::new(), PrettyFormatter::with_indent(b"    "));
    value.serialize(&mut encoder);
    assert_eq!(written(encoder), "[\n    1,\n    2\n]");
    assert_eq!(to_vec_pretty(&value), b"[\n  1,\n  2\n]".to_vec());
}

#[test]
fn pretty_formatter_admits_what_it_can_count() {
    let deep = Value::Sequence(vec![Value::Mapping(vec![(
        Value::Unit,
        Value::Optional(Some(Box::new(Value::Sequence(vec![Value::Unit])))),
    )])]);
    assert!(PrettyFormatter::new().admits(&deep));
    assert!(PrettyFormatter::new().admits(&Value::Unit));
}

#[test]
fn lexer_tracks_lines_and_columns() {
    let mut lexer = Lexer::new(b"a\nbc\n");
    assert_eq!(lexer.position(), (1, 1));
    assert_eq!(lexer.peek(), Some(b'a'));
    assert_eq!(lexer.consumed(), 0);
    lexer.bump();
    assert_eq!(lexer.position(), (1, 2));
    assert_eq!(lexer.peek(), Some(b'\n'));
    lexer.bump();
    assert_eq!(lexer.position(), (2, 1));
    lexer.bump();
    lexer.bump();
    assert_eq!(lexer.position(), (2, 3));
    assert_eq!(lexer.span(2), b"bc");
    assert!(!lexer.at_end());
    assert!(matches!(
        lexer.error(ErrorCode::ExpectedColon),
        Error::Syntax(ErrorCode::ExpectedColon, 2, 3)
    ));
    lexer.bump();
    assert_eq!(lexer.position(), (3, 1));
    assert_eq!(lexer.consumed(), 5);
    assert!(lexer.at_end());
    assert_eq!(lexer.peek(), None);
}

#[test]
fn decoder_reads_one_value_after_another() {
    let mut decoder = Decoder::new(b" 1 true\n()  x");
    assert_eq!(decoder.parse_value(&Shape::Int(IntKind::I8)).unwrap(), Value::I8(1));
    assert_eq!(decoder.parse_value(&Shape::Bool).unwrap(), Value::Bool(true));
    assert_eq!(decoder.parse_value(&Shape::Unit).unwrap(), Value::Unit);
    assert!(matches!(decoder.end(), Err(Error::Syntax(ErrorCode::TrailingCharacters, 2, 5))));
    let mut decoder = Decoder::new(b"() \n");
    assert_eq!(decoder.parse_value(&Shape::Unit).unwrap(), Value::Unit);
    assert!(decoder.end().is_ok());
}

#[test]
fn integers_of_texts() {
    assert_eq!(integer_value(b"12", IntKind::U8), Some(Value::U8(12)));
    assert_eq!(integer_value(b"+12", IntKind::I16), Some(Value::I16(12)));
    assert_eq!(integer_value(b"-12", IntKind::Isize), Some(Value::Isize(-12)));
    assert_eq!(integer_value(b"", IntKind::U8), None);
    assert_eq!(integer_value(b"+", IntKind::U8), None);
    assert_eq!(integer_value(b"1a", IntKind::U8), None);
    assert_eq!(integer_value(b"300", IntKind::U8), None);
    assert_eq!(integer_value(b"-2147483648", IntKind::I32), Some(Value::I32(i32::MIN)));
    assert_eq!(integer_value(b"-2147483649", IntKind::I32), None);
    assert_eq!(integer_value(b"4294967296", IntKind::U32), None);
}

#[test]
fn decimal_texts() {
    assert_eq!(decimal_text(false, 0), b"0".to_vec());
    assert_eq!(decimal_text(true, 9223372036854775808), b"-9223372036854775808".to_vec());
    let mut out = b"n=".to_vec();
    push_digits(&mut out, 1050);
    push_decimal(&mut out, true, 7);
    assert_eq!(out, b"n=1050-7".to_vec());
    let mut text = String::from("n=");
    push_decimal_text(&mut text, 90210);
    assert_eq!(text, "n=90210");
}

#[test]
fn bytes_of_texts() {
    let mut out = Vec::new();
    push_char(&mut out, 'a');
    push_char(&mut out, '\u{e9}');
    push_char(&mut out, '\u{20ac}');
    push_char(&mut out, '\u{1f600}');
    push_bytes(&mut out, b"!");
    assert_eq!(out, "a\u{e9}\u{20ac}\u{1f600}!".as_bytes().to_vec());
    assert!(bytes_equal(b"abc", b"abc"));
    assert!(!bytes_equal(b"abc", b"abd"));
    assert!(!bytes_equal(b"abc", b"ab"));
    assert!(bytes_equal(b"", b""));
}

#[test]
fn declared_names_are_found() {
    let variants = vec![
        VariantShape { name: "A", payload: PayloadShape::Unit },
        VariantShape { name: "B", payload: PayloadShape::Unit },
        VariantShape { name: "A", payload: PayloadShape::Sequence(Shape::Unit) },
    ];
    assert_eq!(find_variant(&variants, b"A"), 0);
    assert_eq!(find_variant(&variants, b"B"), 1);
    assert_eq!(find_variant(&variants, b"C"), 3);
    assert_eq!(find_variant(&variants, b"a"), 3);
    let fields = vec![
        FieldShape { name: "x", shape: Shape::Unit },
        FieldShape { name: "y\u{e9}", shape: Shape::Unit },
    ];
    assert_eq!(find_field(&fields, b"x"), 0);
    assert_eq!(find_field(&fields, "y\u{e9}".as_bytes()), 1);
    assert_eq!(find_field(&fields, b"y"), 2);
    assert_eq!(find_field(&Vec::new(), b"y"), 0);
}
