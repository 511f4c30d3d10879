//! What is written is read back: for every value that needs no escape, the
//! text that the encoder writes for it is read by the grammar as that value.

use vstd::prelude::*;
use vstd::utf8::*;
use crate::decode::{decoded, lemma_digit_run};
use crate::encode::{
    CompactFormatter,
    Formatter,
    PrettyFormatter,
    elements_encoding,
    empty_mapping_text,
    empty_sequence_text,
    encoding,
    entries_encoding,
    escaped,
    mapping_encoding,
    sequence_encoding,
    tagged_encoding,
    unit_text,
    variant_marker,
};
use crate::error::{Error, ErrorCode};
use crate::grammar::{
    CLOSE_BRACE,
    CLOSE_BRACKET,
    COLON,
    COMMA,
    DOT,
    DOUBLE_QUOTE,
    MARKER_LEAD,
    MARKER_TAIL,
    OPEN_BRACE,
    OPEN_BRACKET,
    OPEN_PAREN,
    Parsed,
    SINGLE_QUOTE,
    after_sign,
    bare_variant_at,
    digit_run,
    document,
    element_start,
    entries_at,
    fields_at,
    first_missing,
    ident_len,
    ident_run,
    is_blank,
    is_digit,
    is_ident_part,
    is_ident_start,
    items_at,
    peek,
    record_at,
    record_of,
    skip_blank,
    starts_value,
    tagged_variant_at,
    text_at,
    value_at,
};
use crate::layout::{
    always_plain,
    is_closing,
    is_separator,
    lemma_compact_is_plain,
    lemma_plain_step,
    lemma_pretty_is_plain,
    lemma_two_spaces,
    plain,
    plain_here,
};
use crate::number::{digits, lemma_digits_are_digits};
use crate::reading::{
    ends_token,
    is_blank_text,
    is_float_literal,
    lemma_ascii_char_bytes,
    lemma_bool_reads,
    lemma_char_reads,
    lemma_decimal_value,
    lemma_float_reads,
    lemma_integer_reads,
    lemma_marker_bytes,
    lemma_quoted_reads,
    lemma_skip_blanks,
    lemma_stands_is_subrange,
    lemma_stands_split,
    lemma_string_reads,
    lemma_unit_reads,
    needs_no_escape,
    stands_at,
};
use crate::shape::{EntryShape, FieldShape, PayloadShape, Shape, VariantShape, variant_index};
use crate::text::char_bytes;
use crate::value::{PayloadView, Value, ValueView};

verus! {

/// Whether `name` is an identifier: a letter or an underscore, then letters,
/// digits and underscores.
pub open spec fn is_identifier(name: Seq<u8>) -> bool {
    &&& name.len() > 0
    &&& is_ident_start(name[0] as int)
    &&& forall|i: int| 0 <= i < name.len() ==> is_ident_part(#[trigger] name[i] as int)
}

/// Whether the text of `v` starts with an opening parenthesis: whether `v` is
/// written as the unit token.
pub open spec fn opens_with_paren(v: ValueView) -> bool
    decreases v,
{
    match v {
        ValueView::Unit => true,
        ValueView::Optional(None) => true,
        ValueView::Optional(Some(inner)) => opens_with_paren(*inner),
        _ => false,
    }
}

/// Whether each of `items` is of the shape `elem`.
pub open spec fn items_are_of(items: Seq<ValueView>, elem: Shape) -> bool
    decreases items,
{
    forall|i: int| 0 <= i < items.len() ==> is_of(#[trigger] items[i], elem)
}

/// Whether each of `entries` is of the shape `entry`.
pub open spec fn entries_are_of(entries: Seq<(ValueView, ValueView)>, entry: EntryShape) -> bool
    decreases entries,
{
    forall|i: int|
        0 <= i < entries.len() ==> is_of((#[trigger] entries[i]).0, entry.key) && is_of(
            entries[i].1,
            entry.value,
        )
}

/// Whether the variant of the name `variant` that carries `payload` is one of
/// the declared `variants`: the first of them with that name carries the like,
/// and the name can be written as it must be.
pub open spec fn payload_is_of(
    variant: Seq<char>,
    payload: PayloadView,
    variants: Seq<VariantShape>,
) -> bool
    decreases payload,
{
    let index = variant_index(variants, encode_utf8(variant));
    &&& 0 <= index < variants.len()
    &&& match payload {
        PayloadView::Unit => variants[index].payload is Unit && is_identifier(
            encode_utf8(variant),
        ),
        PayloadView::Sequence(items) => {
            &&& variants[index].payload matches PayloadShape::Sequence(elem)
            &&& items_are_of(items, elem)
            &&& needs_no_escape(encode_utf8(variant), DOUBLE_QUOTE)
        },
        PayloadView::Mapping(entries) => {
            &&& variants[index].payload matches PayloadShape::Mapping(entry)
            &&& entries_are_of(entries, entry)
            &&& needs_no_escape(encode_utf8(variant), DOUBLE_QUOTE)
        },
    }
}

/// Whether the value `v` is of the shape `shape` and can be written as it is:
/// its texts need no escape, and its floating-point numbers are number
/// literals. A mapping is of the shape of a record only where both are empty:
/// the keys of a mapping are written as values, those of a record are read as
/// identifiers.
pub open spec fn is_of(v: ValueView, shape: Shape) -> bool
    decreases v,
{
    match v {
        ValueView::Unit => shape is Unit,
        ValueView::Bool(_) => shape is Bool,
        ValueView::Int(kind, n) => shape == Shape::Int(kind) && kind.holds(n),
        ValueView::Float(kind, text) => shape == Shape::Float(kind) && is_float_literal(text),
        ValueView::Char(c) => shape is Char && needs_no_escape(char_bytes(c), SINGLE_QUOTE),
        ValueView::Str(text) => shape is Str && needs_no_escape(encode_utf8(text), DOUBLE_QUOTE),
        ValueView::Optional(None) => shape is Optional,
        ValueView::Optional(Some(inner)) => {
            &&& shape matches Shape::Optional(of)
            &&& is_of(*inner, *of)
        },
        ValueView::Sequence(items) => {
            &&& shape matches Shape::Sequence(elem)
            &&& items_are_of(items, *elem)
        },
        ValueView::Mapping(entries) => match shape {
            Shape::Mapping(entry) => entries_are_of(entries, *entry),
            Shape::Record(fields) => entries.len() == 0 && fields@.len() == 0,
            _ => false,
        },
        ValueView::Variant(name, variant, payload) => {
            &&& shape matches Shape::Enum(declared, variants)
            &&& name == declared@
            &&& payload_is_of(variant, payload, variants@)
        },
    }
}

/// What is read of the text of `items`, each for itself.
pub open spec fn items_read_back(items: Seq<ValueView>) -> Seq<ValueView>
    decreases items,
{
    Seq::new(
        items.len(),
        |i: int|
            if 0 <= i < items.len() {
                read_back(items[i])
            } else {
                ValueView::Unit
            },
    )
}

/// What is read of the text of `entries`, each key and each value for itself.
pub open spec fn entries_read_back(entries: Seq<(ValueView, ValueView)>) -> Seq<
    (ValueView, ValueView),
>
    decreases entries,
{
    Seq::new(
        entries.len(),
        |i: int|
            if 0 <= i < entries.len() {
                (read_back(entries[i].0), read_back(entries[i].1))
            } else {
                (ValueView::Unit, ValueView::Unit)
            },
    )
}

/// What is read of the text of what a variant carries.
pub open spec fn payload_read_back(payload: PayloadView) -> PayloadView
    decreases payload,
{
    match payload {
        PayloadView::Unit => PayloadView::Unit,
        PayloadView::Sequence(items) => PayloadView::Sequence(items_read_back(items)),
        PayloadView::Mapping(entries) => PayloadView::Mapping(entries_read_back(entries)),
    }
}

/// What is read of the text of the value `v`: the value itself, but for the
/// optional values in it that are present and written as the unit token, which
/// are read as absent ones.
pub open spec fn read_back(v: ValueView) -> ValueView
    decreases v,
{
    match v {
        ValueView::Optional(Some(inner)) => if opens_with_paren(*inner) {
            ValueView::Optional(None)
        } else {
            ValueView::Optional(Some(Box::new(read_back(*inner))))
        },
        ValueView::Sequence(items) => ValueView::Sequence(items_read_back(items)),
        ValueView::Mapping(entries) => ValueView::Mapping(entries_read_back(entries)),
        ValueView::Variant(name, variant, payload) => ValueView::Variant(
            name,
            variant,
            payload_read_back(payload),
        ),
        _ => v,
    }
}

/// Whether the value `v` is read back with the shape `shape` as it is: it is
/// of that shape and can be written as it is, and no optional value in it is
/// present and written as the unit token.
pub open spec fn conforms(v: ValueView, shape: Shape) -> bool {
    is_of(v, shape) && read_back(v) == v
}

/// Whether each of `items` shows its optional values.
pub open spec fn items_show_options(items: Seq<ValueView>) -> bool
    decreases items,
{
    forall|i: int| 0 <= i < items.len() ==> shows_options(#[trigger] items[i])
}

/// Whether each key and each value of `entries` shows its optional values.
pub open spec fn entries_show_options(entries: Seq<(ValueView, ValueView)>) -> bool
    decreases entries,
{
    forall|i: int|
        0 <= i < entries.len() ==> shows_options((#[trigger] entries[i]).0) && shows_options(
            entries[i].1,
        )
}

/// Whether no optional value in `v` is present and written as the unit token:
/// whether the text of `v` shows which of its optional values are present.
pub open spec fn shows_options(v: ValueView) -> bool
    decreases v,
{
    match v {
        ValueView::Optional(Some(inner)) => !opens_with_paren(*inner) && shows_options(*inner),
        ValueView::Sequence(items) => items_show_options(items),
        ValueView::Mapping(entries) => entries_show_options(entries),
        ValueView::Variant(_, _, PayloadView::Sequence(items)) => items_show_options(items),
        ValueView::Variant(_, _, PayloadView::Mapping(entries)) => entries_show_options(entries),
        _ => true,
    }
}

/// Items that show their optional values are read back as they are.
pub proof fn lemma_shown_items_are_read(items: Seq<ValueView>)
    requires
        items_show_options(items),
    ensures
        items_read_back(items) == items,
    decreases items, 0nat,
{
    assert forall|i: int| 0 <= i < items.len() implies items_read_back(items)[i] == items[i] by {
        lemma_shown_options_are_read(items[i]);
    }
    assert(items_read_back(items) =~= items);
}

/// Entries that show their optional values are read back as they are.
pub proof fn lemma_shown_entries_are_read(entries: Seq<(ValueView, ValueView)>)
    requires
        entries_show_options(entries),
    ensures
        entries_read_back(entries) == entries,
    decreases entries, 0nat,
{
    assert forall|i: int| 0 <= i < entries.len() implies entries_read_back(entries)[i]
        == entries[i] by {
        lemma_shown_options_are_read(entries[i].0);
        lemma_shown_options_are_read(entries[i].1);
    }
    assert(entries_read_back(entries) =~= entries);
}

/// A value that shows its optional values is read back as it is.
pub proof fn lemma_shown_options_are_read(v: ValueView)
    requires
        shows_options(v),
    ensures
        read_back(v) == v,
    decreases v, 1nat,
{
    match v {
        ValueView::Optional(Some(inner)) => {
            lemma_shown_options_are_read(*inner);
            assert(Box::new(*inner) == inner);
        },
        ValueView::Sequence(items) => {
            lemma_shown_items_are_read(items);
        },
        ValueView::Mapping(entries) => {
            lemma_shown_entries_are_read(entries);
        },
        ValueView::Variant(_, _, payload) => {
            match payload {
                PayloadView::Sequence(items) => {
                    lemma_shown_items_are_read(items);
                },
                PayloadView::Mapping(entries) => {
                    lemma_shown_entries_are_read(entries);
                },
                PayloadView::Unit => {},
            }
            assert(payload_read_back(payload) == payload);
        },
        _ => {},
    }
}

/// A value that is written as the unit token is written as that by every
/// formatter.
pub proof fn lemma_paren_text<F: Formatter>(v: ValueView, shape: Shape, f: F)
    requires
        is_of(v, shape),
        opens_with_paren(v),
    ensures
        encoding(v, f) == unit_text(),
    decreases v,
{
    match v {
        ValueView::Optional(Some(inner)) => {
            lemma_paren_text(*inner, *shape->Optional_0, f);
        },
        _ => {},
    }
}

/// The text of a value of a shape is not empty, and starts with a byte that
/// can start a value: with an opening parenthesis exactly where the value is
/// written as the unit token.
pub proof fn lemma_head<F: Formatter>(v: ValueView, shape: Shape, f: F)
    requires
        is_of(v, shape),
        plain_here(f),
    ensures
        encoding(v, f).len() > 0,
        starts_value(encoding(v, f)[0] as int),
        (encoding(v, f)[0] == OPEN_PAREN) == opens_with_paren(v),
    decreases v,
{
    let text = encoding(v, f);
    match v {
        ValueView::Unit => {
            assert(text[0] == OPEN_PAREN);
        },
        ValueView::Bool(b) => {
            assert(text[0] == 116 || text[0] == 102);
        },
        ValueView::Int(_, n) => {
            lemma_decimal_value(n);
            if n >= 0 {
                lemma_digits_are_digits(n as nat);
                assert(48 <= digits(n as nat)[0] <= 57);
            }
        },
        ValueView::Float(_, chars) => {
            let bytes = encode_utf8(chars);
            let signed = after_sign(bytes, 0);
            lemma_digit_run(bytes, signed);
            assert(bytes.len() > 0);
            if signed == 0 {
                if digit_run(bytes, 0) > 0 {
                    assert(is_digit(bytes[0] as int));
                } else {
                    assert(peek(bytes, 0) == DOT);
                }
            }
        },
        ValueView::Char(c) => {
            lemma_ascii_char_bytes('\'');
            assert(text[0] == SINGLE_QUOTE);
        },
        ValueView::Str(chars) => {
            lemma_ascii_char_bytes('"');
            assert(text[0] == DOUBLE_QUOTE);
        },
        ValueView::Optional(None) => {
            assert(text[0] == OPEN_PAREN);
        },
        ValueView::Optional(Some(inner)) => {
            lemma_head(*inner, *shape->Optional_0, f);
        },
        ValueView::Sequence(items) => {
            assert(f.open_text(OPEN_BRACKET) == seq![OPEN_BRACKET]);
            assert(text == sequence_encoding(items, f));
            if items.len() > 0 {
                assert(text == f.open_text(OPEN_BRACKET) + elements_encoding(
                    items,
                    f.opened(),
                    items.len() as int,
                ) + f.opened().close_text(CLOSE_BRACKET));
            } else {
                assert(text == empty_sequence_text());
            }
            assert(text[0] == OPEN_BRACKET);
        },
        ValueView::Mapping(entries) => {
            assert(f.open_text(OPEN_BRACE) == seq![OPEN_BRACE]);
            assert(text == mapping_encoding(entries, f));
            if entries.len() > 0 {
                assert(text == f.open_text(OPEN_BRACE) + entries_encoding(
                    entries,
                    f.opened(),
                    entries.len() as int,
                ) + f.opened().close_text(CLOSE_BRACE));
            } else {
                assert(text == empty_mapping_text());
            }
            assert(text[0] == OPEN_BRACE);
        },
        ValueView::Variant(_, variant, payload) => {
            lemma_marker_bytes();
            assert(f.open_text(OPEN_BRACE) == seq![OPEN_BRACE]);
            match payload {
                PayloadView::Unit => {
                    assert(text[0] == MARKER_LEAD);
                },
                _ => {
                    assert(text[0] == OPEN_BRACE);
                },
            }
        },
    }
}

/// A text that stands in the input stands there without its first byte, one
/// byte on.
pub proof fn lemma_stands_tail(input: Seq<u8>, at: int, text: Seq<u8>)
    requires
        stands_at(input, at, text),
        text.len() > 0,
    ensures
        peek(input, at) == text[0],
        stands_at(input, at + 1, text.drop_first()),
{
    assert(text =~= seq![text[0]] + text.drop_first());
    lemma_stands_split(input, at, seq![text[0]], text.drop_first());
    assert(input[at + 0] == text[0]);
}

/// A text that stands in the input stands there without its last byte.
pub proof fn lemma_stands_front(input: Seq<u8>, at: int, text: Seq<u8>)
    requires
        stands_at(input, at, text),
        text.len() > 0,
    ensures
        peek(input, at + text.len() - 1) == text.last(),
        stands_at(input, at, text.drop_last()),
{
    assert(text =~= text.drop_last() + seq![text.last()]);
    lemma_stands_split(input, at, text.drop_last(), seq![text.last()]);
    assert(input[at + (text.len() - 1)] == text[text.len() - 1]);
}

/// Behind the whitespace that stands before the first element of a
/// collection, the element starts.
pub proof fn lemma_first_element(
    input: Seq<u8>,
    at: int,
    gap: Seq<u8>,
    close: u8,
    expected: ErrorCode,
    ended: ErrorCode,
)
    requires
        stands_at(input, at, gap),
        is_blank_text(gap),
        starts_value(peek(input, at + gap.len())),
        close == CLOSE_BRACKET || close == CLOSE_BRACE,
    ensures
        element_start(input, at, true, close, expected, ended) == Parsed::<bool>::Done(
            true,
            at + gap.len(),
        ),
{
    lemma_skip_blanks(input, at, gap);
}

/// Behind the comma and the whitespace that stand before a later element of a
/// collection, the element starts.
pub proof fn lemma_next_element(
    input: Seq<u8>,
    at: int,
    gap: Seq<u8>,
    close: u8,
    expected: ErrorCode,
    ended: ErrorCode,
)
    requires
        stands_at(input, at, gap),
        is_separator(gap, COMMA),
        starts_value(peek(input, at + gap.len())),
        close == CLOSE_BRACKET || close == CLOSE_BRACE,
    ensures
        element_start(input, at, false, close, expected, ended) == Parsed::<bool>::Done(
            true,
            at + gap.len(),
        ),
{
    lemma_stands_tail(input, at, gap);
    lemma_skip_blanks(input, at + 1, gap.drop_first());
}

/// Behind the whitespace that stands before the closing delimiter of a
/// collection, the collection ends.
pub proof fn lemma_closing(
    input: Seq<u8>,
    at: int,
    gap: Seq<u8>,
    close: u8,
    first: bool,
    expected: ErrorCode,
    ended: ErrorCode,
)
    requires
        stands_at(input, at, gap),
        is_closing(gap, close),
        close == CLOSE_BRACKET || close == CLOSE_BRACE,
    ensures
        element_start(input, at, first, close, expected, ended) == Parsed::<bool>::Done(
            false,
            at + gap.len(),
        ),
{
    lemma_stands_front(input, at, gap);
    lemma_skip_blanks(input, at, gap.drop_last());
}

/// A separator starts with its mark, which ends the token before it; so does
/// what closes a collection.
pub proof fn lemma_gap_ends_token(input: Seq<u8>, at: int, gap: Seq<u8>, mark: u8)
    requires
        stands_at(input, at, gap),
        is_separator(gap, mark) || is_closing(gap, mark),
        mark == COMMA || mark == COLON || mark == CLOSE_BRACKET || mark == CLOSE_BRACE,
    ensures
        ends_token(peek(input, at)),
{
    assert(input[at + 0] == gap[0]);
    if is_closing(gap, mark) && gap.len() > 1 {
        assert(gap.drop_last()[0] == gap[0]);
    }
}

/// The text of the first elements of a sequence, one more element on.
pub proof fn lemma_elements_step<F: Formatter>(items: Seq<ValueView>, f: F, k: int)
    requires
        0 <= k < items.len(),
    ensures
        elements_encoding(items, f, k + 1) == elements_encoding(items, f, k) + f.comma_text(
            k == 0,
        ) + encoding(items[k], f),
{
}

/// Where the text of the first elements of a sequence stands, the text of
/// fewer of them stands too.
pub proof fn lemma_elements_prefix<F: Formatter>(
    input: Seq<u8>,
    start: int,
    items: Seq<ValueView>,
    f: F,
    k: int,
    n: int,
)
    requires
        0 <= k <= n <= items.len(),
        stands_at(input, start, elements_encoding(items, f, n)),
    ensures
        stands_at(input, start, elements_encoding(items, f, k)),
        elements_encoding(items, f, k).len() <= elements_encoding(items, f, n).len(),
    decreases n - k,
{
    if k < n {
        lemma_elements_step(items, f, n - 1);
        let before = elements_encoding(items, f, n - 1);
        let gap = f.comma_text(n - 1 == 0);
        lemma_stands_split(input, start, before + gap, encoding(items[n - 1], f));
        lemma_stands_split(input, start, before, gap);
        lemma_elements_prefix(input, start, items, f, k, n - 1);
    }
}

/// The text of the first entries of a mapping, one more entry on.
pub proof fn lemma_entries_step<F: Formatter>(entries: Seq<(ValueView, ValueView)>, f: F, k: int)
    requires
        0 <= k < entries.len(),
    ensures
        entries_encoding(entries, f, k + 1) == entries_encoding(entries, f, k) + f.comma_text(
            k == 0,
        ) + encoding(entries[k].0, f) + f.colon_text() + encoding(entries[k].1, f),
{
}

/// Where the text of the first entries of a mapping stands, the text of fewer
/// of them stands too.
pub proof fn lemma_entries_prefix<F: Formatter>(
    input: Seq<u8>,
    start: int,
    entries: Seq<(ValueView, ValueView)>,
    f: F,
    k: int,
    n: int,
)
    requires
        0 <= k <= n <= entries.len(),
        stands_at(input, start, entries_encoding(entries, f, n)),
    ensures
        stands_at(input, start, entries_encoding(entries, f, k)),
        entries_encoding(entries, f, k).len() <= entries_encoding(entries, f, n).len(),
    decreases n - k,
{
    if k < n {
        lemma_entries_step(entries, f, n - 1);
        let before = entries_encoding(entries, f, n - 1);
        let gap = f.comma_text(n - 1 == 0);
        let key = encoding(entries[n - 1].0, f);
        let colon = f.colon_text();
        lemma_stands_split(input, start, before + gap + key + colon, encoding(entries[n - 1].1, f));
        lemma_stands_split(input, start, before + gap + key, colon);
        lemma_stands_split(input, start, before + gap, key);
        lemma_stands_split(input, start, before, gap);
        lemma_entries_prefix(input, start, entries, f, k, n - 1);
    }
}

/// A value is read behind whitespace as it is read where it starts.
pub proof fn lemma_value_behind_blanks(input: Seq<u8>, from: int, at: int, shape: Shape)
    requires
        skip_blank(input, from) == at,
        skip_blank(input, at) == at,
    ensures
        value_at(input, from, shape) == value_at(input, at, shape),
{
}

/// The index that a name is found at is an index, or the number of variants.
pub proof fn lemma_variant_index_bounds(variants: Seq<VariantShape>, name: Seq<u8>)
    ensures
        0 <= variant_index(variants, name) <= variants.len(),
    decreases variants.len(),
{
    if variants.len() > 0 && encode_utf8(variants[0].name@) != name {
        lemma_variant_index_bounds(variants.drop_first(), name);
    }
}

/// The first declared variant of a name has that name.
pub proof fn lemma_variant_found(variants: Seq<VariantShape>, name: Seq<char>)
    requires
        0 <= variant_index(variants, encode_utf8(name)) < variants.len(),
    ensures
        variants[variant_index(variants, encode_utf8(name))].name@ == name,
    decreases variants.len(),
{
    let bytes = encode_utf8(name);
    assert(variants.len() > 0);
    if encode_utf8(variants[0].name@) == bytes {
        encode_utf8_decode_utf8(variants[0].name@);
        encode_utf8_decode_utf8(name);
    } else {
        let rest = variants.drop_first();
        assert(variant_index(variants, bytes) == 1 + variant_index(rest, bytes));
        lemma_variant_index_bounds(rest, bytes);
        lemma_variant_found(rest, name);
        assert(rest[variant_index(rest, bytes)] == variants[variant_index(rest, bytes) + 1]);
    }
}

/// An identifier that stands in the input before a byte that cannot stand in
/// one is the whole identifier there.
pub proof fn lemma_ident_run_over(input: Seq<u8>, at: int, name: Seq<u8>)
    requires
        stands_at(input, at, name),
        forall|i: int| 0 <= i < name.len() ==> is_ident_part(#[trigger] name[i] as int),
        !is_ident_part(peek(input, at + name.len())),
    ensures
        ident_run(input, at) == name.len(),
    decreases name.len(),
{
    if name.len() > 0 {
        lemma_stands_tail(input, at, name);
        let rest = name.drop_first();
        assert forall|i: int| 0 <= i < rest.len() implies is_ident_part(#[trigger] rest[i] as int) by {
            assert(name[i + 1] == rest[i]);
        }
        lemma_ident_run_over(input, at + 1, rest);
    }
}

/// Where the name of a variant that carries nothing stands in the input
/// between two markers, the variant is read.
pub proof fn lemma_bare_variant_reads(
    input: Seq<u8>,
    at: int,
    name: Seq<char>,
    variant: Seq<char>,
    variants: Seq<VariantShape>,
)
    requires
        payload_is_of(variant, PayloadView::Unit, variants),
        stands_at(input, at, escaped(encode_utf8(variant), variant_marker())),
    ensures
        peek(input, at) == MARKER_LEAD,
        bare_variant_at(input, at, name, variants) == Parsed::<ValueView>::Done(
            ValueView::Variant(name, variant, PayloadView::Unit),
            at + escaped(encode_utf8(variant), variant_marker()).len(),
        ),
{
    let ident = encode_utf8(variant);
    let marker = seq![MARKER_LEAD, MARKER_TAIL];
    lemma_marker_bytes();
    lemma_stands_split(input, at, marker + ident, marker);
    lemma_stands_split(input, at, marker, ident);
    assert(input[at + 0] == marker[0]);
    assert(input[at + 1] == marker[1]);
    let start = at + 2;
    let stop = start + ident.len();
    assert(input[stop + 0] == marker[0]);
    assert(input[stop + 1] == marker[1]);
    lemma_stands_tail(input, start, ident);
    lemma_ident_run_over(input, start, ident);
    assert(ident_len(input, start) == ident.len());
    lemma_stands_is_subrange(input, start, ident);
    lemma_variant_found(variants, variant);
}

/// Where the text of the rest of a sequence stands in the input, from its
/// element of index `k` on and up to its closing bracket, the elements read
/// there are those.
pub proof fn lemma_items_read<F: Formatter>(
    input: Seq<u8>,
    start: int,
    items: Seq<ValueView>,
    elem: Shape,
    f: F,
    k: int,
)
    requires
        items_are_of(items, elem),
        always_plain(f),
        0 <= k <= items.len(),
        stands_at(
            input,
            start,
            elements_encoding(items, f, items.len() as int) + f.close_text(CLOSE_BRACKET),
        ),
    ensures
        items_at(input, start + elements_encoding(items, f, k).len(), elem, k == 0) == Parsed::<
            Seq<ValueView>,
        >::Done(
            items_read_back(items).subrange(k, items.len() as int),
            start + elements_encoding(items, f, items.len() as int).len() + f.close_text(
                CLOSE_BRACKET,
            ).len(),
        ),
    decreases items, items.len() - k,
{
    let n = items.len() as int;
    let whole = elements_encoding(items, f, n);
    let closing = f.close_text(CLOSE_BRACKET);
    lemma_plain_step(f);
    lemma_stands_split(input, start, whole, closing);
    let here = start + elements_encoding(items, f, k).len();
    if k == n {
        lemma_closing(
            input,
            here,
            closing,
            CLOSE_BRACKET,
            k == 0,
            ErrorCode::ExpectedListCommaOrEnd,
            ErrorCode::EOFWhileParsingArray,
        );
        assert(items_read_back(items).subrange(k, n) =~= Seq::<ValueView>::empty());
    } else {
        let gap = f.comma_text(k == 0);
        let text = encoding(items[k], f);
        lemma_elements_step(items, f, k);
        lemma_elements_prefix(input, start, items, f, k + 1, n);
        lemma_stands_split(input, start, elements_encoding(items, f, k) + gap, text);
        lemma_stands_split(input, start, elements_encoding(items, f, k), gap);
        let there = here + gap.len();
        let next = there + text.len();
        lemma_head(items[k], elem, f);
        assert(input[there + 0] == text[0]);
        if k == 0 {
            lemma_first_element(
                input,
                here,
                gap,
                CLOSE_BRACKET,
                ErrorCode::ExpectedListCommaOrEnd,
                ErrorCode::EOFWhileParsingArray,
            );
        } else {
            lemma_next_element(
                input,
                here,
                gap,
                CLOSE_BRACKET,
                ErrorCode::ExpectedListCommaOrEnd,
                ErrorCode::EOFWhileParsingArray,
            );
        }
        if k + 1 < n {
            lemma_elements_step(items, f, k + 1);
            lemma_elements_prefix(input, start, items, f, k + 2, n);
            let later = f.comma_text(false);
            lemma_stands_split(
                input,
                start,
                elements_encoding(items, f, k + 1) + later,
                encoding(items[k + 1], f),
            );
            lemma_stands_split(input, start, elements_encoding(items, f, k + 1), later);
            lemma_gap_ends_token(input, next, later, COMMA);
        } else {
            lemma_gap_ends_token(input, next, closing, CLOSE_BRACKET);
        }
        lemma_value_reads(input, there, items[k], elem, f);
        lemma_items_read(input, start, items, elem, f, k + 1);
        let read = items_read_back(items);
        assert(read[k] == read_back(items[k]));
        assert(seq![read_back(items[k])] + read.subrange(k + 1, n) =~= read.subrange(k, n));
    }
}

/// Where the text of a sequence stands in the input, the elements read behind
/// its opening bracket are its elements.
pub proof fn lemma_sequence_reads<F: Formatter>(
    input: Seq<u8>,
    at: int,
    items: Seq<ValueView>,
    elem: Shape,
    f: F,
)
    requires
        items_are_of(items, elem),
        always_plain(f),
        stands_at(input, at, sequence_encoding(items, f)),
    ensures
        peek(input, at) == OPEN_BRACKET,
        items_at(input, at + 1, elem, true) == Parsed::<Seq<ValueView>>::Done(
            items_read_back(items),
            at + sequence_encoding(items, f).len(),
        ),
    decreases items, items.len() + 1,
{
    let text = sequence_encoding(items, f);
    lemma_plain_step(f);
    lemma_plain_step(f.opened());
    if items.len() == 0 {
        assert(input[at + 0] == text[0]);
        assert(input[at + 1] == text[1]);
        assert(skip_blank(input, at + 1) == at + 1);
        assert(items_read_back(items) =~= Seq::<ValueView>::empty());
    } else {
        let inner = f.opened();
        let body = elements_encoding(items, inner, items.len() as int);
        let closing = inner.close_text(CLOSE_BRACKET);
        assert(f.open_text(OPEN_BRACKET) == seq![OPEN_BRACKET]);
        assert(text == seq![OPEN_BRACKET] + body + closing);
        assert(text =~= seq![OPEN_BRACKET] + (body + closing));
        lemma_stands_split(input, at, seq![OPEN_BRACKET], body + closing);
        assert(input[at + 0] == seq![OPEN_BRACKET][0]);
        lemma_items_read(input, at + 1, items, elem, inner, 0);
        assert(items_read_back(items).subrange(0, items.len() as int) =~= items_read_back(
            items,
        ));
    }
}

/// The text of one entry of a mapping, with what stands before it.
pub open spec fn entry_encoding<F: Formatter>(pair: (ValueView, ValueView), f: F, first: bool) -> Seq<
    u8,
> {
    f.comma_text(first) + encoding(pair.0, f) + f.colon_text() + encoding(pair.1, f)
}

/// Where the text of one entry of a mapping stands in the input before a byte
/// that ends a token, the entry's key is read where it starts, a colon stands
/// behind it, and its value is read behind the colon.
pub proof fn lemma_entry_reads<F: Formatter>(
    input: Seq<u8>,
    here: int,
    pair: (ValueView, ValueView),
    entry: EntryShape,
    f: F,
    first: bool,
)
    requires
        is_of(pair.0, entry.key),
        is_of(pair.1, entry.value),
        always_plain(f),
        stands_at(input, here, entry_encoding(pair, f, first)),
        ends_token(peek(input, here + entry_encoding(pair, f, first).len())),
    ensures
        ({
            let key_at = here + f.comma_text(first).len();
            let colon_at = key_at + encoding(pair.0, f).len();
            &&& element_start(
                input,
                here,
                first,
                CLOSE_BRACE,
                ErrorCode::ExpectedObjectCommaOrEnd,
                ErrorCode::EOFWhileParsingMap,
            ) == Parsed::<bool>::Done(true, key_at)
            &&& starts_value(peek(input, key_at))
            &&& value_at(input, key_at, entry.key) == Parsed::<ValueView>::Done(
                read_back(pair.0),
                colon_at,
            )
            &&& skip_blank(input, colon_at) == colon_at
            &&& peek(input, colon_at) == COLON
            &&& value_at(input, colon_at + 1, entry.value) == Parsed::<ValueView>::Done(
                read_back(pair.1),
                here + entry_encoding(pair, f, first).len(),
            )
        }),
    decreases pair, 0nat,
{
    let gap = f.comma_text(first);
    let key_text = encoding(pair.0, f);
    let colon = f.colon_text();
    let value_text = encoding(pair.1, f);
    lemma_plain_step(f);
    lemma_stands_split(input, here, gap + key_text + colon, value_text);
    lemma_stands_split(input, here, gap + key_text, colon);
    lemma_stands_split(input, here, gap, key_text);
    let key_at = here + gap.len();
    let colon_at = key_at + key_text.len();
    let value_from = colon_at + colon.len();
    lemma_head(pair.0, entry.key, f);
    lemma_head(pair.1, entry.value, f);
    assert(input[key_at + 0] == key_text[0]);
    assert(input[value_from + 0] == value_text[0]);
    if first {
        lemma_first_element(
            input,
            here,
            gap,
            CLOSE_BRACE,
            ErrorCode::ExpectedObjectCommaOrEnd,
            ErrorCode::EOFWhileParsingMap,
        );
    } else {
        lemma_next_element(
            input,
            here,
            gap,
            CLOSE_BRACE,
            ErrorCode::ExpectedObjectCommaOrEnd,
            ErrorCode::EOFWhileParsingMap,
        );
    }
    lemma_gap_ends_token(input, colon_at, colon, COLON);
    lemma_value_reads(input, key_at, pair.0, entry.key, f);
    lemma_stands_tail(input, colon_at, colon);
    lemma_skip_blanks(input, colon_at + 1, colon.drop_first());
    lemma_value_reads(input, value_from, pair.1, entry.value, f);
    lemma_value_behind_blanks(input, colon_at + 1, value_from, entry.value);
}

/// What stands behind an entry of a mapping ends a token: the comma before
/// the next entry, or what closes the mapping.
pub proof fn lemma_entry_is_followed<F: Formatter>(
    input: Seq<u8>,
    start: int,
    entries: Seq<(ValueView, ValueView)>,
    f: F,
    k: int,
)
    requires
        plain_here(f),
        0 <= k < entries.len(),
        stands_at(
            input,
            start,
            entries_encoding(entries, f, entries.len() as int) + f.close_text(CLOSE_BRACE),
        ),
    ensures
        ends_token(peek(input, start + entries_encoding(entries, f, k + 1).len())),
{
    let n = entries.len() as int;
    let closing = f.close_text(CLOSE_BRACE);
    lemma_stands_split(input, start, entries_encoding(entries, f, n), closing);
    let next = start + entries_encoding(entries, f, k + 1).len();
    if k + 1 < n {
        lemma_entries_step(entries, f, k + 1);
        lemma_entries_prefix(input, start, entries, f, k + 2, n);
        let later = f.comma_text(false);
        let after = entries_encoding(entries, f, k + 1);
        let rest = encoding(entries[k + 1].0, f) + f.colon_text() + encoding(entries[k + 1].1, f);
        assert(entries_encoding(entries, f, k + 2) =~= after + later + rest);
        lemma_stands_split(input, start, after + later, rest);
        lemma_stands_split(input, start, after, later);
        lemma_gap_ends_token(input, next, later, COMMA);
    } else {
        lemma_gap_ends_token(input, next, closing, CLOSE_BRACE);
    }
}

/// Where the text of the rest of a mapping stands in the input, from its entry
/// of index `k` on and up to its closing brace, the entries read there are
/// those.
#[verifier::rlimit(40)]
pub proof fn lemma_entries_read<F: Formatter>(
    input: Seq<u8>,
    start: int,
    entries: Seq<(ValueView, ValueView)>,
    entry: EntryShape,
    f: F,
    k: int,
)
    requires
        entries_are_of(entries, entry),
        always_plain(f),
        0 <= k <= entries.len(),
        stands_at(
            input,
            start,
            entries_encoding(entries, f, entries.len() as int) + f.close_text(CLOSE_BRACE),
        ),
    ensures
        entries_at(input, start + entries_encoding(entries, f, k).len(), entry, k == 0)
            == Parsed::<Seq<(ValueView, ValueView)>>::Done(
            entries_read_back(entries).subrange(k, entries.len() as int),
            start + entries_encoding(entries, f, entries.len() as int).len() + f.close_text(
                CLOSE_BRACE,
            ).len(),
        ),
    decreases entries, entries.len() - k,
{
    let n = entries.len() as int;
    let whole = entries_encoding(entries, f, n);
    let closing = f.close_text(CLOSE_BRACE);
    lemma_plain_step(f);
    lemma_stands_split(input, start, whole, closing);
    let before = entries_encoding(entries, f, k);
    let here = start + before.len();
    if k == n {
        lemma_closing(
            input,
            here,
            closing,
            CLOSE_BRACE,
            k == 0,
            ErrorCode::ExpectedObjectCommaOrEnd,
            ErrorCode::EOFWhileParsingMap,
        );
        assert(entries_read_back(entries).subrange(k, n) =~= Seq::<
            (ValueView, ValueView),
        >::empty());
    } else {
        let one = entry_encoding(entries[k], f, k == 0);
        lemma_entries_step(entries, f, k);
        lemma_entries_prefix(input, start, entries, f, k + 1, n);
        assert(entries_encoding(entries, f, k + 1) =~= before + one);
        lemma_stands_split(input, start, before, one);
        lemma_entry_is_followed(input, start, entries, f, k);
        lemma_entry_reads(input, here, entries[k], entry, f, k == 0);
        lemma_entries_read(input, start, entries, entry, f, k + 1);
        let read = entries_read_back(entries);
        assert(read[k] == (read_back(entries[k].0), read_back(entries[k].1)));
        assert(seq![read[k]] + read.subrange(k + 1, n) =~= read.subrange(k, n));
    }
}

/// Where the text of a mapping stands in the input, the entries read behind
/// its opening brace are its entries.
pub proof fn lemma_mapping_reads<F: Formatter>(
    input: Seq<u8>,
    at: int,
    entries: Seq<(ValueView, ValueView)>,
    entry: EntryShape,
    f: F,
)
    requires
        entries_are_of(entries, entry),
        always_plain(f),
        stands_at(input, at, mapping_encoding(entries, f)),
    ensures
        peek(input, at) == OPEN_BRACE,
        entries_at(input, at + 1, entry, true) == Parsed::<Seq<(ValueView, ValueView)>>::Done(
            entries_read_back(entries),
            at + mapping_encoding(entries, f).len(),
        ),
    decreases entries, entries.len() + 1,
{
    let text = mapping_encoding(entries, f);
    lemma_plain_step(f);
    lemma_plain_step(f.opened());
    if entries.len() == 0 {
        assert(input[at + 0] == text[0]);
        assert(input[at + 1] == text[1]);
        assert(skip_blank(input, at + 1) == at + 1);
        assert(entries_read_back(entries) =~= Seq::<(ValueView, ValueView)>::empty());
    } else {
        let inner = f.opened();
        let body = entries_encoding(entries, inner, entries.len() as int);
        let closing = inner.close_text(CLOSE_BRACE);
        assert(f.open_text(OPEN_BRACE) == seq![OPEN_BRACE]);
        assert(text == seq![OPEN_BRACE] + body + closing);
        assert(text =~= seq![OPEN_BRACE] + (body + closing));
        lemma_stands_split(input, at, seq![OPEN_BRACE], body + closing);
        assert(input[at + 0] == seq![OPEN_BRACE][0]);
        lemma_entries_read(input, at + 1, entries, entry, inner, 0);
        assert(entries_read_back(entries).subrange(0, entries.len() as int)
            =~= entries_read_back(entries));
    }
}

/// Where the two braces of an empty mapping stand in the input, the record
/// without fields is read.
pub proof fn lemma_empty_record_reads(input: Seq<u8>, at: int, fields: Vec<FieldShape>)
    requires
        fields@.len() == 0,
        stands_at(input, at, empty_mapping_text()),
    ensures
        record_at(input, at, fields) == Parsed::<ValueView>::Done(
            ValueView::Mapping(Seq::empty()),
            at + 2,
        ),
{
    let text = empty_mapping_text();
    assert(input[at + 0] == text[0]);
    assert(input[at + 1] == text[1]);
    assert(skip_blank(input, at + 1) == at + 1);
    assert(fields_at(input, at + 1, fields, true) == Parsed::<
        Seq<(int, ValueView)>,
    >::Done(Seq::empty(), at + 2));
    let pairs = Seq::<(int, ValueView)>::empty();
    assert(first_missing(pairs, 0, 0) == 0);
    assert(record_of(fields@, pairs)->Mapping_0 =~= Seq::<
        (ValueView, ValueView),
    >::empty());
}

/// The text of what a variant carries, where it carries something.
pub open spec fn payload_encoding<F: Formatter>(payload: PayloadView, f: F) -> Seq<u8> {
    match payload {
        PayloadView::Unit => unit_text(),
        PayloadView::Sequence(items) => sequence_encoding(items, f),
        PayloadView::Mapping(entries) => mapping_encoding(entries, f),
    }
}

/// The text that stands before what a variant carries: the opening brace, the
/// variant's quoted name and the colon, with the whitespace of the formatter.
pub open spec fn tag_encoding<F: Formatter>(variant: Seq<char>, f: F) -> Seq<u8> {
    f.open_text(OPEN_BRACE) + f.opened().comma_text(true) + escaped(encode_utf8(variant), '"')
        + f.opened().colon_text()
}

/// Where the text that stands before what a variant carries stands in the
/// input, the variant's name is read behind the opening brace, and a colon
/// stands behind it.
pub proof fn lemma_tag_reads<F: Formatter>(input: Seq<u8>, at: int, variant: Seq<char>, f: F)
    requires
        plain_here(f),
        plain_here(f.opened()),
        needs_no_escape(encode_utf8(variant), DOUBLE_QUOTE),
        stands_at(input, at, tag_encoding(variant, f)),
        !is_blank(peek(input, at + tag_encoding(variant, f).len())),
    ensures
        ({
            let quote_at = at + 1 + f.opened().comma_text(true).len();
            let colon_at = quote_at + encode_utf8(variant).len() + 2;
            &&& peek(input, at) == OPEN_BRACE
            &&& skip_blank(input, at + 1) == quote_at
            &&& peek(input, quote_at) == DOUBLE_QUOTE
            &&& text_at(input, quote_at + 1, DOUBLE_QUOTE) == Parsed::<Seq<u8>>::Done(
                encode_utf8(variant),
                colon_at,
            )
            &&& skip_blank(input, colon_at) == colon_at
            &&& peek(input, colon_at) == COLON
            &&& skip_blank(input, colon_at + 1) == at + tag_encoding(variant, f).len()
        }),
{
    let inner = f.opened();
    let tag = encode_utf8(variant);
    let opening = seq![OPEN_BRACE];
    let gap = inner.comma_text(true);
    let quoted = escaped(tag, '"');
    let colon = inner.colon_text();
    assert(f.open_text(OPEN_BRACE) == opening);
    lemma_stands_split(input, at, opening + gap + quoted, colon);
    lemma_stands_split(input, at, opening + gap, quoted);
    lemma_stands_split(input, at, opening, gap);
    assert(input[at + 0] == opening[0]);
    let quote_at = at + 1 + gap.len();
    assert(DOUBLE_QUOTE as char == '"');
    lemma_quoted_reads(input, quote_at, tag, DOUBLE_QUOTE);
    lemma_skip_blanks(input, at + 1, gap);
    let colon_at = quote_at + quoted.len();
    lemma_stands_tail(input, colon_at, colon);
    lemma_skip_blanks(input, colon_at + 1, colon.drop_first());
}

/// Where the text of a variant that carries a sequence or a mapping stands in
/// the input, the variant is read.
pub proof fn lemma_tagged_variant_reads<F: Formatter>(
    input: Seq<u8>,
    at: int,
    name: Seq<char>,
    variant: Seq<char>,
    payload: PayloadView,
    variants: Vec<VariantShape>,
    f: F,
)
    requires
        !(payload is Unit),
        payload_is_of(variant, payload, variants@),
        always_plain(f),
        stands_at(
            input,
            at,
            tagged_encoding(variant, payload_encoding(payload, f.opened()), f),
        ),
    ensures
        peek(input, at) == OPEN_BRACE,
        tagged_variant_at(input, at, name, variants) == Parsed::<ValueView>::Done(
            ValueView::Variant(name, variant, payload_read_back(payload)),
            at + tagged_encoding(variant, payload_encoding(payload, f.opened()), f).len(),
        ),
    decreases payload, 0nat,
{
    let inner = f.opened();
    lemma_plain_step(f);
    lemma_plain_step(inner);
    let header = tag_encoding(variant, f);
    let carried = payload_encoding(payload, inner);
    let closing = inner.close_text(CLOSE_BRACE);
    assert(tagged_encoding(variant, carried, f) =~= header + carried + closing);
    lemma_stands_split(input, at, header + carried, closing);
    lemma_stands_split(input, at, header, carried);
    let carried_at = at + header.len();
    let closing_at = carried_at + carried.len();
    let index = variant_index(variants@, encode_utf8(variant));
    lemma_variant_found(variants@, variant);
    match payload {
        PayloadView::Sequence(items) => {
            let elem = variants@[index].payload->Sequence_0;
            lemma_sequence_reads(input, carried_at, items, elem, inner);
        },
        PayloadView::Mapping(entries) => {
            let entry = variants@[index].payload->Mapping_0;
            lemma_mapping_reads(input, carried_at, entries, entry, inner);
        },
        PayloadView::Unit => {},
    }
    lemma_tag_reads(input, at, variant, f);
    lemma_stands_front(input, closing_at, closing);
    lemma_skip_blanks(input, closing_at, closing.drop_last());
}

/// Where the text of a value that holds no other value stands in the input
/// before a byte that ends a token, the value read there with the value's shape
/// is that value.
pub proof fn lemma_scalar_reads<F: Formatter>(
    input: Seq<u8>,
    at: int,
    v: ValueView,
    shape: Shape,
    f: F,
)
    requires
        v is Unit || v is Bool || v is Int || v is Float || v is Char || v is Str || v
            == ValueView::Optional(None),
        is_of(v, shape),
        plain_here(f),
        stands_at(input, at, encoding(v, f)),
        ends_token(peek(input, at + encoding(v, f).len())),
    ensures
        value_at(input, at, shape) == Parsed::<ValueView>::Done(v, at + encoding(v, f).len()),
{
    let text = encoding(v, f);
    lemma_head(v, shape, f);
    assert(input[at + 0] == text[0]);
    assert(skip_blank(input, at) == at);
    match v {
        ValueView::Unit => {
            lemma_unit_reads(input, at);
        },
        ValueView::Bool(b) => {
            lemma_bool_reads(input, at, b);
        },
        ValueView::Int(kind, n) => {
            lemma_integer_reads(input, at, n, kind);
        },
        ValueView::Float(kind, chars) => {
            lemma_float_reads(input, at, chars);
        },
        ValueView::Char(c) => {
            lemma_char_reads(input, at, c);
        },
        ValueView::Str(chars) => {
            lemma_string_reads(input, at, chars);
        },
        _ => {
            lemma_unit_reads(input, at);
        },
    }
}

/// Where the text of a value stands in the input before a byte that ends a
/// token, and is written by a plain formatter, what is read there with the
/// value's shape is the value, but for what `read_back` names.
pub proof fn lemma_value_reads<F: Formatter>(
    input: Seq<u8>,
    at: int,
    v: ValueView,
    shape: Shape,
    f: F,
)
    requires
        is_of(v, shape),
        always_plain(f),
        stands_at(input, at, encoding(v, f)),
        ends_token(peek(input, at + encoding(v, f).len())),
    ensures
        value_at(input, at, shape) == Parsed::<ValueView>::Done(
            read_back(v),
            at + encoding(v, f).len(),
        ),
    decreases v, 0nat,
{
    let text = encoding(v, f);
    lemma_plain_step(f);
    match v {
        ValueView::Optional(Some(inner)) => {
            lemma_head(v, shape, f);
            assert(input[at + 0] == text[0]);
            assert(skip_blank(input, at) == at);
            assert(text == encoding(*inner, f));
            if opens_with_paren(*inner) {
                lemma_paren_text(*inner, *shape->Optional_0, f);
                lemma_unit_reads(input, at);
            } else {
                lemma_value_reads(input, at, *inner, *shape->Optional_0, f);
            }
            assert(value_at(input, at, shape) == Parsed::<ValueView>::Done(
                read_back(v),
                at + text.len(),
            ));
        },
        ValueView::Sequence(items) => {
            lemma_head(v, shape, f);
            assert(input[at + 0] == text[0]);
            assert(skip_blank(input, at) == at);
            lemma_sequence_reads(input, at, items, *shape->Sequence_0, f);
            assert(value_at(input, at, shape) == Parsed::<ValueView>::Done(
                read_back(v),
                at + text.len(),
            ));
        },
        ValueView::Mapping(entries) => {
            lemma_head(v, shape, f);
            assert(input[at + 0] == text[0]);
            assert(skip_blank(input, at) == at);
            assert(text == mapping_encoding(entries, f));
            match shape {
                Shape::Record(fields) => {
                    assert(text == empty_mapping_text());
                    lemma_empty_record_reads(input, at, fields);
                    assert(entries_read_back(entries) =~= Seq::<(ValueView, ValueView)>::empty());
                },
                _ => {
                    lemma_mapping_reads(input, at, entries, *shape->Mapping_0, f);
                },
            }
            assert(value_at(input, at, shape) == Parsed::<ValueView>::Done(
                read_back(v),
                at + text.len(),
            ));
        },
        ValueView::Variant(name, variant, payload) => {
            lemma_head(v, shape, f);
            assert(input[at + 0] == text[0]);
            assert(skip_blank(input, at) == at);
            let variants = shape->Enum_1;
            assert(read_back(v) == ValueView::Variant(name, variant, payload_read_back(payload)));
            if payload is Unit {
                lemma_bare_variant_reads(input, at, name, variant, variants@);
                assert(payload_read_back(payload) == PayloadView::Unit);
                assert(value_at(input, at, shape) == bare_variant_at(
                    input,
                    at,
                    shape->Enum_0@,
                    variants@,
                ));
            } else {
                lemma_tagged_variant_reads(input, at, name, variant, payload, variants, f);
                assert(text == tagged_encoding(variant, payload_encoding(payload, f.opened()), f));
                assert(value_at(input, at, shape) == tagged_variant_at(
                    input,
                    at,
                    shape->Enum_0@,
                    variants,
                ));
            }
            assert(value_at(input, at, shape) == Parsed::<ValueView>::Done(
                read_back(v),
                at + text.len(),
            ));
        },
        _ => {
            lemma_scalar_reads(input, at, v, shape, f);
        },
    }
}

/// What a plain formatter writes for a value of a shape is read with that
/// shape as one value, with nothing left behind it: as the value itself, but
/// for the optional values in it that are present and written as the unit
/// token, which are read as absent ones.
pub proof fn lemma_reads_back<F: Formatter>(v: ValueView, shape: Shape, f: F)
    requires
        is_of(v, shape),
        always_plain(f),
    ensures
        document(encoding(v, f), shape) == Parsed::<ValueView>::Done(
            read_back(v),
            encoding(v, f).len() as int,
        ),
{
    let text = encoding(v, f);
    lemma_value_reads(text, 0, v, shape, f);
}

/// What a plain formatter writes for a value is read back as that value: the
/// whole text is one value of each shape that the value conforms to, and
/// nothing is left behind it.
pub proof fn lemma_round_trip<F: Formatter>(v: ValueView, shape: Shape, f: F)
    requires
        conforms(v, shape),
        always_plain(f),
    ensures
        document(encoding(v, f), shape) == Parsed::<ValueView>::Done(
            v,
            encoding(v, f).len() as int,
        ),
{
    let text = encoding(v, f);
    lemma_value_reads(text, 0, v, shape, f);
}

/// The compact text of a value is read back as that value.
pub proof fn lemma_compact_round_trip(v: ValueView, shape: Shape)
    requires
        conforms(v, shape),
    ensures
        document(encoding(v, CompactFormatter), shape) == Parsed::<ValueView>::Done(
            v,
            encoding(v, CompactFormatter).len() as int,
        ),
{
    assert forall|levels: nat| plain(CompactFormatter, levels) by {
        lemma_compact_is_plain(levels);
    }
    lemma_round_trip(v, shape, CompactFormatter);
}

/// The indented text of a value is read back as that value, whatever
/// whitespace the formatter indents by and however deep it stands.
pub proof fn lemma_pretty_round_trip(v: ValueView, shape: Shape, f: PrettyFormatter)
    requires
        conforms(v, shape),
        is_blank_text(f.unit()),
    ensures
        document(encoding(v, f), shape) == Parsed::<ValueView>::Done(
            v,
            encoding(v, f).len() as int,
        ),
{
    assert forall|levels: nat| plain(f, levels) by {
        lemma_pretty_is_plain(f, levels);
    }
    lemma_round_trip(v, shape, f);
}

/// The compact text of a value of a shape and its text indented by two spaces
/// are read as the same value.
pub proof fn lemma_both_forms_read_alike(v: ValueView, shape: Shape)
    requires
        is_of(v, shape),
    ensures
        document(encoding(v, CompactFormatter), shape) is Done,
        document(encoding(v, PrettyFormatter::spec_new()), shape) is Done,
        document(encoding(v, CompactFormatter), shape)->Done_0 == document(
            encoding(v, PrettyFormatter::spec_new()),
            shape,
        )->Done_0,
{
    assert forall|levels: nat| plain(CompactFormatter, levels) by {
        lemma_compact_is_plain(levels);
    }
    lemma_reads_back(v, shape, CompactFormatter);
    lemma_two_spaces();
    assert forall|levels: nat| plain(PrettyFormatter::spec_new(), levels) by {
        lemma_pretty_is_plain(PrettyFormatter::spec_new(), levels);
    }
    lemma_reads_back(v, shape, PrettyFormatter::spec_new());
}

/// Whether the value `v` is written without a delimiter of a collection
/// that holds something: whether it is a value that holds no other, an
/// optional one of these, or an empty sequence or mapping.
pub open spec fn is_flat(v: ValueView) -> bool
    decreases v,
{
    match v {
        ValueView::Optional(Some(inner)) => is_flat(*inner),
        ValueView::Sequence(items) => items.len() == 0,
        ValueView::Mapping(entries) => entries.len() == 0,
        ValueView::Variant(_, _, payload) => payload is Unit,
        _ => true,
    }
}

/// Every formatter writes the same text for a flat value: a formatter has a
/// say only in what stands around the elements of a collection.
pub proof fn lemma_flat_text_is_one<F: Formatter, G: Formatter>(v: ValueView, f: F, g: G)
    requires
        is_flat(v),
    ensures
        encoding(v, f) == encoding(v, g),
    decreases v,
{
    match v {
        ValueView::Optional(Some(inner)) => {
            lemma_flat_text_is_one(*inner, f, g);
        },
        ValueView::Sequence(items) => {
            assert(sequence_encoding(items, f) == empty_sequence_text());
            assert(sequence_encoding(items, g) == empty_sequence_text());
        },
        ValueView::Mapping(entries) => {
            assert(mapping_encoding(entries, f) == empty_mapping_text());
            assert(mapping_encoding(entries, g) == empty_mapping_text());
        },
        _ => {},
    }
}

/// The compact text of a flat value and its text indented by two spaces are
/// read alike with every shape, whether as a value or as a failure.
pub proof fn lemma_flat_forms_read_alike(v: ValueView, shape: Shape)
    requires
        is_flat(v),
    ensures
        document(encoding(v, CompactFormatter), shape) == document(
            encoding(v, PrettyFormatter::spec_new()),
            shape,
        ),
{
    lemma_flat_text_is_one(v, CompactFormatter, PrettyFormatter::spec_new());
}

/// Reading the text that a plain formatter wrote for a value gives that
/// value, where the reader does what it promises.
pub proof fn lemma_written_is_read<F: Formatter>(
    result: Result<Value, Error>,
    v: ValueView,
    shape: Shape,
    f: F,
)
    requires
        conforms(v, shape),
        always_plain(f),
        decoded(result, encoding(v, f), shape),
    ensures
        result matches Ok(got) && got@ == v,
{
    lemma_round_trip(v, shape, f);
}

/// An empty sequence is written as its two brackets by every formatter, and
/// an empty mapping as its two braces.
pub proof fn lemma_empty_is_two_bytes<F: Formatter>(f: F)
    ensures
        encoding(ValueView::Sequence(Seq::empty()), f) == seq![OPEN_BRACKET, CLOSE_BRACKET],
        encoding(ValueView::Mapping(Seq::empty()), f) == seq![OPEN_BRACE, CLOSE_BRACE],
{
    assert(sequence_encoding(Seq::<ValueView>::empty(), f) == empty_sequence_text());
    assert(mapping_encoding(Seq::<(ValueView, ValueView)>::empty(), f) == empty_mapping_text());
}

/// Two brackets with nothing but whitespace between them are read as the
/// empty sequence, whatever the shape of its elements.
pub proof fn lemma_blank_sequence_is_empty(blanks: Seq<u8>, elem: Shape)
    requires
        is_blank_text(blanks),
    ensures
        document(
            seq![OPEN_BRACKET] + blanks + seq![CLOSE_BRACKET],
            Shape::Sequence(Box::new(elem)),
        ) == Parsed::<ValueView>::Done(ValueView::Sequence(Seq::empty()), blanks.len() as int + 2),
{
    let closing = blanks + seq![CLOSE_BRACKET];
    let input = seq![OPEN_BRACKET] + blanks + seq![CLOSE_BRACKET];
    let end = blanks.len() as int + 2;
    assert(input =~= seq![OPEN_BRACKET] + closing);
    assert(stands_at(input, 0, input));
    lemma_stands_split(input, 0, seq![OPEN_BRACKET], closing);
    assert(closing.drop_last() =~= blanks);
    lemma_closing(
        input,
        1,
        closing,
        CLOSE_BRACKET,
        true,
        ErrorCode::ExpectedListCommaOrEnd,
        ErrorCode::EOFWhileParsingArray,
    );
    assert(items_at(input, 1, elem, true) == Parsed::<Seq<ValueView>>::Done(Seq::empty(), end));
    assert(input[0] == OPEN_BRACKET);
    assert(skip_blank(input, 0) == 0);
    assert(value_at(input, 0, Shape::Sequence(Box::new(elem))) == Parsed::<ValueView>::Done(
        ValueView::Sequence(Seq::empty()),
        end,
    ));
    assert(skip_blank(input, end) == end);
}

/// Two braces with nothing but whitespace between them are read as the empty
/// mapping, whatever the shape of its entries.
pub proof fn lemma_blank_mapping_is_empty(blanks: Seq<u8>, entry: EntryShape)
    requires
        is_blank_text(blanks),
    ensures
        document(
            seq![OPEN_BRACE] + blanks + seq![CLOSE_BRACE],
            Shape::Mapping(Box::new(entry)),
        ) == Parsed::<ValueView>::Done(ValueView::Mapping(Seq::empty()), blanks.len() as int + 2),
{
    let closing = blanks + seq![CLOSE_BRACE];
    let input = seq![OPEN_BRACE] + blanks + seq![CLOSE_BRACE];
    let end = blanks.len() as int + 2;
    assert(input =~= seq![OPEN_BRACE] + closing);
    assert(stands_at(input, 0, input));
    lemma_stands_split(input, 0, seq![OPEN_BRACE], closing);
    assert(closing.drop_last() =~= blanks);
    lemma_closing(
        input,
        1,
        closing,
        CLOSE_BRACE,
        true,
        ErrorCode::ExpectedObjectCommaOrEnd,
        ErrorCode::EOFWhileParsingMap,
    );
    assert(entries_at(input, 1, entry, true) == Parsed::<Seq<(ValueView, ValueView)>>::Done(
        Seq::empty(),
        end,
    ));
    assert(input[0] == OPEN_BRACE);
    assert(skip_blank(input, 0) == 0);
    assert(value_at(input, 0, Shape::Mapping(Box::new(entry))) == Parsed::<ValueView>::Done(
        ValueView::Mapping(Seq::empty()),
        end,
    ));
    assert(skip_blank(input, end) == end);
}

/// An optional value is transparent: one that is present is written as the
/// value itself, one that is absent as the unit token, and the unit token is
/// read as an absent one, whatever the shape of the present ones.
pub proof fn lemma_option_is_transparent<F: Formatter>(inner: ValueView, of: Shape, f: F)
    ensures
        encoding(ValueView::Optional(Some(Box::new(inner))), f) == encoding(inner, f),
        encoding(ValueView::Optional(None), f) == unit_text(),
        document(unit_text(), Shape::Optional(Box::new(of))) == Parsed::<ValueView>::Done(
            ValueView::Optional(None),
            2,
        ),
{
    let input = unit_text();
    assert(skip_blank(input, 0) == 0);
    assert(skip_blank(input, 2) == 2);
}

} // verus!
