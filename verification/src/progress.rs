//! Reading moves on: whatever the grammar reads ends behind where it starts,
//! and inside the input.

use vstd::prelude::*;
use crate::decode::lemma_number_is_ascii;
use crate::error::ErrorCode;
use crate::grammar::{
    BACKSLASH,
    CLOSE_BRACE,
    CLOSE_BRACKET,
    DOUBLE_QUOTE,
    OPEN_BRACE,
    Parsed,
    SINGLE_QUOTE,
    bare_variant_at,
    bool_at,
    char_at,
    document,
    element_start,
    entries_at,
    escape_at,
    false_word,
    fields_at,
    float_at,
    hex_at,
    hex_value,
    ident_len,
    integer_at,
    is_blank,
    items_at,
    key_at,
    matched,
    payload_at,
    peek,
    record_at,
    skip_blank,
    string_at,
    tagged_variant_at,
    text_at,
    true_word,
    unit_at,
    value_at,
};
use crate::shape::{EntryShape, FieldShape, PayloadShape, Shape, VariantShape, variant_index};
use crate::value::IntKind;

verus! {

/// Whether what was read at `at` ends behind `at` and inside the input.
pub open spec fn moves_on<T>(parsed: Parsed<T>, input: Seq<u8>, at: int) -> bool {
    parsed matches Parsed::Done(_, next) ==> at < next <= input.len()
}

/// Skipping whitespace stays inside the input.
pub proof fn lemma_skip_blank_bounds(input: Seq<u8>, at: int)
    requires
        0 <= at,
    ensures
        at <= skip_blank(input, at),
        at <= input.len() ==> skip_blank(input, at) <= input.len(),
    decreases input.len() - at,
{
    if at < input.len() && is_blank(input[at] as int) {
        lemma_skip_blank_bounds(input, at + 1);
    }
}

/// The bytes of a word that the input holds are inside the input.
pub proof fn lemma_matched_bounds(input: Seq<u8>, at: int, word: Seq<u8>)
    requires
        0 <= at,
    ensures
        matched(input, at, word) <= word.len(),
        matched(input, at, word) > 0 ==> at + matched(input, at, word) <= input.len(),
    decreases word.len(),
{
    if word.len() > 0 && peek(input, at) == word[0] {
        lemma_matched_bounds(input, at + 1, word.drop_first());
    }
}

/// Hexadecimal digits that are read end behind where they start, by their
/// number.
pub proof fn lemma_hex_moves_on(input: Seq<u8>, at: int, count: nat, so_far: int)
    requires
        0 <= at,
    ensures
        hex_at(input, at, count, so_far) matches Parsed::Done(_, next) ==> next == at + count
            && next <= input.len() || count == 0,
    decreases count,
{
    if count > 0 && 0 <= at < input.len() && hex_value(input[at] as int) >= 0 {
        lemma_hex_moves_on(
            input,
            at + 1,
            (count - 1) as nat,
            so_far * 16 + hex_value(input[at] as int),
        );
    }
}

/// A text that is read ends behind where it starts.
pub proof fn lemma_text_moves_on(input: Seq<u8>, at: int, quote: u8)
    requires
        0 <= at,
    ensures
        moves_on(text_at(input, at, quote), input, at),
    decreases input.len() - at,
{
    if 0 <= at < input.len() && input[at] != quote {
        if input[at] == BACKSLASH {
            lemma_hex_moves_on(input, at + 2, 4, 0);
            if let Parsed::Done(_, next) = escape_at(input, at) {
                if at < next <= input.len() {
                    lemma_text_moves_on(input, next, quote);
                }
            }
        } else {
            lemma_text_moves_on(input, at + 1, quote);
        }
    }
}

/// A value that holds no other value and is read ends behind where it starts.
pub proof fn lemma_tokens_move_on(input: Seq<u8>, at: int, kind: IntKind)
    requires
        0 <= at,
    ensures
        moves_on(unit_at(input, at), input, at),
        moves_on(bool_at(input, at), input, at),
        moves_on(integer_at(input, at, kind), input, at),
        moves_on(float_at(input, at), input, at),
        moves_on(string_at(input, at), input, at),
        moves_on(char_at(input, at), input, at),
{
    lemma_matched_bounds(input, at, true_word());
    lemma_matched_bounds(input, at, false_word());
    lemma_number_is_ascii(input, at);
    lemma_text_moves_on(input, at + 1, DOUBLE_QUOTE);
    lemma_text_moves_on(input, at + 1, SINGLE_QUOTE);
}

/// Where an element of a collection starts, or where the collection ends, is
/// not before where the search for it starts, and inside the input.
pub proof fn lemma_element_start_bounds(
    input: Seq<u8>,
    at: int,
    first: bool,
    close: u8,
    expected: ErrorCode,
    ended: ErrorCode,
)
    requires
        0 <= at,
    ensures
        match element_start(input, at, first, close, expected, ended) {
            Parsed::Done(true, here) => at <= here < input.len(),
            Parsed::Done(false, end) => at < end <= input.len(),
            Parsed::Failed(_) => true,
        },
{
    lemma_skip_blank_bounds(input, at);
    lemma_skip_blank_bounds(input, skip_blank(input, at) + 1);
}

/// The elements of a sequence that are read end behind where they start.
pub proof fn lemma_items_move_on(input: Seq<u8>, at: int, elem: Shape, first: bool)
    requires
        0 <= at,
    ensures
        moves_on(items_at(input, at, elem, first), input, at),
    decreases elem, input.len() - at, 1nat,
{
    lemma_element_start_bounds(
        input,
        at,
        first,
        CLOSE_BRACKET,
        ErrorCode::ExpectedListCommaOrEnd,
        ErrorCode::EOFWhileParsingArray,
    );
    if let Parsed::Done(true, here) = element_start(
        input,
        at,
        first,
        CLOSE_BRACKET,
        ErrorCode::ExpectedListCommaOrEnd,
        ErrorCode::EOFWhileParsingArray,
    ) {
        lemma_value_moves_on(input, here, elem);
        if let Parsed::Done(_, next) = value_at(input, here, elem) {
            lemma_items_move_on(input, next, elem, false);
        }
    }
}

/// The entries of a mapping that are read end behind where they start.
pub proof fn lemma_entries_move_on(input: Seq<u8>, at: int, entry: EntryShape, first: bool)
    requires
        0 <= at,
    ensures
        moves_on(entries_at(input, at, entry, first), input, at),
    decreases entry, input.len() - at, 1nat,
{
    lemma_element_start_bounds(
        input,
        at,
        first,
        CLOSE_BRACE,
        ErrorCode::ExpectedObjectCommaOrEnd,
        ErrorCode::EOFWhileParsingMap,
    );
    if let Parsed::Done(true, here) = element_start(
        input,
        at,
        first,
        CLOSE_BRACE,
        ErrorCode::ExpectedObjectCommaOrEnd,
        ErrorCode::EOFWhileParsingMap,
    ) {
        lemma_value_moves_on(input, here, entry.key);
        if let Parsed::Done(_, after_key) = value_at(input, here, entry.key) {
            lemma_skip_blank_bounds(input, after_key);
            let colon = skip_blank(input, after_key);
            lemma_value_moves_on(input, colon + 1, entry.value);
            if let Parsed::Done(_, next) = value_at(input, colon + 1, entry.value) {
                lemma_entries_move_on(input, next, entry, false);
            }
        }
    }
}

/// The key of a record's pair that is read ends behind where it starts.
pub proof fn lemma_key_moves_on(input: Seq<u8>, at: int, fields: Seq<FieldShape>)
    requires
        0 <= at,
    ensures
        moves_on(key_at(input, at, fields), input, at),
{
    lemma_skip_blank_bounds(input, at + ident_len(input, at));
}

/// The pairs of a record that are read end behind where they start.
pub proof fn lemma_fields_move_on(input: Seq<u8>, at: int, fields: Vec<FieldShape>, first: bool)
    requires
        0 <= at,
    ensures
        moves_on(fields_at(input, at, fields, first), input, at),
    decreases fields, input.len() - at, 1nat,
{
    lemma_element_start_bounds(
        input,
        at,
        first,
        CLOSE_BRACE,
        ErrorCode::ExpectedObjectCommaOrEnd,
        ErrorCode::EOFWhileParsingObject,
    );
    if let Parsed::Done(true, here) = element_start(
        input,
        at,
        first,
        CLOSE_BRACE,
        ErrorCode::ExpectedObjectCommaOrEnd,
        ErrorCode::EOFWhileParsingObject,
    ) {
        lemma_key_moves_on(input, here, fields@);
        if let Parsed::Done(index, after) = key_at(input, here, fields@) {
            if 0 <= index < fields@.len() {
                lemma_value_moves_on(input, after, fields@[index].shape);
                if let Parsed::Done(_, next) = value_at(input, after, fields@[index].shape) {
                    lemma_fields_move_on(input, next, fields, false);
                }
            }
        }
    }
}

/// What a variant carries and is read ends behind where it starts.
pub proof fn lemma_payload_moves_on(input: Seq<u8>, at: int, variant: VariantShape)
    requires
        0 <= at,
    ensures
        moves_on(payload_at(input, at, variant), input, at),
    decreases variant, input.len() - at, 1nat,
{
    match variant.payload {
        PayloadShape::Unit => {
            lemma_tokens_move_on(input, at, IntKind::U8);
        },
        PayloadShape::Sequence(elem) => {
            lemma_items_move_on(input, at + 1, elem, true);
        },
        PayloadShape::Mapping(entry) => {
            lemma_entries_move_on(input, at + 1, entry, true);
        },
    }
}

/// A variant that is written as a mapping of one entry and is read ends
/// behind where it starts.
pub proof fn lemma_tagged_variant_moves_on(
    input: Seq<u8>,
    at: int,
    name: Seq<char>,
    variants: Vec<VariantShape>,
)
    requires
        0 <= at,
    ensures
        moves_on(tagged_variant_at(input, at, name, variants), input, at),
    decreases variants, input.len() - at, 2nat,
{
    lemma_skip_blank_bounds(input, at + 1);
    let quote = skip_blank(input, at + 1);
    lemma_text_moves_on(input, quote + 1, DOUBLE_QUOTE);
    if let Parsed::Done(tag, after_tag) = text_at(input, quote + 1, DOUBLE_QUOTE) {
        let index = variant_index(variants@, tag);
        lemma_skip_blank_bounds(input, after_tag);
        let colon = skip_blank(input, after_tag);
        lemma_skip_blank_bounds(input, colon + 1);
        if 0 <= index < variants@.len() {
            lemma_payload_moves_on(input, skip_blank(input, colon + 1), variants@[index]);
            if let Parsed::Done(_, after_payload) = payload_at(
                input,
                skip_blank(input, colon + 1),
                variants@[index],
            ) {
                lemma_skip_blank_bounds(input, after_payload);
            }
        }
    }
}

/// A value that is read ends behind where it starts, and inside the input:
/// the grammar never stands still and never reads what is not there.
pub proof fn lemma_value_moves_on(input: Seq<u8>, at: int, shape: Shape)
    requires
        0 <= at,
    ensures
        moves_on(value_at(input, at, shape), input, at),
    decreases shape, input.len() - at, 0nat,
{
    lemma_skip_blank_bounds(input, at);
    let here = skip_blank(input, at);
    match shape {
        Shape::Int(kind) => {
            lemma_tokens_move_on(input, here, kind);
        },
        Shape::Optional(inner) => {
            lemma_tokens_move_on(input, here, IntKind::U8);
            lemma_value_moves_on(input, here, *inner);
            assert(moves_on(value_at(input, at, shape), input, at));
        },
        Shape::Sequence(elem) => {
            lemma_items_move_on(input, here + 1, *elem, true);
            assert(moves_on(value_at(input, at, shape), input, at));
        },
        Shape::Mapping(entry) => {
            lemma_entries_move_on(input, here + 1, *entry, true);
            assert(moves_on(value_at(input, at, shape), input, at));
        },
        Shape::Enum(name, variants) => {
            if peek(input, here) == OPEN_BRACE {
                lemma_tagged_variant_moves_on(input, here, name@, variants);
            }
            assert(moves_on(bare_variant_at(input, here, name@, variants@), input, here));
            assert(moves_on(value_at(input, at, shape), input, at));
        },
        Shape::Record(fields) => {
            lemma_fields_move_on(input, here + 1, fields, true);
            assert(moves_on(record_at(input, here, fields), input, here));
            assert(moves_on(value_at(input, at, shape), input, at));
        },
        _ => {
            lemma_tokens_move_on(input, here, IntKind::U8);
            assert(moves_on(value_at(input, at, shape), input, at));
        },
    }
}

/// A document that is read ends at the end of the input.
pub proof fn lemma_document_is_whole(input: Seq<u8>, shape: Shape)
    ensures
        document(input, shape) matches Parsed::Done(_, end) ==> end == input.len(),
{
    lemma_value_moves_on(input, 0, shape);
    if let Parsed::Done(_, next) = value_at(input, 0, shape) {
        lemma_skip_blank_bounds(input, next);
    }
}

} // verus!
