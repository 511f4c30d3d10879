//! The grammar of the notation, as functions from input bytes and an offset to
//! the value read there and the offset behind it, or to the first failure.
//!
//! Every function reads as the notation is defined: whitespace may stand before
//! each token; a sequence and a mapping tolerate one comma before their closing
//! delimiter; a failure is at the first byte that cannot be read.

use vstd::prelude::*;
use vstd::utf8::*;
use crate::error::ErrorCode;
use crate::number::ascii_chars;
use crate::shape::{
    EntryShape,
    FieldShape,
    PayloadShape,
    Shape,
    VariantShape,
    field_index,
    variant_index,
};
use crate::text::char_bytes;
use crate::value::{IntKind, PayloadView, ValueView};

verus! {

pub const TAB: u8 = 9;

pub const LINE_FEED: u8 = 10;

pub const CARRIAGE_RETURN: u8 = 13;

pub const SPACE: u8 = 32;

pub const DOUBLE_QUOTE: u8 = 34;

pub const SINGLE_QUOTE: u8 = 39;

pub const OPEN_PAREN: u8 = 40;

pub const CLOSE_PAREN: u8 = 41;

pub const PLUS: u8 = 43;

pub const COMMA: u8 = 44;

pub const MINUS: u8 = 45;

pub const DOT: u8 = 46;

pub const COLON: u8 = 58;

pub const OPEN_BRACKET: u8 = 91;

pub const BACKSLASH: u8 = 92;

pub const CLOSE_BRACKET: u8 = 93;

pub const UNDERSCORE: u8 = 95;

pub const OPEN_BRACE: u8 = 123;

pub const CLOSE_BRACE: u8 = 125;

/// The first byte of the marker that delimits the name of a variant that
/// carries nothing.
pub const MARKER_LEAD: u8 = 0xC2;

/// The second byte of the marker.
pub const MARKER_TAIL: u8 = 0xB6;

/// Why the input cannot be read.
pub enum Failure {
    /// The grammar is broken at the byte at the given offset.
    Syntax(ErrorCode, int),
    /// The key at the given offset names no declared field.
    UnknownField(Seq<char>, int),
    /// The named declared field was not given.
    MissingField(&'static str),
}

/// What reading at an offset gives: what was read and the offset behind it, or
/// the first failure.
pub enum Parsed<T> {
    Done(T, int),
    Failed(Failure),
}

/// The byte at `at`, or -1 where the input ends before it.
pub open spec fn peek(input: Seq<u8>, at: int) -> int {
    if 0 <= at < input.len() {
        input[at] as int
    } else {
        -1
    }
}

/// The failure of input that holds no value at `at`: it ends there, or holds
/// something else.
pub open spec fn no_value(input: Seq<u8>, at: int) -> Failure {
    if 0 <= at < input.len() {
        Failure::Syntax(ErrorCode::ExpectedSomeValue, at)
    } else {
        Failure::Syntax(ErrorCode::EOFWhileParsingValue, input.len() as int)
    }
}

/// The failure with the code `code` at `at`, or with the code `ended` where the
/// input ends there.
pub open spec fn fault(input: Seq<u8>, at: int, code: ErrorCode, ended: ErrorCode) -> Failure {
    if 0 <= at < input.len() {
        Failure::Syntax(code, at)
    } else {
        Failure::Syntax(ended, input.len() as int)
    }
}

/// Whether `b` is whitespace: a space, a tab, a line feed or a carriage return.
pub open spec fn is_blank(b: int) -> bool {
    b == SPACE || b == TAB || b == LINE_FEED || b == CARRIAGE_RETURN
}

/// Whether `b` is a decimal digit.
pub open spec fn is_digit(b: int) -> bool {
    48 <= b <= 57
}

/// Whether `b` is a sign.
pub open spec fn is_sign(b: int) -> bool {
    b == PLUS || b == MINUS
}

/// Whether `b` can start an identifier: a letter or an underscore.
pub open spec fn is_ident_start(b: int) -> bool {
    65 <= b <= 90 || 97 <= b <= 122 || b == UNDERSCORE
}

/// Whether `b` can stand in an identifier: a letter, a digit or an underscore.
pub open spec fn is_ident_part(b: int) -> bool {
    is_ident_start(b) || is_digit(b)
}

/// Whether `b` can start a value of some shape.
pub open spec fn starts_value(b: int) -> bool {
    ||| b == OPEN_PAREN
    ||| b == OPEN_BRACKET
    ||| b == OPEN_BRACE
    ||| b == DOUBLE_QUOTE
    ||| b == SINGLE_QUOTE
    ||| b == MARKER_LEAD
    ||| b == 116
    ||| b == 102
    ||| b == DOT
    ||| is_sign(b)
    ||| is_digit(b)
}

/// The number of whitespace bytes from `at` on.
pub open spec fn blank_len(input: Seq<u8>, at: int) -> nat
    decreases input.len() - at,
{
    if 0 <= at < input.len() && is_blank(input[at] as int) {
        1 + blank_len(input, at + 1)
    } else {
        0
    }
}

/// The offset of the first byte from `at` on that is not whitespace.
pub open spec fn skip_blank(input: Seq<u8>, at: int) -> int {
    at + blank_len(input, at)
}

/// The number of decimal digits from `at` on.
pub open spec fn digit_run(input: Seq<u8>, at: int) -> nat
    decreases input.len() - at,
{
    if 0 <= at < input.len() && is_digit(input[at] as int) {
        1 + digit_run(input, at + 1)
    } else {
        0
    }
}

/// The number of bytes from `at` on that can stand in an identifier.
pub open spec fn ident_run(input: Seq<u8>, at: int) -> nat
    decreases input.len() - at,
{
    if 0 <= at < input.len() && is_ident_part(input[at] as int) {
        1 + ident_run(input, at + 1)
    } else {
        0
    }
}

/// The length of the identifier at `at`, or 0 where none starts there.
pub open spec fn ident_len(input: Seq<u8>, at: int) -> nat {
    if is_ident_start(peek(input, at)) {
        ident_run(input, at)
    } else {
        0
    }
}

/// The number of leading bytes of `word` that the input holds at `at`.
pub open spec fn matched(input: Seq<u8>, at: int, word: Seq<u8>) -> nat
    decreases word.len(),
{
    if word.len() > 0 && peek(input, at) == word[0] {
        1 + matched(input, at + 1, word.drop_first())
    } else {
        0
    }
}

/// The unit token `()` at `at`.
pub open spec fn unit_at(input: Seq<u8>, at: int) -> Parsed<()> {
    if peek(input, at) != OPEN_PAREN {
        Parsed::Failed(no_value(input, at))
    } else if peek(input, at + 1) != CLOSE_PAREN {
        Parsed::Failed(no_value(input, at + 1))
    } else {
        Parsed::Done((), at + 2)
    }
}

/// The word `true`.
pub open spec fn true_word() -> Seq<u8> {
    seq![116u8, 114u8, 117u8, 101u8]
}

/// The word `false`.
pub open spec fn false_word() -> Seq<u8> {
    seq![102u8, 97u8, 108u8, 115u8, 101u8]
}

/// The truth value at `at`: the word `true` or the word `false`. A failure is
/// at the first byte that is not of the word that the first byte announces.
pub open spec fn bool_at(input: Seq<u8>, at: int) -> Parsed<bool> {
    if peek(input, at) == 102 {
        if matched(input, at, false_word()) == 5 {
            Parsed::Done(false, at + 5)
        } else {
            Parsed::Failed(no_value(input, at + matched(input, at, false_word())))
        }
    } else if matched(input, at, true_word()) == 4 {
        Parsed::Done(true, at + 4)
    } else {
        Parsed::Failed(no_value(input, at + matched(input, at, true_word())))
    }
}

/// The offset behind the sign at `at`, where there is one.
pub open spec fn after_sign(input: Seq<u8>, at: int) -> int {
    if is_sign(peek(input, at)) {
        at + 1
    } else {
        at
    }
}

/// The offset behind the whole part of the number literal at `at`: an optional
/// sign and a run of digits.
pub open spec fn whole_end(input: Seq<u8>, at: int) -> int {
    after_sign(input, at) + digit_run(input, after_sign(input, at))
}

/// The offset behind the fraction of the number literal at `at`: behind its
/// whole part, an optional dot with a run of digits.
pub open spec fn fraction_end(input: Seq<u8>, at: int) -> int {
    let whole = whole_end(input, at);
    if peek(input, whole) == DOT {
        whole + 1 + digit_run(input, whole + 1)
    } else {
        whole
    }
}

/// Whether the number literal at `at` has an exponent: an `e` or `E` behind
/// its fraction.
pub open spec fn has_exponent(input: Seq<u8>, at: int) -> bool {
    peek(input, fraction_end(input, at)) == 101 || peek(input, fraction_end(input, at)) == 69
}

/// The offset of the digits of the exponent of the number literal at `at`,
/// behind the `e` and an optional sign.
pub open spec fn exponent_digits(input: Seq<u8>, at: int) -> int {
    after_sign(input, fraction_end(input, at) + 1)
}

/// The offset behind the number literal at `at`: an optional sign, a run of
/// digits, an optional dot with a run of digits, and an optional exponent.
pub open spec fn number_end(input: Seq<u8>, at: int) -> int {
    if has_exponent(input, at) {
        exponent_digits(input, at) + digit_run(input, exponent_digits(input, at))
    } else {
        fraction_end(input, at)
    }
}

/// The number that a run of decimal digits stands for.
pub open spec fn digits_value(digits: Seq<u8>) -> nat
    decreases digits.len(),
{
    if digits.len() == 0 {
        0
    } else {
        digits_value(digits.drop_last()) * 10 + (digits.last() - 48) as nat
    }
}

/// Whether every byte of `text` is a decimal digit.
pub open spec fn all_digits(text: Seq<u8>) -> bool {
    forall|i: int| 0 <= i < text.len() ==> is_digit(#[trigger] text[i] as int)
}

/// The integer that `text` stands for: an optional sign and at least one digit.
pub open spec fn integer_of(text: Seq<u8>) -> Option<int> {
    let body = if text.len() > 0 && is_sign(text[0] as int) {
        text.subrange(1, text.len() as int)
    } else {
        text
    };
    if body.len() > 0 && all_digits(body) {
        if text[0] == MINUS {
            Some(-(digits_value(body) as int))
        } else {
            Some(digits_value(body) as int)
        }
    } else {
        None
    }
}

/// The integer of the given kind that `text` stands for. A kind without
/// negative numbers takes no minus sign, not even before a zero.
pub open spec fn integer_as(text: Seq<u8>, kind: IntKind) -> Option<int> {
    match integer_of(text) {
        Some(n) => if kind.holds(n) && !(kind.min() == 0 && text[0] == MINUS) {
            Some(n)
        } else {
            None
        },
        None => None,
    }
}

/// The integer of the given kind at `at`.
pub open spec fn integer_at(input: Seq<u8>, at: int, kind: IntKind) -> Parsed<int> {
    let end = number_end(input, at);
    if end <= at {
        Parsed::Failed(no_value(input, at))
    } else {
        match integer_as(input.subrange(at, end), kind) {
            Some(n) => Parsed::Done(n, end),
            None => Parsed::Failed(Failure::Syntax(ErrorCode::InvalidNumber, at)),
        }
    }
}

/// Whether the number literal at `at` is one of a floating-point number: it has
/// a digit before or behind its dot, and its exponent, where it has one, has a
/// digit.
pub open spec fn is_float_at(input: Seq<u8>, at: int) -> bool {
    let whole_digits = digit_run(input, after_sign(input, at));
    let fraction_digits = fraction_end(input, at) - whole_end(input, at);
    &&& whole_digits > 0 || fraction_digits > 1
    &&& has_exponent(input, at) ==> digit_run(input, exponent_digits(input, at)) > 0
}

/// The text of the floating-point number at `at`.
pub open spec fn float_at(input: Seq<u8>, at: int) -> Parsed<Seq<char>> {
    let end = number_end(input, at);
    if end <= at {
        Parsed::Failed(no_value(input, at))
    } else if is_float_at(input, at) {
        Parsed::Done(ascii_chars(input.subrange(at, end)), end)
    } else {
        Parsed::Failed(Failure::Syntax(ErrorCode::InvalidNumber, at))
    }
}

/// Whether `text` is the literal of a floating-point number, all of it.
pub open spec fn is_float_text(text: Seq<u8>) -> bool {
    text.len() > 0 && number_end(text, 0) == text.len() && is_float_at(text, 0)
}

/// The value of the hexadecimal digit `b`, or -1 where it is none.
pub open spec fn hex_value(b: int) -> int {
    if 48 <= b <= 57 {
        b - 48
    } else if 65 <= b <= 70 {
        b - 55
    } else if 97 <= b <= 102 {
        b - 87
    } else {
        -1
    }
}

/// The number that `count` hexadecimal digits at `at` stand for, behind the
/// digits of `so_far`.
pub open spec fn hex_at(input: Seq<u8>, at: int, count: nat, so_far: int) -> Parsed<int>
    decreases count,
{
    if count == 0 {
        Parsed::Done(so_far, at)
    } else if !(0 <= at < input.len()) {
        Parsed::Failed(Failure::Syntax(ErrorCode::NotFourDigit, input.len() as int))
    } else if hex_value(input[at] as int) < 0 {
        Parsed::Failed(Failure::Syntax(ErrorCode::UnrecognizedHex, at))
    } else {
        hex_at(input, at + 1, (count - 1) as nat, so_far * 16 + hex_value(input[at] as int))
    }
}

/// The character of the escape at `at`, where a backslash stands: `\n`, `\t`,
/// `\\`, `\"`, `\'`, or `\u` with four hexadecimal digits that name no
/// surrogate.
pub open spec fn escape_at(input: Seq<u8>, at: int) -> Parsed<char> {
    let named = peek(input, at + 1);
    if named < 0 {
        Parsed::Failed(Failure::Syntax(ErrorCode::EOFWhileParsingString, input.len() as int))
    } else if named == 110 {
        Parsed::Done('\n', at + 2)
    } else if named == 116 {
        Parsed::Done('\t', at + 2)
    } else if named == BACKSLASH {
        Parsed::Done('\\', at + 2)
    } else if named == DOUBLE_QUOTE {
        Parsed::Done('"', at + 2)
    } else if named == SINGLE_QUOTE {
        Parsed::Done('\'', at + 2)
    } else if named == 117 {
        match hex_at(input, at + 2, 4, 0) {
            Parsed::Done(code, _) => if 0xD800 <= code <= 0xDFFF {
                Parsed::Failed(Failure::Syntax(ErrorCode::LoneLeadingSurrogateInHexEscape, at))
            } else {
                Parsed::Done(code as char, at + 6)
            },
            Parsed::Failed(failure) => Parsed::Failed(failure),
        }
    } else {
        Parsed::Failed(Failure::Syntax(ErrorCode::InvalidEscape, at + 1))
    }
}

/// The bytes of the text from `at` to the closing `quote`, with each escape
/// replaced by the bytes of its character.
pub open spec fn text_at(input: Seq<u8>, at: int, quote: u8) -> Parsed<Seq<u8>>
    decreases input.len() - at,
{
    if !(0 <= at < input.len()) {
        Parsed::Failed(Failure::Syntax(ErrorCode::EOFWhileParsingString, input.len() as int))
    } else if input[at] == quote {
        Parsed::Done(Seq::empty(), at + 1)
    } else if input[at] == BACKSLASH {
        match escape_at(input, at) {
            Parsed::Done(c, next) => {
                if at < next <= input.len() {
                    match text_at(input, next, quote) {
                        Parsed::Done(rest, end) => Parsed::Done(char_bytes(c) + rest, end),
                        Parsed::Failed(failure) => Parsed::Failed(failure),
                    }
                } else {
                    Parsed::Failed(Failure::Syntax(ErrorCode::InvalidEscape, at))
                }
            },
            Parsed::Failed(failure) => Parsed::Failed(failure),
        }
    } else {
        match text_at(input, at + 1, quote) {
            Parsed::Done(rest, end) => Parsed::Done(seq![input[at]] + rest, end),
            Parsed::Failed(failure) => Parsed::Failed(failure),
        }
    }
}

/// The string literal at `at`: text between double quotes, which must be
/// UTF-8.
pub open spec fn string_at(input: Seq<u8>, at: int) -> Parsed<Seq<char>> {
    if peek(input, at) != DOUBLE_QUOTE {
        Parsed::Failed(no_value(input, at))
    } else {
        match text_at(input, at + 1, DOUBLE_QUOTE) {
            Parsed::Done(bytes, end) => if valid_utf8(bytes) {
                Parsed::Done(decode_utf8(bytes), end)
            } else {
                Parsed::Failed(Failure::Syntax(ErrorCode::NotUtf8, at))
            },
            Parsed::Failed(failure) => Parsed::Failed(failure),
        }
    }
}

/// The character literal at `at`: text between single quotes, which must be
/// UTF-8 and hold one character.
pub open spec fn char_at(input: Seq<u8>, at: int) -> Parsed<char> {
    if peek(input, at) != SINGLE_QUOTE {
        Parsed::Failed(no_value(input, at))
    } else {
        match text_at(input, at + 1, SINGLE_QUOTE) {
            Parsed::Done(bytes, end) => if !valid_utf8(bytes) {
                Parsed::Failed(Failure::Syntax(ErrorCode::NotUtf8, at))
            } else if decode_utf8(bytes).len() != 1 {
                Parsed::Failed(Failure::Syntax(ErrorCode::InvalidUnicodeCodePoint, at))
            } else {
                Parsed::Done(decode_utf8(bytes)[0], end)
            },
            Parsed::Failed(failure) => Parsed::Failed(failure),
        }
    }
}

/// `parsed` with what was read replaced by what `wrap` makes of it.
pub open spec fn wrapped<T, U>(parsed: Parsed<T>, wrap: spec_fn(T) -> U) -> Parsed<U> {
    match parsed {
        Parsed::Done(read, next) => Parsed::Done(wrap(read), next),
        Parsed::Failed(failure) => Parsed::Failed(failure),
    }
}

/// `parsed` with `first` put before what was read.
pub open spec fn preceded<T>(first: Seq<T>, parsed: Parsed<Seq<T>>) -> Parsed<Seq<T>> {
    match parsed {
        Parsed::Done(rest, next) => Parsed::Done(first + rest, next),
        Parsed::Failed(failure) => Parsed::Failed(failure),
    }
}

/// Where the next element of a collection stands, seen from `at`, which is
/// behind the opening delimiter (`first`) or behind an element. `Done(true, _)`
/// gives the offset of the element; `Done(false, _)` says that the collection
/// ends, and gives the offset behind the delimiter `close`. An element that is
/// not the first stands behind a comma; a comma may stand before `close`.
pub open spec fn element_start(
    input: Seq<u8>,
    at: int,
    first: bool,
    close: u8,
    expected: ErrorCode,
    ended: ErrorCode,
) -> Parsed<bool> {
    let here = skip_blank(input, at);
    let there = skip_blank(input, here + 1);
    if peek(input, here) < 0 {
        Parsed::Failed(Failure::Syntax(ended, input.len() as int))
    } else if peek(input, here) == close {
        Parsed::Done(false, here + 1)
    } else if first {
        Parsed::Done(true, here)
    } else if peek(input, here) != COMMA {
        Parsed::Failed(Failure::Syntax(expected, here))
    } else if peek(input, there) < 0 {
        Parsed::Failed(Failure::Syntax(ended, input.len() as int))
    } else if peek(input, there) == close {
        Parsed::Done(false, there + 1)
    } else {
        Parsed::Done(true, there)
    }
}

/// The last value given for the field of index `index` among `pairs`.
pub open spec fn last_given(pairs: Seq<(int, ValueView)>, index: int) -> Option<ValueView>
    decreases pairs.len(),
{
    if pairs.len() == 0 {
        None
    } else if pairs.last().0 == index {
        Some(pairs.last().1)
    } else {
        last_given(pairs.drop_last(), index)
    }
}

/// The least index from `from` on, below `count`, for which `pairs` give no
/// value, or `count` where they give one for each.
pub open spec fn first_missing(pairs: Seq<(int, ValueView)>, count: int, from: int) -> int
    decreases count - from,
{
    if from >= count {
        count
    } else if last_given(pairs, from) is None {
        from
    } else {
        first_missing(pairs, count, from + 1)
    }
}

/// The record that `pairs` give for `fields`: one entry for each field in the
/// order of declaration, from the field's name to the last value given for it.
pub open spec fn record_of(fields: Seq<FieldShape>, pairs: Seq<(int, ValueView)>) -> ValueView {
    ValueView::Mapping(
        Seq::new(
            fields.len(),
            |i: int| (ValueView::Str(fields[i].name@), last_given(pairs, i).unwrap()),
        ),
    )
}

/// The elements of a sequence from `at` on, up to the closing bracket.
pub open spec fn items_at(input: Seq<u8>, at: int, elem: Shape, first: bool) -> Parsed<
    Seq<ValueView>,
>
    decreases elem, input.len() - at, 1nat,
{
    match element_start(
        input,
        at,
        first,
        CLOSE_BRACKET,
        ErrorCode::ExpectedListCommaOrEnd,
        ErrorCode::EOFWhileParsingArray,
    ) {
        Parsed::Failed(failure) => Parsed::Failed(failure),
        Parsed::Done(false, end) => Parsed::Done(Seq::empty(), end),
        Parsed::Done(true, here) => match value_at(input, here, elem) {
            Parsed::Failed(failure) => Parsed::Failed(failure),
            Parsed::Done(item, next) => if at < next <= input.len() {
                preceded(seq![item], items_at(input, next, elem, false))
            } else {
                Parsed::Failed(no_value(input, here))
            },
        },
    }
}

/// The entries of a mapping from `at` on, up to the closing brace.
pub open spec fn entries_at(input: Seq<u8>, at: int, entry: EntryShape, first: bool) -> Parsed<
    Seq<(ValueView, ValueView)>,
>
    decreases entry, input.len() - at, 1nat,
{
    match element_start(
        input,
        at,
        first,
        CLOSE_BRACE,
        ErrorCode::ExpectedObjectCommaOrEnd,
        ErrorCode::EOFWhileParsingMap,
    ) {
        Parsed::Failed(failure) => Parsed::Failed(failure),
        Parsed::Done(false, end) => Parsed::Done(Seq::empty(), end),
        Parsed::Done(true, here) => if !starts_value(peek(input, here)) {
            Parsed::Failed(Failure::Syntax(ErrorCode::KeyMustBeAValue, here))
        } else {
            match value_at(input, here, entry.key) {
                Parsed::Failed(failure) => Parsed::Failed(failure),
                Parsed::Done(key, after_key) => {
                    let colon = skip_blank(input, after_key);
                    if peek(input, colon) != COLON {
                        Parsed::Failed(
                            fault(
                                input,
                                colon,
                                ErrorCode::ExpectedColon,
                                ErrorCode::EOFWhileParsingMap,
                            ),
                        )
                    } else {
                        match value_at(input, colon + 1, entry.value) {
                            Parsed::Failed(failure) => Parsed::Failed(failure),
                            Parsed::Done(value, next) => if at < next <= input.len() {
                                preceded(
                                    seq![(key, value)],
                                    entries_at(input, next, entry, false),
                                )
                            } else {
                                Parsed::Failed(no_value(input, here))
                            },
                        }
                    }
                },
            }
        },
    }
}

/// The key of a record's pair at `at`: an identifier that names a declared
/// field, and a colon behind it. Gives the index of the field and the offset
/// behind the colon.
pub open spec fn key_at(input: Seq<u8>, at: int, fields: Seq<FieldShape>) -> Parsed<int> {
    let stop = at + ident_len(input, at);
    let index = field_index(fields, input.subrange(at, stop));
    let colon = skip_blank(input, stop);
    if stop == at {
        Parsed::Failed(Failure::Syntax(ErrorCode::ExpectedName, at))
    } else if !(0 <= index < fields.len()) {
        Parsed::Failed(Failure::UnknownField(ascii_chars(input.subrange(at, stop)), at))
    } else if peek(input, colon) != COLON {
        Parsed::Failed(
            fault(input, colon, ErrorCode::ExpectedColon, ErrorCode::EOFWhileParsingObject),
        )
    } else {
        Parsed::Done(index, colon + 1)
    }
}

/// The pairs of a record from `at` on, up to the closing brace: each the index
/// of a declared field and the value given for it.
pub open spec fn fields_at(input: Seq<u8>, at: int, fields: Vec<FieldShape>, first: bool) -> Parsed<
    Seq<(int, ValueView)>,
>
    decreases fields, input.len() - at, 1nat,
{
    match element_start(
        input,
        at,
        first,
        CLOSE_BRACE,
        ErrorCode::ExpectedObjectCommaOrEnd,
        ErrorCode::EOFWhileParsingObject,
    ) {
        Parsed::Failed(failure) => Parsed::Failed(failure),
        Parsed::Done(false, end) => Parsed::Done(Seq::empty(), end),
        Parsed::Done(true, here) => match key_at(input, here, fields@) {
            Parsed::Failed(failure) => Parsed::Failed(failure),
            Parsed::Done(index, after) => if 0 <= index < fields@.len() {
                match value_at(input, after, fields@[index].shape) {
                    Parsed::Failed(failure) => Parsed::Failed(failure),
                    Parsed::Done(value, next) => if at < next <= input.len() {
                        preceded(seq![(index, value)], fields_at(input, next, fields, false))
                    } else {
                        Parsed::Failed(no_value(input, here))
                    },
                }
            } else {
                Parsed::Failed(no_value(input, here))
            },
        },
    }
}

/// The record at `at`: between braces, pairs of an identifier that names a
/// declared field, and a value. Each declared field must be given; where one is
/// given again, the last value stands.
pub open spec fn record_at(input: Seq<u8>, at: int, fields: Vec<FieldShape>) -> Parsed<ValueView>
    decreases fields, input.len() - at, 2nat,
{
    if peek(input, at) != OPEN_BRACE {
        Parsed::Failed(no_value(input, at))
    } else {
        match fields_at(input, at + 1, fields, true) {
            Parsed::Failed(failure) => Parsed::Failed(failure),
            Parsed::Done(pairs, end) => {
                let missing = first_missing(pairs, fields@.len() as int, 0);
                if 0 <= missing < fields@.len() {
                    Parsed::Failed(Failure::MissingField(fields@[missing].name))
                } else {
                    Parsed::Done(record_of(fields@, pairs), end)
                }
            },
        }
    }
}

/// What the variant `variant` carries, written at `at`.
pub open spec fn payload_at(input: Seq<u8>, at: int, variant: VariantShape) -> Parsed<PayloadView>
    decreases variant, input.len() - at, 1nat,
{
    match variant.payload {
        PayloadShape::Unit => wrapped(unit_at(input, at), |read: ()| PayloadView::Unit),
        PayloadShape::Sequence(elem) => if peek(input, at) != OPEN_BRACKET {
            Parsed::Failed(
                fault(
                    input,
                    at,
                    ErrorCode::ExpectedEnumMapStart,
                    ErrorCode::EOFWhileParsingObject,
                ),
            )
        } else {
            wrapped(
                items_at(input, at + 1, elem, true),
                |items: Seq<ValueView>| PayloadView::Sequence(items),
            )
        },
        PayloadShape::Mapping(entry) => if peek(input, at) != OPEN_BRACE {
            Parsed::Failed(
                fault(
                    input,
                    at,
                    ErrorCode::ExpectedEnumMapStart,
                    ErrorCode::EOFWhileParsingObject,
                ),
            )
        } else {
            wrapped(
                entries_at(input, at + 1, entry, true),
                |entries: Seq<(ValueView, ValueView)>| PayloadView::Mapping(entries),
            )
        },
    }
}

/// The variant at `at` that is written bare: between two markers, an
/// identifier that names a declared variant that carries nothing.
pub open spec fn bare_variant_at(
    input: Seq<u8>,
    at: int,
    name: Seq<char>,
    variants: Seq<VariantShape>,
) -> Parsed<ValueView> {
    let start = at + 2;
    let stop = start + ident_len(input, start);
    let index = variant_index(variants, input.subrange(start, stop));
    if peek(input, at + 1) != MARKER_TAIL {
        Parsed::Failed(
            fault(input, at + 1, ErrorCode::ExpectedEnumToken, ErrorCode::EOFWhileParsingValue),
        )
    } else if stop == start {
        Parsed::Failed(
            fault(input, start, ErrorCode::ExpectedSomeIdent, ErrorCode::EOFWhileParsingValue),
        )
    } else if peek(input, stop) != MARKER_LEAD {
        Parsed::Failed(
            fault(input, stop, ErrorCode::ExpectedEnumEnd, ErrorCode::EOFWhileParsingValue),
        )
    } else if peek(input, stop + 1) != MARKER_TAIL {
        Parsed::Failed(
            fault(input, stop + 1, ErrorCode::ExpectedEnumEnd, ErrorCode::EOFWhileParsingValue),
        )
    } else if !(0 <= index < variants.len()) {
        Parsed::Failed(Failure::Syntax(ErrorCode::UnknownVariant, start))
    } else if !(variants[index].payload is Unit) {
        Parsed::Failed(Failure::Syntax(ErrorCode::ExpectedEnumMapStart, at))
    } else {
        Parsed::Done(
            ValueView::Variant(name, variants[index].name@, PayloadView::Unit),
            stop + 2,
        )
    }
}

/// The variant at `at` that is written as a mapping of one entry: between
/// braces, the quoted name of a declared variant, a colon, and what the variant
/// carries.
pub open spec fn tagged_variant_at(
    input: Seq<u8>,
    at: int,
    name: Seq<char>,
    variants: Vec<VariantShape>,
) -> Parsed<ValueView>
    decreases variants, input.len() - at, 2nat,
{
    let quote = skip_blank(input, at + 1);
    if peek(input, quote) != DOUBLE_QUOTE {
        Parsed::Failed(
            fault(
                input,
                quote,
                ErrorCode::ExpectedEnumVariantString,
                ErrorCode::EOFWhileParsingObject,
            ),
        )
    } else {
        match text_at(input, quote + 1, DOUBLE_QUOTE) {
            Parsed::Failed(failure) => Parsed::Failed(failure),
            Parsed::Done(tag, after_tag) => {
                let index = variant_index(variants@, tag);
                let colon = skip_blank(input, after_tag);
                if !(0 <= index < variants@.len()) {
                    Parsed::Failed(Failure::Syntax(ErrorCode::UnknownVariant, quote))
                } else if peek(input, colon) != COLON {
                    Parsed::Failed(
                        fault(
                            input,
                            colon,
                            ErrorCode::ExpectedColon,
                            ErrorCode::EOFWhileParsingObject,
                        ),
                    )
                } else {
                    match payload_at(input, skip_blank(input, colon + 1), variants@[index]) {
                        Parsed::Failed(failure) => Parsed::Failed(failure),
                        Parsed::Done(payload, after_payload) => {
                            let close = skip_blank(input, after_payload);
                            if peek(input, close) != CLOSE_BRACE {
                                Parsed::Failed(
                                    fault(
                                        input,
                                        close,
                                        ErrorCode::ExpectedEnumEndToken,
                                        ErrorCode::EOFWhileParsingObject,
                                    ),
                                )
                            } else {
                                Parsed::Done(
                                    ValueView::Variant(name, variants@[index].name@, payload),
                                    close + 1,
                                )
                            }
                        },
                    }
                }
            },
        }
    }
}

/// The value of the given shape at `at`, behind any whitespace.
pub open spec fn value_at(input: Seq<u8>, at: int, shape: Shape) -> Parsed<ValueView>
    decreases shape, input.len() - at, 0nat,
{
    let here = skip_blank(input, at);
    match shape {
        Shape::Unit => wrapped(unit_at(input, here), |read: ()| ValueView::Unit),
        Shape::Bool => wrapped(bool_at(input, here), |read: bool| ValueView::Bool(read)),
        Shape::Int(kind) => wrapped(
            integer_at(input, here, kind),
            |read: int| ValueView::Int(kind, read),
        ),
        Shape::Float(kind) => wrapped(
            float_at(input, here),
            |read: Seq<char>| ValueView::Float(kind, read),
        ),
        Shape::Char => wrapped(char_at(input, here), |read: char| ValueView::Char(read)),
        Shape::Str => wrapped(string_at(input, here), |read: Seq<char>| ValueView::Str(read)),
        Shape::Optional(inner) => if peek(input, here) == OPEN_PAREN {
            wrapped(unit_at(input, here), |read: ()| ValueView::Optional(None))
        } else {
            wrapped(
                value_at(input, here, *inner),
                |read: ValueView| ValueView::Optional(Some(Box::new(read))),
            )
        },
        Shape::Sequence(elem) => if peek(input, here) != OPEN_BRACKET {
            Parsed::Failed(no_value(input, here))
        } else {
            wrapped(
                items_at(input, here + 1, *elem, true),
                |items: Seq<ValueView>| ValueView::Sequence(items),
            )
        },
        Shape::Mapping(entry) => if peek(input, here) != OPEN_BRACE {
            Parsed::Failed(no_value(input, here))
        } else {
            wrapped(
                entries_at(input, here + 1, *entry, true),
                |entries: Seq<(ValueView, ValueView)>| ValueView::Mapping(entries),
            )
        },
        Shape::Enum(name, variants) => if peek(input, here) == MARKER_LEAD {
            bare_variant_at(input, here, name@, variants@)
        } else if peek(input, here) == OPEN_BRACE {
            tagged_variant_at(input, here, name@, variants)
        } else {
            Parsed::Failed(
                fault(input, here, ErrorCode::ExpectedEnumToken, ErrorCode::EOFWhileParsingValue),
            )
        },
        Shape::Record(fields) => record_at(input, here, fields),
    }
}

/// The one value of the given shape that the whole input holds: nothing but
/// whitespace may follow it.
pub open spec fn document(input: Seq<u8>, shape: Shape) -> Parsed<ValueView> {
    match value_at(input, 0, shape) {
        Parsed::Failed(failure) => Parsed::Failed(failure),
        Parsed::Done(value, next) => {
            let end = skip_blank(input, next);
            if peek(input, end) >= 0 {
                Parsed::Failed(Failure::Syntax(ErrorCode::TrailingCharacters, end))
            } else {
                Parsed::Done(value, end)
            }
        },
    }
}

} // verus!
