//! What the grammar reads where a known text stands in the input: the facts
//! from which it follows that what the encoder writes is read back as it was.

use vstd::prelude::*;
use vstd::utf8::*;
use crate::decode::lemma_number_is_ascii;
use crate::encode::{bool_text, escaped, unit_text, variant_marker};
use crate::grammar::{
    BACKSLASH,
    CLOSE_BRACE,
    CLOSE_BRACKET,
    COLON,
    COMMA,
    DOT,
    DOUBLE_QUOTE,
    MARKER_LEAD,
    MARKER_TAIL,
    MINUS,
    Parsed,
    SINGLE_QUOTE,
    after_sign,
    all_digits,
    bool_at,
    char_at,
    digit_run,
    digits_value,
    exponent_digits,
    false_word,
    float_at,
    fraction_end,
    has_exponent,
    integer_at,
    integer_of,
    is_blank,
    is_digit,
    is_float_at,
    is_float_text,
    is_sign,
    matched,
    number_end,
    peek,
    skip_blank,
    string_at,
    text_at,
    true_word,
    unit_at,
    whole_end,
};
use crate::number::{decimal, digit_byte, digits, lemma_digits_are_digits};
use crate::text::{char_bytes, lemma_ascii_text, lemma_single_char_text};
use crate::value::IntKind;

verus! {

/// Whether the bytes of `text` stand in `input` from the offset `at` on.
pub open spec fn stands_at(input: Seq<u8>, at: int, text: Seq<u8>) -> bool {
    &&& 0 <= at
    &&& at + text.len() <= input.len()
    &&& forall|i: int| 0 <= i < text.len() ==> input[at + i] == #[trigger] text[i]
}

/// Whether every byte of `text` is whitespace.
pub open spec fn is_blank_text(text: Seq<u8>) -> bool {
    forall|i: int| 0 <= i < text.len() ==> is_blank(#[trigger] text[i] as int)
}

/// Whether none of the bytes of `text` is `quote` or a backslash: whether the
/// text can stand between two of `quote` as it is.
pub open spec fn needs_no_escape(text: Seq<u8>, quote: u8) -> bool {
    forall|i: int| 0 <= i < text.len() ==> #[trigger] text[i] != quote && text[i] != BACKSLASH
}

/// Whether the byte `b`, or the end of the input for a negative `b`, ends the
/// token before it: a comma, a colon, a closing delimiter or whitespace.
pub open spec fn ends_token(b: int) -> bool {
    ||| b < 0
    ||| b == COMMA
    ||| b == COLON
    ||| b == CLOSE_BRACKET
    ||| b == CLOSE_BRACE
    ||| is_blank(b)
}

/// A text that stands in the input is the input's bytes there.
pub proof fn lemma_stands_is_subrange(input: Seq<u8>, at: int, text: Seq<u8>)
    requires
        stands_at(input, at, text),
    ensures
        input.subrange(at, at + text.len()) == text,
{
    assert(input.subrange(at, at + text.len()) =~= text);
}

/// Where two texts stand one behind the other, each stands at its place, and
/// the other way round.
pub proof fn lemma_stands_split(input: Seq<u8>, at: int, first: Seq<u8>, second: Seq<u8>)
    ensures
        stands_at(input, at, first + second) <==> stands_at(input, at, first) && stands_at(
            input,
            at + first.len(),
            second,
        ),
{
    let both = first + second;
    if stands_at(input, at, both) {
        assert forall|i: int| 0 <= i < first.len() implies input[at + i] == #[trigger] first[i] by {
            assert(both[i] == first[i]);
        }
        assert forall|i: int| 0 <= i < second.len() implies input[at + first.len() + i]
            == #[trigger] second[i] by {
            assert(both[first.len() + i] == second[i]);
        }
    }
    if stands_at(input, at, first) && stands_at(input, at + first.len(), second) {
        assert forall|i: int| 0 <= i < both.len() implies input[at + i] == #[trigger] both[i] by {
            if i < first.len() {
                assert(both[i] == first[i]);
            } else {
                assert(both[i] == second[i - first.len()]);
            }
        }
    }
}

/// Whitespace is skipped up to the first byte that is none.
pub proof fn lemma_skip_blanks(input: Seq<u8>, at: int, blanks: Seq<u8>)
    requires
        stands_at(input, at, blanks),
        is_blank_text(blanks),
        !is_blank(peek(input, at + blanks.len())),
    ensures
        skip_blank(input, at) == at + blanks.len(),
    decreases blanks.len(),
{
    if blanks.len() > 0 {
        let rest = blanks.drop_first();
        assert(input[at] == blanks[0]);
        assert forall|i: int| 0 <= i < rest.len() implies input[at + 1 + i] == #[trigger] rest[i] by {
            assert(blanks[i + 1] == rest[i]);
        }
        assert forall|i: int| 0 <= i < rest.len() implies is_blank(#[trigger] rest[i] as int) by {
            assert(blanks[i + 1] == rest[i]);
        }
        lemma_skip_blanks(input, at + 1, rest);
    }
}

/// A run of digits that stands in the input before a byte that is no digit is
/// the whole run of digits there.
pub proof fn lemma_digit_run_over(input: Seq<u8>, at: int, run: Seq<u8>)
    requires
        stands_at(input, at, run),
        all_digits(run),
        !is_digit(peek(input, at + run.len())),
    ensures
        digit_run(input, at) == run.len(),
    decreases run.len(),
{
    if run.len() > 0 {
        let rest = run.drop_first();
        assert(input[at] == run[0]);
        assert forall|i: int| 0 <= i < rest.len() implies input[at + 1 + i] == #[trigger] rest[i] by {
            assert(run[i + 1] == rest[i]);
        }
        assert forall|i: int| 0 <= i < rest.len() implies is_digit(#[trigger] rest[i] as int) by {
            assert(run[i + 1] == rest[i]);
        }
        lemma_digit_run_over(input, at + 1, rest);
    }
}

/// The digits of a number stand for the number.
pub proof fn lemma_digits_value(n: nat)
    ensures
        all_digits(digits(n)),
        digits_value(digits(n)) == n,
    decreases n,
{
    lemma_digits_are_digits(n);
    let run = digits(n);
    assert(digits_value(run) == digits_value(run.drop_last()) * 10 + (run.last() - 48) as nat);
    if n >= 10 {
        lemma_digits_value(n / 10);
        assert(run.drop_last() =~= digits(n / 10));
        assert(run.last() == digit_byte((n % 10) as int));
    } else {
        assert(run.drop_last() =~= Seq::<u8>::empty());
        assert(run.last() == digit_byte(n as int));
    }
}

/// The decimal text of a number stands for the number, and starts with a minus
/// sign exactly where the number is negative.
pub proof fn lemma_decimal_value(n: int)
    ensures
        decimal(n).len() > 0,
        integer_of(decimal(n)) == Some(n),
        (decimal(n)[0] == MINUS) == (n < 0),
        n >= 0 ==> decimal(n) == digits(n as nat),
        n < 0 ==> decimal(n) == seq![MINUS] + digits((-n) as nat),
{
    let text = decimal(n);
    if n < 0 {
        let run = digits((-n) as nat);
        lemma_digits_value((-n) as nat);
        assert(text[0] == MINUS);
        assert(text.subrange(1, text.len() as int) =~= run);
    } else {
        let run = digits(n as nat);
        lemma_digits_value(n as nat);
        assert(is_digit(run[0] as int));
    }
}

/// Where the decimal text of a number stands in the input before a byte that
/// ends a token, the integer read there is the number, for each kind that
/// holds it.
pub proof fn lemma_integer_reads(input: Seq<u8>, at: int, n: int, kind: IntKind)
    requires
        stands_at(input, at, decimal(n)),
        ends_token(peek(input, at + decimal(n).len())),
        kind.holds(n),
    ensures
        integer_at(input, at, kind) == Parsed::<int>::Done(n, at + decimal(n).len()),
{
    let text = decimal(n);
    lemma_decimal_value(n);
    lemma_stands_is_subrange(input, at, text);
    let run = if n < 0 {
        digits((-n) as nat)
    } else {
        digits(n as nat)
    };
    lemma_digits_value(if n < 0 {
        (-n) as nat
    } else {
        n as nat
    });
    assert(input[at] == text[0]);
    if n < 0 {
        lemma_stands_split(input, at, seq![MINUS], run);
        assert(after_sign(input, at) == at + 1);
        lemma_digit_run_over(input, at + 1, run);
    } else {
        assert(is_digit(run[0] as int));
        assert(after_sign(input, at) == at);
        lemma_digit_run_over(input, at, run);
    }
    assert(whole_end(input, at) == at + text.len());
    assert(fraction_end(input, at) == at + text.len());
    assert(!has_exponent(input, at));
    assert(number_end(input, at) == at + text.len());
}

/// Where `text` stands in the input before a byte that is no digit, the run of
/// digits from a place in the text is the one that the text alone has there.
pub proof fn lemma_digit_run_within(input: Seq<u8>, at: int, text: Seq<u8>, k: int)
    requires
        stands_at(input, at, text),
        !is_digit(peek(input, at + text.len())),
        0 <= k <= text.len(),
    ensures
        digit_run(input, at + k) == digit_run(text, k),
        k + digit_run(text, k) <= text.len(),
    decreases text.len() - k,
{
    if k < text.len() {
        assert(input[at + k] == text[k]);
        if is_digit(text[k] as int) {
            lemma_digit_run_within(input, at, text, k + 1);
        }
    }
}

/// Where a number literal stands in the input before a byte that ends a
/// token, the number literal read there is all of it, and is one of a
/// floating-point number if the text alone is.
pub proof fn lemma_number_within(input: Seq<u8>, at: int, text: Seq<u8>)
    requires
        stands_at(input, at, text),
        ends_token(peek(input, at + text.len())),
        number_end(text, 0) == text.len(),
    ensures
        number_end(input, at) == at + text.len(),
        is_float_at(input, at) == is_float_at(text, 0),
{
    let len = text.len() as int;
    assert forall|k: int| 0 <= k < len implies peek(input, at + k) == peek(text, k) by {
        assert(input[at + k] == text[k]);
    }
    assert(!is_sign(peek(text, len)) && !is_sign(peek(input, at + len)));
    let signed = after_sign(text, 0);
    assert(len > 0 ==> peek(input, at + 0) == peek(text, 0));
    assert(after_sign(input, at) == at + signed);
    lemma_digit_run_within(input, at, text, signed);
    let whole = whole_end(text, 0);
    assert(whole_end(input, at) == at + whole);
    assert(whole < len ==> peek(input, at + whole) == peek(text, whole));
    if peek(text, whole) == DOT {
        lemma_digit_run_within(input, at, text, whole + 1);
    }
    let fraction = fraction_end(text, 0);
    assert(fraction_end(input, at) == at + fraction);
    assert(fraction < len ==> peek(input, at + fraction) == peek(text, fraction));
    assert(has_exponent(input, at) == has_exponent(text, 0));
    if has_exponent(text, 0) {
        assert(fraction + 1 < len ==> peek(input, at + (fraction + 1)) == peek(text, fraction + 1));
        let exponent = exponent_digits(text, 0);
        assert(exponent_digits(input, at) == at + exponent);
        lemma_digit_run_within(input, at, text, exponent);
    }
}

/// Whether `text` is the text of a floating-point number that the notation
/// can hold: a number literal with a digit in it.
pub open spec fn is_float_literal(text: Seq<char>) -> bool {
    is_float_text(encode_utf8(text))
}

/// Where the text of a floating-point number stands in the input before a byte
/// that ends a token, the text read there is that text.
pub proof fn lemma_float_reads(input: Seq<u8>, at: int, text: Seq<char>)
    requires
        is_float_literal(text),
        stands_at(input, at, encode_utf8(text)),
        ends_token(peek(input, at + encode_utf8(text).len())),
    ensures
        float_at(input, at) == Parsed::<Seq<char>>::Done(text, at + encode_utf8(text).len()),
{
    let bytes = encode_utf8(text);
    lemma_number_within(input, at, bytes);
    lemma_stands_is_subrange(input, at, bytes);
    lemma_number_is_ascii(bytes, 0);
    lemma_ascii_text(bytes);
    encode_utf8_decode_utf8(text);
}

/// Where the unit token stands in the input, it is read.
pub proof fn lemma_unit_reads(input: Seq<u8>, at: int)
    requires
        stands_at(input, at, unit_text()),
    ensures
        unit_at(input, at) == Parsed::<()>::Done((), at + 2),
{
    assert(input[at + 0] == unit_text()[0]);
    assert(input[at + 1] == unit_text()[1]);
}

/// Where the word of a truth value stands in the input, the truth value is
/// read.
pub proof fn lemma_bool_reads(input: Seq<u8>, at: int, b: bool)
    requires
        stands_at(input, at, bool_text(b)),
    ensures
        bool_at(input, at) == Parsed::<bool>::Done(b, at + bool_text(b).len()),
{
    let word = bool_text(b);
    assert(input[at + 0] == word[0]);
    assert(input[at + 1] == word[1]);
    assert(input[at + 2] == word[2]);
    assert(input[at + 3] == word[3]);
    reveal_with_fuel(matched, 6);
    if b {
        assert(word =~= true_word());
        assert(true_word().drop_first() =~= seq![114u8, 117u8, 101u8]);
        assert(true_word().drop_first().drop_first() =~= seq![117u8, 101u8]);
        assert(true_word().drop_first().drop_first().drop_first() =~= seq![101u8]);
        assert(true_word().drop_first().drop_first().drop_first().drop_first() =~= Seq::<
            u8,
        >::empty());
        assert(matched(input, at, true_word()) == 4);
    } else {
        assert(input[at + 4] == word[4]);
        assert(word =~= false_word());
        assert(false_word().drop_first() =~= seq![97u8, 108u8, 115u8, 101u8]);
        assert(false_word().drop_first().drop_first() =~= seq![108u8, 115u8, 101u8]);
        assert(false_word().drop_first().drop_first().drop_first() =~= seq![115u8, 101u8]);
        assert(false_word().drop_first().drop_first().drop_first().drop_first() =~= seq![101u8]);
        assert(false_word().drop_first().drop_first().drop_first().drop_first().drop_first()
            =~= Seq::<u8>::empty());
        assert(matched(input, at, false_word()) == 5);
    }
}

/// Where a text that needs no escape stands in the input before its closing
/// quote, the text read there is that text.
pub proof fn lemma_text_reads(input: Seq<u8>, at: int, text: Seq<u8>, quote: u8)
    requires
        stands_at(input, at, text),
        needs_no_escape(text, quote),
        peek(input, at + text.len()) == quote,
    ensures
        text_at(input, at, quote) == Parsed::<Seq<u8>>::Done(text, at + text.len() + 1),
    decreases text.len(),
{
    if text.len() > 0 {
        let rest = text.drop_first();
        assert(input[at] == text[0]);
        assert forall|i: int| 0 <= i < rest.len() implies input[at + 1 + i] == #[trigger] rest[i] by {
            assert(text[i + 1] == rest[i]);
        }
        assert forall|i: int| 0 <= i < rest.len() implies #[trigger] rest[i] != quote && rest[i]
            != BACKSLASH by {
            assert(text[i + 1] == rest[i]);
        }
        lemma_text_reads(input, at + 1, rest, quote);
        assert(seq![input[at]] + rest =~= text);
    } else {
        assert(text =~= Seq::<u8>::empty());
    }
}

/// The bytes of an ASCII character are the one byte of its number.
pub proof fn lemma_ascii_char_bytes(c: char)
    requires
        (c as u32) < 128,
    ensures
        char_bytes(c) == seq![c as u8],
{
    let scalar = c as u32;
    assert((scalar & 0x7F) as u8 == scalar as u8) by (bit_vector)
        requires
            scalar < 128,
    ;
    assert(char_bytes(c) =~= seq![c as u8]);
}

/// The bytes of the marker of a variant that carries nothing.
pub proof fn lemma_marker_bytes()
    ensures
        char_bytes(variant_marker()) == seq![MARKER_LEAD, MARKER_TAIL],
{
    let scalar: u32 = 0xB6;
    assert(0xC0u8 | ((scalar >> 6) & 0x1F) as u8 == 0xC2u8) by (bit_vector)
        requires
            scalar == 0xB6,
    ;
    assert(0x80u8 | (scalar & 0x3F) as u8 == 0xB6u8) by (bit_vector)
        requires
            scalar == 0xB6,
    ;
    assert(variant_marker() as u32 == scalar);
    assert(char_bytes(variant_marker()) =~= seq![MARKER_LEAD, MARKER_TAIL]);
}

/// Where a text between two of `quote` stands in the input, and needs no
/// escape, the text read behind the opening quote is that text.
pub proof fn lemma_quoted_reads(input: Seq<u8>, at: int, text: Seq<u8>, quote: u8)
    requires
        quote == DOUBLE_QUOTE || quote == SINGLE_QUOTE,
        stands_at(input, at, escaped(text, quote as char)),
        needs_no_escape(text, quote),
    ensures
        escaped(text, quote as char).len() == text.len() + 2,
        peek(input, at) == quote,
        text_at(input, at + 1, quote) == Parsed::<Seq<u8>>::Done(text, at + text.len() + 2),
{
    let mark = quote as char;
    lemma_ascii_char_bytes(mark);
    assert(char_bytes(mark) == seq![quote]);
    let whole = escaped(text, mark);
    lemma_stands_split(input, at, seq![quote] + text, seq![quote]);
    lemma_stands_split(input, at, seq![quote], text);
    assert(input[at + 0] == seq![quote][0]);
    assert(input[at + 1 + text.len() + 0] == seq![quote][0]);
    lemma_text_reads(input, at + 1, text, quote);
}

/// Where a string between double quotes stands in the input, and needs no
/// escape, the string read there is that string.
pub proof fn lemma_string_reads(input: Seq<u8>, at: int, text: Seq<char>)
    requires
        stands_at(input, at, escaped(encode_utf8(text), '"')),
        needs_no_escape(encode_utf8(text), DOUBLE_QUOTE),
    ensures
        string_at(input, at) == Parsed::<Seq<char>>::Done(text, at + encode_utf8(text).len() + 2),
{
    assert(DOUBLE_QUOTE as char == '"');
    lemma_quoted_reads(input, at, encode_utf8(text), DOUBLE_QUOTE);
    encode_utf8_valid_utf8(text);
    encode_utf8_decode_utf8(text);
}

/// Where a character between single quotes stands in the input, and needs no
/// escape, the character read there is that character.
pub proof fn lemma_char_reads(input: Seq<u8>, at: int, c: char)
    requires
        stands_at(input, at, escaped(char_bytes(c), '\'')),
        needs_no_escape(char_bytes(c), SINGLE_QUOTE),
    ensures
        char_at(input, at) == Parsed::<char>::Done(c, at + char_bytes(c).len() + 2),
{
    assert(SINGLE_QUOTE as char == '\'');
    lemma_quoted_reads(input, at, char_bytes(c), SINGLE_QUOTE);
    lemma_single_char_text(c);
    encode_utf8_valid_utf8(seq![c]);
    encode_utf8_decode_utf8(seq![c]);
}

/// No byte of a character that is no ASCII character is an ASCII byte, and
/// the one byte of an ASCII character is its number.
pub proof fn lemma_char_bytes_apart(c: char)
    ensures
        (c as u32) < 128 ==> char_bytes(c) == seq![c as u8],
        (c as u32) >= 128 ==> forall|i: int|
            0 <= i < char_bytes(c).len() ==> #[trigger] char_bytes(c)[i] >= 128,
{
    let scalar = c as u32;
    if scalar < 128 {
        lemma_ascii_char_bytes(c);
    } else {
        let b1 = ((scalar >> 6) & 0x1F) as u8;
        let b2 = ((scalar >> 12) & 0x0F) as u8;
        let b3 = ((scalar >> 18) & 0x7) as u8;
        let c1 = (scalar & 0x3F) as u8;
        let c2 = ((scalar >> 6) & 0x3F) as u8;
        let c3 = ((scalar >> 12) & 0x3F) as u8;
        assert(0xC0u8 | b1 >= 128) by (bit_vector);
        assert(0xE0u8 | b2 >= 128) by (bit_vector);
        assert(0xF0u8 | b3 >= 128) by (bit_vector);
        assert(0x80u8 | c1 >= 128) by (bit_vector);
        assert(0x80u8 | c2 >= 128) by (bit_vector);
        assert(0x80u8 | c3 >= 128) by (bit_vector);
    }
}

/// An ASCII character that is not the character of the byte `b` has another
/// byte than `b`.
pub proof fn lemma_ascii_char_apart(c: char, b: u8)
    requires
        (c as u32) < 128,
        c != b as char,
    ensures
        char_bytes(c) == seq![c as u8],
        c as u8 != b,
{
    lemma_ascii_char_bytes(c);
    let number = c as u32;
    char_u32_cast(c, number);
    if c as u8 == b {
        assert(number == b as u32);
        assert(number as char == b as char);
    }
}

/// A text that holds neither the character of `quote` nor a backslash needs
/// no escape between two of `quote`.
pub proof fn lemma_needs_no_escape(text: Seq<char>, quote: u8)
    requires
        quote < 128,
        forall|i: int| 0 <= i < text.len() ==> #[trigger] text[i] != quote as char && text[i] != '\\',
    ensures
        needs_no_escape(encode_utf8(text), quote),
    decreases text.len(),
{
    if text.len() > 0 {
        let first = char_bytes(text[0]);
        let rest = encode_utf8(text.drop_first());
        lemma_char_bytes_apart(text[0]);
        assert forall|i: int| 0 <= i < text.drop_first().len() implies #[trigger] text.drop_first()[i]
            != quote as char && text.drop_first()[i] != '\\' by {
            assert(text.drop_first()[i] == text[i + 1]);
        }
        lemma_needs_no_escape(text.drop_first(), quote);
        let bytes = encode_utf8(text);
        assert(bytes =~= first + rest);
        assert forall|i: int| 0 <= i < first.len() implies #[trigger] first[i] != quote && first[i]
            != BACKSLASH by {
            if (text[0] as u32) < 128 {
                lemma_ascii_char_apart(text[0], quote);
                lemma_ascii_char_apart(text[0], BACKSLASH);
            } else {
                assert(first[i] >= 128);
            }
        }
        assert forall|i: int| 0 <= i < bytes.len() implies #[trigger] bytes[i] != quote && bytes[i]
            != BACKSLASH by {
            if i < first.len() {
                assert(bytes[i] == first[i]);
            } else {
                assert(bytes[i] == rest[i - first.len()]);
            }
        }
    }
}

/// A character that is neither a single quote nor a backslash needs no escape
/// between two single quotes.
pub proof fn lemma_char_needs_no_escape(c: char)
    requires
        c != '\'',
        c != '\\',
    ensures
        needs_no_escape(char_bytes(c), SINGLE_QUOTE),
{
    lemma_char_bytes_apart(c);
    let bytes = char_bytes(c);
    assert forall|i: int| 0 <= i < bytes.len() implies #[trigger] bytes[i] != SINGLE_QUOTE
        && bytes[i] != BACKSLASH by {
        if (c as u32) < 128 {
            lemma_ascii_char_apart(c, SINGLE_QUOTE);
            lemma_ascii_char_apart(c, BACKSLASH);
        }
    }
}

} // verus!
