//! Reading values from notation text.
//!
//! A [`Decoder`] reads the value of a given shape at its cursor, by one
//! routine for each production of the grammar, and stops at the first failure
//! with the line and column of the byte that caused it.

use vstd::prelude::*;
use vstd::slice::*;
use vstd::string::*;
use vstd::utf8::*;
use crate::error::{Error, ErrorCode};
use crate::grammar::{
    BACKSLASH,
    CARRIAGE_RETURN,
    CLOSE_BRACE,
    CLOSE_BRACKET,
    CLOSE_PAREN,
    COLON,
    COMMA,
    DOT,
    DOUBLE_QUOTE,
    Failure,
    LINE_FEED,
    MARKER_LEAD,
    MARKER_TAIL,
    MINUS,
    OPEN_BRACE,
    OPEN_BRACKET,
    OPEN_PAREN,
    PLUS,
    Parsed,
    SINGLE_QUOTE,
    SPACE,
    TAB,
    UNDERSCORE,
    after_sign,
    all_digits,
    bare_variant_at,
    bool_at,
    char_at,
    digit_run,
    digits_value,
    document,
    element_start,
    entries_at,
    escape_at,
    exponent_digits,
    false_word,
    fault,
    fields_at,
    first_missing,
    float_at,
    fraction_end,
    hex_at,
    hex_value,
    ident_len,
    ident_run,
    integer_as,
    integer_at,
    integer_of,
    key_at,
    is_blank,
    is_digit,
    is_float_at,
    is_ident_part,
    is_ident_start,
    is_sign,
    items_at,
    last_given,
    matched,
    no_value,
    number_end,
    payload_at,
    peek,
    preceded,
    record_at,
    record_of,
    skip_blank,
    starts_value,
    string_at,
    tagged_variant_at,
    text_at,
    true_word,
    unit_at,
    value_at,
    whole_end,
};
use crate::shape::{
    EntryShape,
    FieldShape,
    PayloadShape,
    Shape,
    VariantShape,
    find_field,
    find_variant,
};
use crate::lexer::{Lexer, column_at, line_at, syntax_at};
use crate::text::{char_bytes, lemma_ascii_text, push_char, text_of_bytes};
use crate::value::{
    FloatKind,
    IntKind,
    Payload,
    PayloadView,
    Value,
    ValueView,
    entry_models,
    models,
};

verus! {

/// Whether `error` reports `failure` in `input`: the same code, at the line and
/// the column of the failure's offset.
pub open spec fn failed_as(failure: Failure, input: Seq<u8>, error: Error) -> bool {
    match failure {
        Failure::Syntax(code, at) => error == syntax_at(code, input, at),
        Failure::UnknownField(name, at) => {
            &&& error matches Error::Syntax(ErrorCode::UnknownField(field), line, column)
            &&& field@ == name
            &&& line == line_at(input, at)
            &&& column == column_at(input, at) + 1
        },
        Failure::MissingField(name) => error == Error::MissingField(name),
    }
}

/// Whether `result` is what `parsed` asks for: the same value, as `same` sees
/// it, with the cursor at `offset` behind it, or an error that reports the
/// failure.
pub open spec fn outcome<T, U>(
    result: Result<T, Error>,
    parsed: Parsed<U>,
    input: Seq<u8>,
    offset: int,
    same: spec_fn(T, U) -> bool,
) -> bool {
    match parsed {
        Parsed::Done(read, next) => {
            &&& result matches Ok(got)
            &&& same(got, read)
            &&& offset == next
        },
        Parsed::Failed(failure) => {
            &&& result matches Err(error)
            &&& failed_as(failure, input, error)
        },
    }
}

/// Every byte of a run of digits is a digit, and the byte behind it is none.
pub proof fn lemma_digit_run(input: Seq<u8>, at: int)
    requires
        0 <= at,
    ensures
        at + digit_run(input, at) <= input.len() || digit_run(input, at) == 0,
        forall|i: int| at <= i < at + digit_run(input, at) ==> is_digit(#[trigger] input[i] as int),
        !is_digit(peek(input, at + digit_run(input, at))),
    decreases input.len() - at,
{
    if at < input.len() && is_digit(input[at] as int) {
        lemma_digit_run(input, at + 1);
    }
}

/// A run of digits stands for at least as much as each of its beginnings.
pub proof fn lemma_digits_value_grows(digits: Seq<u8>, k: int)
    requires
        0 <= k <= digits.len(),
    ensures
        digits_value(digits.subrange(0, k)) <= digits_value(digits),
    decreases digits.len(),
{
    if k < digits.len() {
        lemma_digits_value_grows(digits.drop_last(), k);
        assert(digits.drop_last().subrange(0, k) =~= digits.subrange(0, k));
    } else {
        assert(digits.subrange(0, k) =~= digits);
    }
}

/// Every byte of the number literal at `at` is ASCII.
pub proof fn lemma_number_is_ascii(input: Seq<u8>, at: int)
    requires
        0 <= at,
    ensures
        at <= number_end(input, at),
        number_end(input, at) <= input.len() || number_end(input, at) == at,
        forall|i: int| at <= i < number_end(input, at) ==> #[trigger] input[i] < 128,
{
    let signed = after_sign(input, at);
    lemma_digit_run(input, signed);
    let whole = whole_end(input, at);
    lemma_digit_run(input, whole + 1);
    let fraction = fraction_end(input, at);
    let exponent = exponent_digits(input, at);
    lemma_digit_run(input, exponent);
}

/// The integer of the given kind that `text` stands for.
pub fn integer_value(text: &[u8], kind: IntKind) -> (value: Option<Value>)
    ensures
        match integer_as(text@, kind) {
            Some(n) => value matches Some(v) && v@ == ValueView::Int(kind, n),
            None => value is None,
        },
{
    let count = text.len();
    if count == 0 {
        return None;
    }
    let negative = text[0] == MINUS;
    let from: usize = if text[0] == PLUS || text[0] == MINUS {
        1
    } else {
        0
    };
    let ghost body = if from == 1 {
        text@.subrange(1, count as int)
    } else {
        text@
    };
    if from == count {
        return None;
    }
    let mut i: usize = from;
    let mut magnitude: u64 = 0;
    assert(body.subrange(0, 0) =~= Seq::<u8>::empty());
    while i < count
        invariant
            from <= i <= count,
            0 < count == text@.len(),
            from == (if is_sign(text@[0] as int) {
                1int
            } else {
                0int
            }),
            body == (if from == 1 {
                text@.subrange(1, count as int)
            } else {
                text@
            }),
            body.len() == count - from,
            forall|j: int| 0 <= j < body.len() ==> body[j] == text@[j + from],
            all_digits(body.subrange(0, i - from)),
            magnitude == digits_value(body.subrange(0, i - from)),
        decreases count - i,
    {
        let b = text[i];
        let ghost before = body.subrange(0, i - from);
        let ghost after = body.subrange(0, i + 1 - from);
        assert(after.drop_last() =~= before);
        assert(after.last() == b);
        if b < 48 || b > 57 {
            assert(!is_digit(body[i - from] as int));
            assert(!all_digits(body));
            assert(integer_of(text@) is None);
            return None;
        }
        let digit: u64 = (b - 48) as u64;
        assert(digits_value(after) == digits_value(before) * 10 + digit);
        if magnitude > (u64::MAX - digit) / 10 {
            proof {
                lemma_digits_value_grows(body, i + 1 - from);
                assert(digits_value(after) > u64::MAX);
                assert(digits_value(body) > u64::MAX);
                assert(integer_as(text@, kind) is None);
            }
            return None;
        }
        magnitude = magnitude * 10 + digit;
        i += 1;
        assert(all_digits(after)) by {
            assert forall|j: int| 0 <= j < after.len() implies is_digit(
                #[trigger] after[j] as int,
            ) by {
                if j < after.len() - 1 {
                    assert(after[j] == before[j]);
                }
            }
        }
    }
    assert(body.subrange(0, i - from) =~= body);
    if negative {
        let limit: u64 = match kind {
            IntKind::I8 => 0x80,
            IntKind::I16 => 0x8000,
            IntKind::I32 => 0x8000_0000,
            IntKind::I64 => 0x8000_0000_0000_0000,
            IntKind::Isize => (isize::MAX as u64) + 1,
            _ => {
                return None;
            },
        };
        if magnitude > limit {
            return None;
        }
        let number: i128 = -(magnitude as i128);
        match kind {
            IntKind::I8 => Some(Value::I8(number as i8)),
            IntKind::I16 => Some(Value::I16(number as i16)),
            IntKind::I32 => Some(Value::I32(number as i32)),
            IntKind::I64 => Some(Value::I64(number as i64)),
            _ => Some(Value::Isize(number as isize)),
        }
    } else {
        let limit: u64 = match kind {
            IntKind::U8 => 0xFF,
            IntKind::U16 => 0xFFFF,
            IntKind::U32 => 0xFFFF_FFFF,
            IntKind::U64 => 0xFFFF_FFFF_FFFF_FFFF,
            IntKind::Usize => usize::MAX as u64,
            IntKind::I8 => 0x7F,
            IntKind::I16 => 0x7FFF,
            IntKind::I32 => 0x7FFF_FFFF,
            IntKind::I64 => 0x7FFF_FFFF_FFFF_FFFF,
            IntKind::Isize => isize::MAX as u64,
        };
        if magnitude > limit {
            return None;
        }
        match kind {
            IntKind::U8 => Some(Value::U8(magnitude as u8)),
            IntKind::U16 => Some(Value::U16(magnitude as u16)),
            IntKind::U32 => Some(Value::U32(magnitude as u32)),
            IntKind::U64 => Some(Value::U64(magnitude)),
            IntKind::Usize => Some(Value::Usize(magnitude as usize)),
            IntKind::I8 => Some(Value::I8(magnitude as i8)),
            IntKind::I16 => Some(Value::I16(magnitude as i16)),
            IntKind::I32 => Some(Value::I32(magnitude as i32)),
            IntKind::I64 => Some(Value::I64(magnitude as i64)),
            IntKind::Isize => Some(Value::Isize(magnitude as isize)),
        }
    }
}

/// The value of the hexadecimal digit `b`, if it is one.
fn hex_digit(b: u8) -> (value: Option<u32>)
    ensures
        match value {
            Some(v) => v == hex_value(b as int),
            None => hex_value(b as int) < 0,
        },
{
    if 48 <= b && b <= 57 {
        Some((b - 48) as u32)
    } else if 65 <= b && b <= 70 {
        Some((b - 55) as u32)
    } else if 97 <= b && b <= 102 {
        Some((b - 87) as u32)
    } else {
        None
    }
}

/// Every byte of a run of identifier bytes can stand in an identifier.
pub proof fn lemma_ident_run(input: Seq<u8>, at: int)
    requires
        0 <= at,
    ensures
        at + ident_run(input, at) <= input.len() || ident_run(input, at) == 0,
        forall|i: int|
            at <= i < at + ident_run(input, at) ==> is_ident_part(#[trigger] input[i] as int),
    decreases input.len() - at,
{
    if at < input.len() && is_ident_part(input[at] as int) {
        lemma_ident_run(input, at + 1);
    }
}

/// Whether the slot of a field holds what the pairs read so far give for it.
pub open spec fn slot_holds(slot: Option<Value>, given: Option<ValueView>) -> bool {
    match slot {
        Some(value) => given == Some(value@),
        None => given is None,
    }
}

/// The last value given for a field, after one more pair was read.
pub proof fn lemma_last_given_push(pairs: Seq<(int, ValueView)>, pair: (int, ValueView), index: int)
    ensures
        last_given(pairs.push(pair), index) == if pair.0 == index {
            Some(pair.1)
        } else {
            last_given(pairs, index)
        },
{
    assert(pairs.push(pair).drop_last() =~= pairs);
}

/// The entries of the record that `pairs` give for the fields from `from` on.
pub open spec fn record_entries(fields: Seq<FieldShape>, pairs: Seq<(int, ValueView)>, from: int) -> Seq<
    (ValueView, ValueView),
> {
    Seq::new(
        (fields.len() - from) as nat,
        |k: int| (ValueView::Str(fields[from + k].name@), last_given(pairs, from + k).unwrap()),
    )
}

/// Builds the record of the slots of its fields, each of which must be
/// filled.
fn record_of_slots(
    fields: &Vec<FieldShape>,
    slots: Vec<Option<Value>>,
    Ghost(pairs): Ghost<Seq<(int, ValueView)>>,
) -> (result: Result<Value, Error>)
    requires
        slots@.len() == fields@.len(),
        forall|i: int| 0 <= i < fields@.len() ==> slot_holds(#[trigger] slots@[i], last_given(pairs, i)),
    ensures
        ({
            let missing = first_missing(pairs, fields@.len() as int, 0);
            if 0 <= missing < fields@.len() {
                result matches Err(error) && error == Error::MissingField(fields@[missing].name)
            } else {
                result matches Ok(value) && value@ == record_of(fields@, pairs)
            }
        }),
{
    let count = fields.len();
    let mut i: usize = 0;
    while i < count
        invariant
            i <= count,
            count == fields@.len(),
            slots@.len() == count,
            forall|j: int|
                0 <= j < count ==> slot_holds(#[trigger] slots@[j], last_given(pairs, j)),
            forall|j: int| 0 <= j < i ==> (#[trigger] slots@[j]) is Some,
            first_missing(pairs, count as int, 0) == first_missing(pairs, count as int, i as int),
        decreases count - i,
    {
        if slots[i].is_none() {
            return Err(Error::MissingField(fields[i].name));
        }
        i += 1;
    }
    let mut slots = slots;
    let mut entries: Vec<(Value, Value)> = Vec::new();
    let ghost all = slots@;
    while slots.len() > 0
        invariant
            count == fields@.len(),
            slots@.len() <= count,
            slots@ == all.subrange(0, slots@.len() as int),
            all.len() == count,
            forall|j: int| 0 <= j < count ==> slot_holds(#[trigger] all[j], last_given(pairs, j)),
            forall|j: int| 0 <= j < count ==> (#[trigger] all[j]) is Some,
            entry_models(entries@) == record_entries(fields@, pairs, slots@.len() as int),
        decreases slots.len(),
    {
        let at = slots.len() - 1;
        let ghost before = entries@;
        match slots.pop() {
            Some(Some(value)) => {
                assert(all[at as int] == Some(value));
                assert(last_given(pairs, at as int) == Some(value@));
                let key = Value::Str(fields[at].name.to_owned());
                let ghost entry = (key, value);
                entries.insert(0, (key, value));
                assert(entries@ == before.insert(0, entry));
                assert(entry_models(before).len() == before.len());
                assert(record_entries(fields@, pairs, at + 1).len() == count - (at + 1));
                assert(entry_models(entries@) =~= record_entries(fields@, pairs, at as int)) by {
                    assert forall|k: int| 0 <= k < entries@.len() implies entry_models(entries@)[k]
                        == record_entries(fields@, pairs, at as int)[k] by {
                        if k > 0 {
                            assert(entries@[k] == before[k - 1]);
                            assert(entry_models(before)[k - 1] == record_entries(
                                fields@,
                                pairs,
                                at + 1,
                            )[k - 1]);
                        } else {
                            assert(entries@[0] == entry);
                            assert(entry.0.model() == ValueView::Str(fields@[at as int].name@));
                        }
                    }
                }
            },
            _ => {
                assert(all[at as int] is Some);
                assert(false);
            },
        }
    }
    let value = Value::Mapping(entries);
    proof {
        value.lemma_model_of_lists();
        assert(record_entries(fields@, pairs, 0) =~= record_of(fields@, pairs)->Mapping_0);
    }
    Ok(value)
}

/// Reads notation text from a byte buffer.
pub struct Decoder<'a> {
    lexer: Lexer<'a>,
}

impl<'a> Decoder<'a> {
    /// The whole input.
    pub closed spec fn input(&self) -> Seq<u8> {
        self.lexer.input()
    }

    /// The number of bytes consumed.
    pub closed spec fn offset(&self) -> int {
        self.lexer.offset()
    }

    /// The decoder's cursor is inside its input and knows its line and column.
    pub closed spec fn wf(&self) -> bool {
        self.lexer.wf()
    }

    /// Whether this decoder is `before` after it moved its cursor to `offset`.
    pub open spec fn moved(&self, before: &Self, offset: int) -> bool {
        &&& self.wf()
        &&& self.input() == before.input()
        &&& self.offset() == offset
    }

    /// Whether this decoder is `before` with its cursor anywhere.
    pub open spec fn follows(&self, before: &Self) -> bool {
        &&& self.wf()
        &&& self.input() == before.input()
    }

    /// A well-formed decoder's cursor is inside its input, which is shorter
    /// than the greatest `usize`.
    pub proof fn lemma_inside(&self)
        requires
            self.wf(),
        ensures
            0 <= self.offset() <= self.input().len() < usize::MAX,
    {
        self.lexer.lemma_inside();
    }

    /// A decoder at the start of `input`.
    pub fn new(input: &'a [u8]) -> (decoder: Self)
        requires
            input@.len() < usize::MAX,
        ensures
            decoder.wf(),
            decoder.input() == input@,
            decoder.offset() == 0,
    {
        Decoder { lexer: Lexer::new(input) }
    }

    /// The byte at the cursor, if the input does not end there.
    fn next(&self) -> (next: Option<u8>)
        requires
            self.wf(),
        ensures
            match next {
                Some(b) => peek(self.input(), self.offset()) == b,
                None => peek(self.input(), self.offset()) < 0,
            },
    {
        proof {
            self.lexer.lemma_inside();
        }
        self.lexer.peek()
    }

    /// Whether the byte `b` stands at the cursor.
    fn at(&self, b: u8) -> (there: bool)
        requires
            self.wf(),
        ensures
            there == (peek(self.input(), self.offset()) == b),
    {
        match self.next() {
            Some(found) => found == b,
            None => false,
        }
    }

    /// Whether whitespace stands at the cursor.
    fn at_blank(&self) -> (there: bool)
        requires
            self.wf(),
        ensures
            there == is_blank(peek(self.input(), self.offset())),
    {
        match self.next() {
            Some(b) => b == SPACE || b == TAB || b == LINE_FEED || b == CARRIAGE_RETURN,
            None => false,
        }
    }

    /// Whether a decimal digit stands at the cursor.
    fn at_digit(&self) -> (there: bool)
        requires
            self.wf(),
        ensures
            there == is_digit(peek(self.input(), self.offset())),
    {
        match self.next() {
            Some(b) => 48 <= b && b <= 57,
            None => false,
        }
    }

    /// Consumes the byte at the cursor.
    fn bump(&mut self)
        requires
            old(self).wf(),
            peek(old(self).input(), old(self).offset()) >= 0,
        ensures
            final(self).moved(old(self), old(self).offset() + 1),
    {
        self.lexer.bump();
    }

    /// The error of input that holds no value at the cursor.
    fn no_value(&self) -> (error: Error)
        requires
            self.wf(),
        ensures
            failed_as(no_value(self.input(), self.offset()), self.input(), error),
    {
        self.fault(ErrorCode::ExpectedSomeValue, ErrorCode::EOFWhileParsingValue)
    }

    /// The error with the code `code` at the cursor, or with the code `ended`
    /// where the input ends there.
    fn fault(&self, code: ErrorCode, ended: ErrorCode) -> (error: Error)
        requires
            self.wf(),
        ensures
            failed_as(fault(self.input(), self.offset(), code, ended), self.input(), error),
    {
        proof {
            self.lexer.lemma_inside();
        }
        if self.lexer.at_end() {
            self.lexer.error(ended)
        } else {
            self.lexer.error(code)
        }
    }

    /// Consumes the whitespace at the cursor.
    fn skip_blank(&mut self)
        requires
            old(self).wf(),
        ensures
            final(self).moved(old(self), skip_blank(old(self).input(), old(self).offset())),
    {
        proof {
            self.lexer.lemma_inside();
        }
        while self.at_blank()
            invariant
                self.follows(old(self)),
                old(self).offset() <= self.offset() <= self.input().len(),
                skip_blank(self.input(), self.offset()) == skip_blank(
                    old(self).input(),
                    old(self).offset(),
                ),
            decreases self.input().len() - self.offset(),
        {
            self.bump();
        }
    }

    /// Reads the unit token at the cursor.
    fn parse_unit(&mut self) -> (result: Result<(), Error>)
        requires
            old(self).wf(),
        ensures
            final(self).follows(old(self)),
            outcome(
                result,
                unit_at(old(self).input(), old(self).offset()),
                old(self).input(),
                final(self).offset(),
                |got: (), read: ()| true,
            ),
    {
        if !self.at(OPEN_PAREN) {
            return Err(self.no_value());
        }
        self.bump();
        if !self.at(CLOSE_PAREN) {
            return Err(self.no_value());
        }
        self.bump();
        Ok(())
    }

    /// Reads the bytes of `word` at the cursor.
    fn parse_word(&mut self, word: &[u8]) -> (result: Result<(), Error>)
        requires
            old(self).wf(),
        ensures
            final(self).follows(old(self)),
            matched(old(self).input(), old(self).offset(), word@) == word@.len() ==> result is Ok
                && final(self).offset() == old(self).offset() + word@.len(),
            matched(old(self).input(), old(self).offset(), word@) != word@.len() ==> (
            result matches Err(error) && failed_as(
                no_value(
                    old(self).input(),
                    old(self).offset() + matched(old(self).input(), old(self).offset(), word@),
                ),
                old(self).input(),
                error,
            )),
    {
        let mut i: usize = 0;
        assert(word@.subrange(0, word@.len() as int) =~= word@);
        while i < word.len()
            invariant
                i <= word.len(),
                self.follows(old(self)),
                self.offset() == old(self).offset() + i,
                matched(old(self).input(), old(self).offset(), word@) == i + matched(
                    self.input(),
                    self.offset(),
                    word@.subrange(i as int, word@.len() as int),
                ),
            decreases word.len() - i,
        {
            let ghost rest = word@.subrange(i as int, word@.len() as int);
            assert(rest[0] == word@[i as int]);
            assert(rest.drop_first() =~= word@.subrange(i + 1, word@.len() as int));
            if !self.at(word[i]) {
                return Err(self.no_value());
            }
            self.bump();
            i += 1;
        }
        assert(word@.subrange(i as int, word@.len() as int) =~= Seq::<u8>::empty());
        assert(word@.subrange(0, word@.len() as int) =~= word@);
        Ok(())
    }

    /// Reads the truth value at the cursor.
    fn parse_bool(&mut self) -> (result: Result<bool, Error>)
        requires
            old(self).wf(),
        ensures
            final(self).follows(old(self)),
            outcome(
                result,
                bool_at(old(self).input(), old(self).offset()),
                old(self).input(),
                final(self).offset(),
                |got: bool, read: bool| got == read,
            ),
    {
        if self.at(102) {
            let word: [u8; 5] = [102, 97, 108, 115, 101];
            assert(word@ =~= false_word());
            match self.parse_word(word.as_slice()) {
                Ok(()) => Ok(false),
                Err(error) => Err(error),
            }
        } else {
            let word: [u8; 4] = [116, 114, 117, 101];
            assert(word@ =~= true_word());
            match self.parse_word(word.as_slice()) {
                Ok(()) => Ok(true),
                Err(error) => Err(error),
            }
        }
    }

    /// Consumes the sign at the cursor, where there is one.
    fn scan_sign(&mut self)
        requires
            old(self).wf(),
        ensures
            final(self).moved(old(self), after_sign(old(self).input(), old(self).offset())),
    {
        if self.at(PLUS) || self.at(MINUS) {
            self.bump();
        }
    }

    /// Consumes the run of digits at the cursor and counts them.
    fn scan_digits(&mut self) -> (count: usize)
        requires
            old(self).wf(),
        ensures
            final(self).moved(old(self), old(self).offset() + count),
            count == digit_run(old(self).input(), old(self).offset()),
    {
        proof {
            self.lemma_inside();
        }
        let mut count: usize = 0;
        while self.at_digit()
            invariant
                self.follows(old(self)),
                self.offset() == old(self).offset() + count,
                self.offset() <= self.input().len() < usize::MAX,
                digit_run(old(self).input(), old(self).offset()) == count + digit_run(
                    self.input(),
                    self.offset(),
                ),
            decreases self.input().len() - self.offset(),
        {
            self.bump();
            count += 1;
        }
        count
    }

    /// Consumes the number literal at the cursor, and says whether it is one
    /// of a floating-point number.
    fn scan_number(&mut self) -> (float: bool)
        requires
            old(self).wf(),
        ensures
            final(self).moved(old(self), number_end(old(self).input(), old(self).offset())),
            float == is_float_at(old(self).input(), old(self).offset()),
    {
        self.scan_sign();
        let whole = self.scan_digits();
        let mut fraction: usize = 0;
        if self.at(DOT) {
            self.bump();
            fraction = self.scan_digits();
        }
        let mut exponent = true;
        if self.at(101) || self.at(69) {
            self.bump();
            self.scan_sign();
            let digits = self.scan_digits();
            exponent = digits > 0;
        }
        (whole > 0 || fraction > 0) && exponent
    }

    /// Reads the integer of the given kind at the cursor.
    fn parse_integer(&mut self, kind: IntKind) -> (result: Result<Value, Error>)
        requires
            old(self).wf(),
        ensures
            final(self).follows(old(self)),
            outcome(
                result,
                integer_at(old(self).input(), old(self).offset(), kind),
                old(self).input(),
                final(self).offset(),
                |got: Value, read: int| got@ == ValueView::Int(kind, read),
            ),
    {
        let start = self.lexer.consumed();
        let position = self.lexer.position();
        let _ = self.scan_number();
        if self.lexer.consumed() == start {
            return Err(self.no_value());
        }
        proof {
            self.lemma_inside();
            lemma_number_is_ascii(self.input(), start as int);
        }
        match integer_value(self.lexer.span(start), kind) {
            Some(value) => Ok(value),
            None => Err(Error::Syntax(ErrorCode::InvalidNumber, position.0, position.1)),
        }
    }

    /// Reads the floating-point number of the given width at the cursor, as
    /// its text.
    fn parse_float(&mut self, kind: FloatKind) -> (result: Result<Value, Error>)
        requires
            old(self).wf(),
        ensures
            final(self).follows(old(self)),
            outcome(
                result,
                float_at(old(self).input(), old(self).offset()),
                old(self).input(),
                final(self).offset(),
                |got: Value, read: Seq<char>| got@ == ValueView::Float(kind, read),
            ),
    {
        let start = self.lexer.consumed();
        let position = self.lexer.position();
        let float = self.scan_number();
        if self.lexer.consumed() == start {
            return Err(self.no_value());
        }
        if !float {
            return Err(Error::Syntax(ErrorCode::InvalidNumber, position.0, position.1));
        }
        let bytes = slice_to_vec(self.lexer.span(start));
        proof {
            self.lemma_inside();
            lemma_number_is_ascii(self.input(), start as int);
            lemma_ascii_text(bytes@);
        }
        match text_of_bytes(bytes) {
            Ok(text) => {
                proof {
                    encode_utf8_decode_utf8(text@);
                }
                match kind {
                    FloatKind::F32 => Ok(Value::F32(text)),
                    FloatKind::F64 => Ok(Value::F64(text)),
                }
            },
            // The bytes of a number literal are ASCII, so they are text.
            Err(_) => Err(Error::Syntax(ErrorCode::InvalidNumber, position.0, position.1)),
        }
    }

    /// Reads four hexadecimal digits at the cursor.
    fn parse_hex(&mut self) -> (result: Result<u32, Error>)
        requires
            old(self).wf(),
        ensures
            final(self).follows(old(self)),
            outcome(
                result,
                hex_at(old(self).input(), old(self).offset(), 4, 0),
                old(self).input(),
                final(self).offset(),
                |got: u32, read: int| got == read,
            ),
            result matches Ok(code) ==> code <= 0xFFFF,
            result is Ok ==> final(self).offset() == old(self).offset() + 4,
    {
        let mut code: u32 = 0;
        let mut i: usize = 0;
        while i < 4
            invariant
                i <= 4,
                self.follows(old(self)),
                self.offset() == old(self).offset() + i,
                hex_at(old(self).input(), old(self).offset(), 4, 0) == hex_at(
                    self.input(),
                    self.offset(),
                    (4 - i) as nat,
                    code as int,
                ),
                i == 0 ==> code == 0,
                i == 1 ==> code < 0x10,
                i == 2 ==> code < 0x100,
                i == 3 ==> code < 0x1000,
                i == 4 ==> code < 0x10000,
            decreases 4 - i,
        {
            proof {
                self.lemma_inside();
            }
            match self.next() {
                None => {
                    return Err(self.lexer.error(ErrorCode::NotFourDigit));
                },
                Some(b) => match hex_digit(b) {
                    None => {
                        return Err(self.lexer.error(ErrorCode::UnrecognizedHex));
                    },
                    Some(digit) => {
                        code = code * 16 + digit;
                        self.bump();
                        i += 1;
                    },
                },
            }
        }
        Ok(code)
    }

    /// Reads the escape at the cursor, where a backslash stands.
    fn parse_escape(&mut self) -> (result: Result<char, Error>)
        requires
            old(self).wf(),
            peek(old(self).input(), old(self).offset()) == BACKSLASH,
        ensures
            final(self).follows(old(self)),
            outcome(
                result,
                escape_at(old(self).input(), old(self).offset()),
                old(self).input(),
                final(self).offset(),
                |got: char, read: char| got == read,
            ),
            result is Ok ==> old(self).offset() < final(self).offset(),
    {
        let position = self.lexer.position();
        self.bump();
        proof {
            self.lemma_inside();
        }
        match self.next() {
            None => Err(self.lexer.error(ErrorCode::EOFWhileParsingString)),
            Some(named) => {
                if named == 110 {
                    self.bump();
                    Ok('\n')
                } else if named == 116 {
                    self.bump();
                    Ok('\t')
                } else if named == BACKSLASH {
                    self.bump();
                    Ok('\\')
                } else if named == DOUBLE_QUOTE {
                    self.bump();
                    Ok('"')
                } else if named == SINGLE_QUOTE {
                    self.bump();
                    Ok('\'')
                } else if named == 117 {
                    self.bump();
                    match self.parse_hex() {
                        Err(error) => Err(error),
                        Ok(code) => {
                            if 0xD800 <= code && code <= 0xDFFF {
                                Err(
                                    Error::Syntax(
                                        ErrorCode::LoneLeadingSurrogateInHexEscape,
                                        position.0,
                                        position.1,
                                    ),
                                )
                            } else {
                                // Four digits that name no surrogate name a character.
                                match char::from_u32(code) {
                                    Some(c) => Ok(c),
                                    None => Err(
                                        Error::Syntax(
                                            ErrorCode::InvalidUnicodeCodePoint,
                                            position.0,
                                            position.1,
                                        ),
                                    ),
                                }
                            }
                        },
                    }
                } else {
                    Err(self.lexer.error(ErrorCode::InvalidEscape))
                }
            },
        }
    }

    /// Reads the text at the cursor up to the closing `quote`, and replaces
    /// each escape by the bytes of its character.
    fn parse_text(&mut self, quote: u8) -> (result: Result<Vec<u8>, Error>)
        requires
            old(self).wf(),
        ensures
            final(self).follows(old(self)),
            outcome(
                result,
                text_at(old(self).input(), old(self).offset(), quote),
                old(self).input(),
                final(self).offset(),
                |got: Vec<u8>, read: Seq<u8>| got@ == read,
            ),
            result is Ok ==> old(self).offset() < final(self).offset(),
    {
        let mut bytes: Vec<u8> = Vec::new();
        let ghost whole = text_at(old(self).input(), old(self).offset(), quote);
        assert(preceded(bytes@, whole) == whole) by {
            if let Parsed::Done(rest, end) = whole {
                assert(bytes@ + rest =~= rest);
            }
        }
        loop
            invariant
                self.follows(old(self)),
                old(self).offset() <= self.offset(),
                whole == text_at(old(self).input(), old(self).offset(), quote),
                whole == preceded(bytes@, text_at(self.input(), self.offset(), quote)),
            decreases self.input().len() - self.offset(),
        {
            proof {
                self.lemma_inside();
            }
            let ghost here = self.offset();
            let ghost so_far = bytes@;
            match self.next() {
                None => {
                    return Err(self.lexer.error(ErrorCode::EOFWhileParsingString));
                },
                Some(b) => {
                    if b == quote {
                        self.bump();
                        assert(bytes@ + Seq::<u8>::empty() =~= bytes@);
                        return Ok(bytes);
                    } else if b == BACKSLASH {
                        match self.parse_escape() {
                            Err(error) => {
                                return Err(error);
                            },
                            Ok(c) => {
                                push_char(&mut bytes, c);
                                proof {
                                    self.lemma_inside();
                                    if let Parsed::Done(rest, end) = text_at(
                                        self.input(),
                                        self.offset(),
                                        quote,
                                    ) {
                                        assert(so_far + (char_bytes(c) + rest) =~= (so_far
                                            + char_bytes(c)) + rest);
                                    }
                                }
                            },
                        }
                    } else {
                        self.bump();
                        bytes.push(b);
                        proof {
                            if let Parsed::Done(rest, end) = text_at(
                                self.input(),
                                self.offset(),
                                quote,
                            ) {
                                assert(so_far + (seq![b] + rest) =~= so_far.push(b) + rest);
                            }
                        }
                    }
                },
            }
        }
    }

    /// Reads the string literal at the cursor.
    fn parse_string(&mut self) -> (result: Result<String, Error>)
        requires
            old(self).wf(),
        ensures
            final(self).follows(old(self)),
            outcome(
                result,
                string_at(old(self).input(), old(self).offset()),
                old(self).input(),
                final(self).offset(),
                |got: String, read: Seq<char>| got@ == read,
            ),
            result is Ok ==> old(self).offset() < final(self).offset(),
    {
        if !self.at(DOUBLE_QUOTE) {
            return Err(self.no_value());
        }
        let position = self.lexer.position();
        self.bump();
        match self.parse_text(DOUBLE_QUOTE) {
            Err(error) => Err(error),
            Ok(bytes) => match text_of_bytes(bytes) {
                Ok(text) => {
                    proof {
                        encode_utf8_decode_utf8(text@);
                    }
                    Ok(text)
                },
                Err(_) => Err(Error::Syntax(ErrorCode::NotUtf8, position.0, position.1)),
            },
        }
    }

    /// Reads the character literal at the cursor.
    fn parse_char(&mut self) -> (result: Result<char, Error>)
        requires
            old(self).wf(),
        ensures
            final(self).follows(old(self)),
            outcome(
                result,
                char_at(old(self).input(), old(self).offset()),
                old(self).input(),
                final(self).offset(),
                |got: char, read: char| got == read,
            ),
            result is Ok ==> old(self).offset() < final(self).offset(),
    {
        if !self.at(SINGLE_QUOTE) {
            return Err(self.no_value());
        }
        let position = self.lexer.position();
        self.bump();
        match self.parse_text(SINGLE_QUOTE) {
            Err(error) => Err(error),
            Ok(bytes) => match text_of_bytes(bytes) {
                Ok(text) => {
                    proof {
                        encode_utf8_decode_utf8(text@);
                    }
                    if text.as_str().unicode_len() == 1 {
                        Ok(text.as_str().get_char(0))
                    } else {
                        Err(
                            Error::Syntax(
                                ErrorCode::InvalidUnicodeCodePoint,
                                position.0,
                                position.1,
                            ),
                        )
                    }
                },
                Err(_) => Err(Error::Syntax(ErrorCode::NotUtf8, position.0, position.1)),
            },
        }
    }

    /// Whether a byte that can start an identifier stands at the cursor.
    fn at_ident_start(&self) -> (there: bool)
        requires
            self.wf(),
        ensures
            there == is_ident_start(peek(self.input(), self.offset())),
    {
        match self.next() {
            Some(b) => (65 <= b && b <= 90) || (97 <= b && b <= 122) || b == UNDERSCORE,
            None => false,
        }
    }

    /// Whether a byte that can stand in an identifier stands at the cursor.
    fn at_ident_part(&self) -> (there: bool)
        requires
            self.wf(),
        ensures
            there == is_ident_part(peek(self.input(), self.offset())),
    {
        match self.next() {
            Some(b) => (65 <= b && b <= 90) || (97 <= b && b <= 122) || b == UNDERSCORE || (48
                <= b && b <= 57),
            None => false,
        }
    }

    /// Whether a byte that can start a value stands at the cursor.
    fn at_value_start(&self) -> (there: bool)
        requires
            self.wf(),
        ensures
            there == starts_value(peek(self.input(), self.offset())),
    {
        match self.next() {
            Some(b) => b == OPEN_PAREN || b == OPEN_BRACKET || b == OPEN_BRACE || b
                == DOUBLE_QUOTE || b == SINGLE_QUOTE || b == MARKER_LEAD || b == 116 || b == 102
                || b == DOT || b == PLUS || b == MINUS || (48 <= b && b <= 57),
            None => false,
        }
    }

    /// Consumes the identifier at the cursor and gives its length, which is 0
    /// where none starts there.
    fn scan_ident(&mut self) -> (count: usize)
        requires
            old(self).wf(),
        ensures
            final(self).moved(old(self), old(self).offset() + count),
            count == ident_len(old(self).input(), old(self).offset()),
    {
        proof {
            self.lemma_inside();
        }
        let mut count: usize = 0;
        if !self.at_ident_start() {
            return 0;
        }
        while self.at_ident_part()
            invariant
                self.follows(old(self)),
                self.offset() == old(self).offset() + count,
                self.offset() <= self.input().len() < usize::MAX,
                ident_run(old(self).input(), old(self).offset()) == count + ident_run(
                    self.input(),
                    self.offset(),
                ),
            decreases self.input().len() - self.offset(),
        {
            self.bump();
            count += 1;
        }
        count
    }

    /// Moves to the next element of a collection, or behind its closing
    /// delimiter: `true` says that an element stands at the cursor, `false` that
    /// the collection has ended.
    fn element_start(&mut self, first: bool, close: u8, expected: ErrorCode, ended: ErrorCode) -> (result:
        Result<bool, Error>)
        requires
            old(self).wf(),
        ensures
            final(self).follows(old(self)),
            outcome(
                result,
                element_start(
                    old(self).input(),
                    old(self).offset(),
                    first,
                    close,
                    expected,
                    ended,
                ),
                old(self).input(),
                final(self).offset(),
                |got: bool, read: bool| got == read,
            ),
            result is Ok ==> old(self).offset() <= final(self).offset(),
            result == Ok::<bool, Error>(false) ==> old(self).offset() < final(self).offset(),
            result == Ok::<bool, Error>(true) ==> peek(final(self).input(), final(self).offset())
                >= 0,
    {
        self.skip_blank();
        proof {
            self.lemma_inside();
        }
        match self.next() {
            None => Err(self.lexer.error(ended)),
            Some(b) => {
                if b == close {
                    self.bump();
                    Ok(false)
                } else if first {
                    Ok(true)
                } else if b != COMMA {
                    Err(self.lexer.error(expected))
                } else {
                    self.bump();
                    self.skip_blank();
                    proof {
                        self.lemma_inside();
                    }
                    match self.next() {
                        None => Err(self.lexer.error(ended)),
                        Some(again) => {
                            if again == close {
                                self.bump();
                                Ok(false)
                            } else {
                                Ok(true)
                            }
                        },
                    }
                }
            },
        }
    }

    /// Reads the elements of a sequence, from behind its opening bracket up to
    /// its closing bracket.
    fn parse_items(&mut self, elem: &Shape) -> (result: Result<Vec<Value>, Error>)
        requires
            old(self).wf(),
        ensures
            final(self).follows(old(self)),
            outcome(
                result,
                items_at(old(self).input(), old(self).offset(), *elem, true),
                old(self).input(),
                final(self).offset(),
                |got: Vec<Value>, read: Seq<ValueView>| models(got@) == read,
            ),
            result is Ok ==> old(self).offset() < final(self).offset(),
        decreases elem, 1nat,
    {
        let mut items: Vec<Value> = Vec::new();
        let mut first = true;
        let ghost whole = items_at(old(self).input(), old(self).offset(), *elem, true);
        assert(preceded(models(items@), whole) == whole) by {
            if let Parsed::Done(rest, end) = whole {
                assert(models(items@) + rest =~= rest);
            }
        }
        loop
            invariant
                self.follows(old(self)),
                old(self).offset() <= self.offset(),
                whole == items_at(old(self).input(), old(self).offset(), *elem, true),
                whole == preceded(
                    models(items@),
                    items_at(self.input(), self.offset(), *elem, first),
                ),
            decreases self.input().len() - self.offset(),
        {
            proof {
                self.lemma_inside();
            }
            let ghost so_far = items@;
            match self.element_start(
                first,
                CLOSE_BRACKET,
                ErrorCode::ExpectedListCommaOrEnd,
                ErrorCode::EOFWhileParsingArray,
            ) {
                Err(error) => {
                    return Err(error);
                },
                Ok(false) => {
                    assert(models(items@) + Seq::<ValueView>::empty() =~= models(items@));
                    return Ok(items);
                },
                Ok(true) => {},
            }
            match self.parse_value(elem) {
                Err(error) => {
                    return Err(error);
                },
                Ok(item) => {
                    items.push(item);
                    first = false;
                    proof {
                        self.lemma_inside();
                        assert(models(items@) =~= models(so_far).push(item@));
                        if let Parsed::Done(rest, end) = items_at(
                            self.input(),
                            self.offset(),
                            *elem,
                            false,
                        ) {
                            assert(models(so_far) + (seq![item@] + rest) =~= models(items@)
                                + rest);
                        }
                    }
                },
            }
        }
    }

    /// Reads the entries of a mapping, from behind its opening brace up to its
    /// closing brace.
    fn parse_entries(&mut self, entry: &EntryShape) -> (result: Result<Vec<(Value, Value)>, Error>)
        requires
            old(self).wf(),
        ensures
            final(self).follows(old(self)),
            outcome(
                result,
                entries_at(old(self).input(), old(self).offset(), *entry, true),
                old(self).input(),
                final(self).offset(),
                |got: Vec<(Value, Value)>, read: Seq<(ValueView, ValueView)>|
                    entry_models(got@) == read,
            ),
            result is Ok ==> old(self).offset() < final(self).offset(),
        decreases entry, 1nat,
    {
        let mut entries: Vec<(Value, Value)> = Vec::new();
        let mut first = true;
        let ghost whole = entries_at(old(self).input(), old(self).offset(), *entry, true);
        assert(preceded(entry_models(entries@), whole) == whole) by {
            if let Parsed::Done(rest, end) = whole {
                assert(entry_models(entries@) + rest =~= rest);
            }
        }
        loop
            invariant
                self.follows(old(self)),
                old(self).offset() <= self.offset(),
                whole == entries_at(old(self).input(), old(self).offset(), *entry, true),
                whole == preceded(
                    entry_models(entries@),
                    entries_at(self.input(), self.offset(), *entry, first),
                ),
            decreases self.input().len() - self.offset(),
        {
            proof {
                self.lemma_inside();
            }
            let ghost so_far = entries@;
            match self.element_start(
                first,
                CLOSE_BRACE,
                ErrorCode::ExpectedObjectCommaOrEnd,
                ErrorCode::EOFWhileParsingMap,
            ) {
                Err(error) => {
                    return Err(error);
                },
                Ok(false) => {
                    assert(entry_models(entries@) + Seq::<(ValueView, ValueView)>::empty()
                        =~= entry_models(entries@));
                    return Ok(entries);
                },
                Ok(true) => {},
            }
            if !self.at_value_start() {
                return Err(self.lexer.error(ErrorCode::KeyMustBeAValue));
            }
            let key = match self.parse_value(&entry.key) {
                Err(error) => {
                    return Err(error);
                },
                Ok(key) => key,
            };
            self.skip_blank();
            if !self.at(COLON) {
                return Err(self.fault(ErrorCode::ExpectedColon, ErrorCode::EOFWhileParsingMap));
            }
            self.bump();
            match self.parse_value(&entry.value) {
                Err(error) => {
                    return Err(error);
                },
                Ok(value) => {
                    let ghost pair = (key@, value@);
                    entries.push((key, value));
                    first = false;
                    proof {
                        self.lemma_inside();
                        assert(entry_models(entries@) =~= entry_models(so_far).push(pair));
                        if let Parsed::Done(rest, end) = entries_at(
                            self.input(),
                            self.offset(),
                            *entry,
                            false,
                        ) {
                            assert(entry_models(so_far) + (seq![pair] + rest) =~= entry_models(
                                entries@,
                            ) + rest);
                        }
                    }
                },
            }
        }
    }

    /// Reads the key of a record's pair at the cursor, with the colon behind
    /// it, and gives the index of the field that it names.
    fn parse_key(&mut self, fields: &Vec<FieldShape>) -> (result: Result<usize, Error>)
        requires
            old(self).wf(),
        ensures
            final(self).follows(old(self)),
            outcome(
                result,
                key_at(old(self).input(), old(self).offset(), fields@),
                old(self).input(),
                final(self).offset(),
                |got: usize, read: int| got == read,
            ),
            result matches Ok(index) ==> index < fields@.len(),
            result is Ok ==> old(self).offset() < final(self).offset(),
    {
        let start = self.lexer.consumed();
        let position = self.lexer.position();
        let count = self.scan_ident();
        if count == 0 {
            return Err(Error::Syntax(ErrorCode::ExpectedName, position.0, position.1));
        }
        let name = self.lexer.span(start);
        let index = find_field(fields, name);
        if index >= fields.len() {
            let bytes = slice_to_vec(name);
            proof {
                self.lemma_inside();
                lemma_ident_run(self.input(), start as int);
                lemma_ascii_text(bytes@);
            }
            match text_of_bytes(bytes) {
                Ok(text) => {
                    proof {
                        encode_utf8_decode_utf8(text@);
                    }
                    return Err(
                        Error::Syntax(ErrorCode::UnknownField(text), position.0, position.1),
                    );
                },
                // The bytes of an identifier are ASCII, so they are text.
                Err(_) => {
                    return Err(Error::Syntax(ErrorCode::ExpectedName, position.0, position.1));
                },
            }
        }
        self.skip_blank();
        if !self.at(COLON) {
            return Err(self.fault(ErrorCode::ExpectedColon, ErrorCode::EOFWhileParsingObject));
        }
        self.bump();
        Ok(index)
    }

    /// Reads the record at the cursor.
    fn parse_record(&mut self, fields: &Vec<FieldShape>) -> (result: Result<Value, Error>)
        requires
            old(self).wf(),
        ensures
            final(self).follows(old(self)),
            outcome(
                result,
                record_at(old(self).input(), old(self).offset(), *fields),
                old(self).input(),
                final(self).offset(),
                |got: Value, read: ValueView| got@ == read,
            ),
            result is Ok ==> old(self).offset() < final(self).offset(),
        decreases fields, 2nat,
    {
        if !self.at(OPEN_BRACE) {
            return Err(self.no_value());
        }
        self.bump();
        let mut slots: Vec<Option<Value>> = Vec::new();
        while slots.len() < fields.len()
            invariant
                slots@.len() <= fields@.len(),
                forall|i: int| 0 <= i < slots@.len() ==> (#[trigger] slots@[i]) is None,
            decreases fields.len() - slots.len(),
        {
            slots.push(None);
        }
        let mut first = true;
        let ghost mut given: Seq<(int, ValueView)> = Seq::empty();
        let ghost whole = fields_at(old(self).input(), old(self).offset() + 1, *fields, true);
        assert(preceded(given, whole) == whole) by {
            if let Parsed::Done(rest, end) = whole {
                assert(given + rest =~= rest);
            }
        }
        loop
            invariant
                self.follows(old(self)),
                old(self).offset() < self.offset(),
                peek(old(self).input(), old(self).offset()) == OPEN_BRACE,
                whole == fields_at(old(self).input(), old(self).offset() + 1, *fields, true),
                whole == preceded(given, fields_at(self.input(), self.offset(), *fields, first)),
                slots@.len() == fields@.len(),
                forall|i: int|
                    0 <= i < fields@.len() ==> slot_holds(
                        #[trigger] slots@[i],
                        last_given(given, i),
                    ),
            decreases self.input().len() - self.offset(),
        {
            proof {
                self.lemma_inside();
            }
            match self.element_start(
                first,
                CLOSE_BRACE,
                ErrorCode::ExpectedObjectCommaOrEnd,
                ErrorCode::EOFWhileParsingObject,
            ) {
                Err(error) => {
                    return Err(error);
                },
                Ok(false) => {
                    assert(given + Seq::<(int, ValueView)>::empty() =~= given);
                    return record_of_slots(fields, slots, Ghost(given));
                },
                Ok(true) => {},
            }
            let index = match self.parse_key(fields) {
                Err(error) => {
                    return Err(error);
                },
                Ok(index) => index,
            };
            proof {
                vstd::std_specs::vec::axiom_vec_index_decreases(*fields, index as int);
            }
            match self.parse_value(&fields[index].shape) {
                Err(error) => {
                    return Err(error);
                },
                Ok(value) => {
                    let ghost pair = (index as int, value@);
                    let ghost before = given;
                    proof {
                        self.lemma_inside();
                        given = given.push(pair);
                        assert forall|i: int| 0 <= i < fields@.len() implies slot_holds(
                            #[trigger] slots@.update(index as int, Some(value))[i],
                            last_given(given, i),
                        ) by {
                            lemma_last_given_push(before, pair, i);
                        }
                        if let Parsed::Done(rest, end) = fields_at(
                            self.input(),
                            self.offset(),
                            *fields,
                            false,
                        ) {
                            assert(before + (seq![pair] + rest) =~= given + rest);
                        }
                    }
                    slots.set(index, Some(value));
                    first = false;
                },
            }
        }
    }

    /// Reads what the variant `variant` carries, at the cursor.
    fn parse_payload(&mut self, variant: &VariantShape) -> (result: Result<Payload, Error>)
        requires
            old(self).wf(),
        ensures
            final(self).follows(old(self)),
            outcome(
                result,
                payload_at(old(self).input(), old(self).offset(), *variant),
                old(self).input(),
                final(self).offset(),
                |got: Payload, read: PayloadView| got@ == read,
            ),
            result is Ok ==> old(self).offset() < final(self).offset(),
        decreases variant, 1nat,
    {
        match &variant.payload {
            PayloadShape::Unit => match self.parse_unit() {
                Ok(()) => Ok(Payload::Unit),
                Err(error) => Err(error),
            },
            PayloadShape::Sequence(elem) => {
                if !self.at(OPEN_BRACKET) {
                    return Err(
                        self.fault(
                            ErrorCode::ExpectedEnumMapStart,
                            ErrorCode::EOFWhileParsingObject,
                        ),
                    );
                }
                self.bump();
                match self.parse_items(elem) {
                    Ok(items) => Ok(Payload::Sequence(items)),
                    Err(error) => Err(error),
                }
            },
            PayloadShape::Mapping(entry) => {
                if !self.at(OPEN_BRACE) {
                    return Err(
                        self.fault(
                            ErrorCode::ExpectedEnumMapStart,
                            ErrorCode::EOFWhileParsingObject,
                        ),
                    );
                }
                self.bump();
                match self.parse_entries(entry) {
                    Ok(entries) => Ok(Payload::Mapping(entries)),
                    Err(error) => Err(error),
                }
            },
        }
    }

    /// Reads the variant at the cursor that is written bare, between two
    /// markers.
    fn parse_bare_variant(&mut self, name: &'static str, variants: &Vec<VariantShape>) -> (result:
        Result<Value, Error>)
        requires
            old(self).wf(),
            peek(old(self).input(), old(self).offset()) == MARKER_LEAD,
        ensures
            final(self).follows(old(self)),
            outcome(
                result,
                bare_variant_at(old(self).input(), old(self).offset(), name@, variants@),
                old(self).input(),
                final(self).offset(),
                |got: Value, read: ValueView| got@ == read,
            ),
            result is Ok ==> old(self).offset() < final(self).offset(),
    {
        let opening = self.lexer.position();
        self.bump();
        if !self.at(MARKER_TAIL) {
            return Err(
                self.fault(ErrorCode::ExpectedEnumToken, ErrorCode::EOFWhileParsingValue),
            );
        }
        self.bump();
        let start = self.lexer.consumed();
        let position = self.lexer.position();
        let count = self.scan_ident();
        if count == 0 {
            return Err(
                self.fault(ErrorCode::ExpectedSomeIdent, ErrorCode::EOFWhileParsingValue),
            );
        }
        let ident = self.lexer.span(start);
        if !self.at(MARKER_LEAD) {
            return Err(self.fault(ErrorCode::ExpectedEnumEnd, ErrorCode::EOFWhileParsingValue));
        }
        self.bump();
        if !self.at(MARKER_TAIL) {
            return Err(self.fault(ErrorCode::ExpectedEnumEnd, ErrorCode::EOFWhileParsingValue));
        }
        self.bump();
        let index = find_variant(variants, ident);
        if index >= variants.len() {
            return Err(Error::Syntax(ErrorCode::UnknownVariant, position.0, position.1));
        }
        match &variants[index].payload {
            PayloadShape::Unit => {
                let value = Value::Variant(
                    name.to_owned(),
                    variants[index].name.to_owned(),
                    Payload::Unit,
                );
                proof {
                    value.lemma_model_of_lists();
                }
                Ok(value)
            },
            _ => Err(Error::Syntax(ErrorCode::ExpectedEnumMapStart, opening.0, opening.1)),
        }
    }

    /// Reads the variant at the cursor that is written as a mapping of one
    /// entry, from its quoted name to what it carries.
    fn parse_tagged_variant(&mut self, name: &'static str, variants: &Vec<VariantShape>) -> (result:
        Result<Value, Error>)
        requires
            old(self).wf(),
            peek(old(self).input(), old(self).offset()) == OPEN_BRACE,
        ensures
            final(self).follows(old(self)),
            outcome(
                result,
                tagged_variant_at(old(self).input(), old(self).offset(), name@, *variants),
                old(self).input(),
                final(self).offset(),
                |got: Value, read: ValueView| got@ == read,
            ),
            result is Ok ==> old(self).offset() < final(self).offset(),
        decreases variants, 2nat,
    {
        self.bump();
        self.skip_blank();
        if !self.at(DOUBLE_QUOTE) {
            return Err(
                self.fault(
                    ErrorCode::ExpectedEnumVariantString,
                    ErrorCode::EOFWhileParsingObject,
                ),
            );
        }
        let position = self.lexer.position();
        self.bump();
        let tag = match self.parse_text(DOUBLE_QUOTE) {
            Err(error) => {
                return Err(error);
            },
            Ok(tag) => tag,
        };
        let index = find_variant(variants, tag.as_slice());
        if index >= variants.len() {
            return Err(Error::Syntax(ErrorCode::UnknownVariant, position.0, position.1));
        }
        self.skip_blank();
        if !self.at(COLON) {
            return Err(self.fault(ErrorCode::ExpectedColon, ErrorCode::EOFWhileParsingObject));
        }
        self.bump();
        self.skip_blank();
        proof {
            vstd::std_specs::vec::axiom_vec_index_decreases(*variants, index as int);
        }
        let payload = match self.parse_payload(&variants[index]) {
            Err(error) => {
                return Err(error);
            },
            Ok(payload) => payload,
        };
        self.skip_blank();
        if !self.at(CLOSE_BRACE) {
            return Err(
                self.fault(ErrorCode::ExpectedEnumEndToken, ErrorCode::EOFWhileParsingObject),
            );
        }
        self.bump();
        let value = Value::Variant(name.to_owned(), variants[index].name.to_owned(), payload);
        proof {
            value.lemma_model_of_lists();
        }
        Ok(value)
    }

    /// Reads the value of the given shape at the cursor, behind any
    /// whitespace.
    pub fn parse_value(&mut self, shape: &Shape) -> (result: Result<Value, Error>)
        requires
            old(self).wf(),
        ensures
            final(self).follows(old(self)),
            outcome(
                result,
                value_at(old(self).input(), old(self).offset(), *shape),
                old(self).input(),
                final(self).offset(),
                |got: Value, read: ValueView| got@ == read,
            ),
            result is Ok ==> old(self).offset() < final(self).offset(),
        decreases shape, 0nat,
    {
        proof {
            self.lemma_inside();
        }
        self.skip_blank();
        match shape {
            Shape::Unit => match self.parse_unit() {
                Ok(()) => Ok(Value::Unit),
                Err(error) => Err(error),
            },
            Shape::Bool => match self.parse_bool() {
                Ok(read) => Ok(Value::Bool(read)),
                Err(error) => Err(error),
            },
            Shape::Int(kind) => self.parse_integer(*kind),
            Shape::Float(kind) => self.parse_float(*kind),
            Shape::Char => match self.parse_char() {
                Ok(read) => Ok(Value::Char(read)),
                Err(error) => Err(error),
            },
            Shape::Str => match self.parse_string() {
                Ok(read) => Ok(Value::Str(read)),
                Err(error) => Err(error),
            },
            Shape::Optional(inner) => {
                if self.at(OPEN_PAREN) {
                    match self.parse_unit() {
                        Ok(()) => Ok(Value::Optional(None)),
                        Err(error) => Err(error),
                    }
                } else {
                    match self.parse_value(inner) {
                        Ok(read) => Ok(Value::Optional(Some(Box::new(read)))),
                        Err(error) => Err(error),
                    }
                }
            },
            Shape::Sequence(elem) => {
                if !self.at(OPEN_BRACKET) {
                    return Err(self.no_value());
                }
                self.bump();
                match self.parse_items(elem) {
                    Ok(items) => {
                        let value = Value::Sequence(items);
                        proof {
                            value.lemma_model_of_lists();
                        }
                        Ok(value)
                    },
                    Err(error) => Err(error),
                }
            },
            Shape::Mapping(entry) => {
                if !self.at(OPEN_BRACE) {
                    return Err(self.no_value());
                }
                self.bump();
                match self.parse_entries(entry) {
                    Ok(entries) => {
                        let value = Value::Mapping(entries);
                        proof {
                            value.lemma_model_of_lists();
                        }
                        Ok(value)
                    },
                    Err(error) => Err(error),
                }
            },
            Shape::Enum(name, variants) => {
                if self.at(MARKER_LEAD) {
                    self.parse_bare_variant(name, variants)
                } else if self.at(OPEN_BRACE) {
                    self.parse_tagged_variant(name, variants)
                } else {
                    Err(self.fault(ErrorCode::ExpectedEnumToken, ErrorCode::EOFWhileParsingValue))
                }
            },
            Shape::Record(fields) => self.parse_record(fields),
        }
    }

    /// Sees that nothing but whitespace is left of the input.
    pub fn end(&mut self) -> (result: Result<(), Error>)
        requires
            old(self).wf(),
        ensures
            final(self).follows(old(self)),
            ({
                let end = skip_blank(old(self).input(), old(self).offset());
                if peek(old(self).input(), end) >= 0 {
                    result matches Err(error) && error == syntax_at(
                        ErrorCode::TrailingCharacters,
                        old(self).input(),
                        end,
                    )
                } else {
                    result is Ok
                }
            }),
    {
        self.skip_blank();
        match self.next() {
            Some(_) => Err(self.lexer.error(ErrorCode::TrailingCharacters)),
            None => Ok(()),
        }
    }
}

/// Whether `result` is what reading the whole of `input` as one value of the
/// shape `shape` gives: the value, or the error of the first failure.
pub open spec fn decoded(result: Result<Value, Error>, input: Seq<u8>, shape: Shape) -> bool {
    match document(input, shape) {
        Parsed::Done(value, _) => result matches Ok(got) && got@ == value,
        Parsed::Failed(failure) => result matches Err(error) && failed_as(failure, input, error),
    }
}

/// Reads the one value of the shape `shape` that `input` holds.
pub fn from_slice(input: &[u8], shape: &Shape) -> (result: Result<Value, Error>)
    requires
        input@.len() < usize::MAX,
    ensures
        decoded(result, input@, *shape),
{
    let mut decoder = Decoder::new(input);
    let value = match decoder.parse_value(shape) {
        Err(error) => {
            return Err(error);
        },
        Ok(value) => value,
    };
    match decoder.end() {
        Err(error) => Err(error),
        Ok(()) => Ok(value),
    }
}

/// Reads the one value of the shape `shape` that the text `input` holds.
pub fn from_str(input: &str, shape: &Shape) -> (result: Result<Value, Error>)
    requires
        encode_utf8(input@).len() < usize::MAX,
    ensures
        decoded(result, encode_utf8(input@), *shape),
{
    from_slice(input.as_bytes(), shape)
}

} // verus!
