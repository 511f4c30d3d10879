//! Writing values as notation text.
//!
//! An [`Encoder`] appends the text of each value it visits to a byte buffer.
//! The punctuation between structural tokens is left to a [`Formatter`]: the
//! compact one writes none but the delimiters, the pretty one breaks lines and
//! indents.

use vstd::prelude::*;
use vstd::utf8::*;
use crate::layout::{
    lemma_compact_is_plain,
    lemma_encoding_is_text,
    lemma_pretty_is_plain,
    lemma_two_spaces,
    plain,
};
use crate::number::{decimal, decimal_text};
use crate::text::{char_bytes, push_bytes, push_char, text_of_bytes};
use crate::value::{Payload, PayloadView, Value, ValueView, entry_models, models};

verus! {

/// `unit` written `n` times.
pub open spec fn repeated(unit: Seq<u8>, n: nat) -> Seq<u8>
    decreases n,
{
    if n == 0 {
        Seq::empty()
    } else {
        repeated(unit, (n - 1) as nat) + unit
    }
}

/// The punctuation of the notation: what stands at the opening and closing
/// delimiter of a collection, before each of its elements, and between a key and
/// its value.
///
/// A formatter keeps track of the nesting: `open` enters a collection and
/// `close` leaves it again. The other two operations leave the formatter as it
/// was.
pub trait Formatter: Sized {
    /// Whether one more collection can be entered.
    spec fn can_open(&self) -> bool;

    /// Whether a collection has been entered that can be left.
    spec fn can_close(&self) -> bool;

    /// This formatter after it entered a collection.
    spec fn opened(&self) -> Self;

    /// This formatter after it left a collection.
    spec fn closed(&self) -> Self;

    /// What `open` writes for the delimiter `ch`.
    spec fn open_text(&self, ch: u8) -> Seq<u8>;

    /// What `comma` writes before an element, the first of its collection or a
    /// later one.
    spec fn comma_text(&self, first: bool) -> Seq<u8>;

    /// What `colon` writes between a key and its value.
    spec fn colon_text(&self) -> Seq<u8>;

    /// What `close` writes for the delimiter `ch`.
    spec fn close_text(&self, ch: u8) -> Seq<u8>;

    /// Leaving a collection undoes entering it.
    proof fn lemma_open_then_close(&self)
        requires
            self.can_open(),
        ensures
            self.opened().can_close(),
            self.opened().closed() == *self,
    ;

    /// Writes the opening delimiter `ch` and enters the collection.
    fn open(&mut self, writer: &mut Vec<u8>, ch: u8)
        requires
            old(self).can_open(),
        ensures
            *final(self) == old(self).opened(),
            final(writer)@ == old(writer)@ + old(self).open_text(ch),
    ;

    /// Writes what separates an element from what stands before it.
    fn comma(&mut self, writer: &mut Vec<u8>, first: bool)
        ensures
            *final(self) == *old(self),
            final(writer)@ == old(writer)@ + old(self).comma_text(first),
    ;

    /// Writes what separates a key from its value.
    fn colon(&mut self, writer: &mut Vec<u8>)
        ensures
            *final(self) == *old(self),
            final(writer)@ == old(writer)@ + old(self).colon_text(),
    ;

    /// Leaves the collection and writes the closing delimiter `ch`.
    fn close(&mut self, writer: &mut Vec<u8>, ch: u8)
        requires
            old(self).can_close(),
        ensures
            *final(self) == old(self).closed(),
            final(writer)@ == old(writer)@ + old(self).close_text(ch),
    ;
}

/// The formatter that writes the delimiters and nothing else.
pub struct CompactFormatter;

impl Formatter for CompactFormatter {
    open spec fn can_open(&self) -> bool {
        true
    }

    open spec fn can_close(&self) -> bool {
        true
    }

    open spec fn opened(&self) -> Self {
        CompactFormatter
    }

    open spec fn closed(&self) -> Self {
        CompactFormatter
    }

    open spec fn open_text(&self, ch: u8) -> Seq<u8> {
        seq![ch]
    }

    open spec fn comma_text(&self, first: bool) -> Seq<u8> {
        if first {
            Seq::empty()
        } else {
            seq![44u8]
        }
    }

    open spec fn colon_text(&self) -> Seq<u8> {
        seq![58u8]
    }

    open spec fn close_text(&self, ch: u8) -> Seq<u8> {
        seq![ch]
    }

    proof fn lemma_open_then_close(&self) {
    }

    fn open(&mut self, writer: &mut Vec<u8>, ch: u8) {
        writer.push(ch);
    }

    fn comma(&mut self, writer: &mut Vec<u8>, first: bool) {
        if first {
            assert(writer@ =~= old(writer)@ + Seq::<u8>::empty());
        } else {
            writer.push(44);
        }
    }

    fn colon(&mut self, writer: &mut Vec<u8>) {
        writer.push(58);
    }

    fn close(&mut self, writer: &mut Vec<u8>, ch: u8) {
        writer.push(ch);
    }
}

/// The formatter that puts each element on a line of its own, indented by one
/// unit for each collection around it.
pub struct PrettyFormatter<'a> {
    current_indent: usize,
    indent: &'a [u8],
}

impl<'a> PrettyFormatter<'a> {
    /// The number of collections entered and not left.
    pub closed spec fn depth(&self) -> nat {
        self.current_indent as nat
    }

    /// The bytes of one indentation.
    pub closed spec fn unit(&self) -> Seq<u8> {
        self.indent@
    }

    /// The formatter that indents by two spaces and has entered no collection.
    pub open spec fn spec_new() -> PrettyFormatter<'static> {
        choose|formatter: PrettyFormatter<'static>|
            formatter.depth() == 0 && formatter.unit() == seq![32u8, 32u8]
    }

    /// A formatter that indents by two spaces.
    pub fn new() -> (formatter: PrettyFormatter<'static>)
        ensures
            formatter == Self::spec_new(),
            formatter.depth() == 0,
            formatter.unit() == seq![32u8, 32u8],
    {
        let unit: &'static [u8; 2] = &[32u8, 32u8];
        let formatter = PrettyFormatter::with_indent(unit.as_slice());
        assert(formatter.unit() =~= seq![32u8, 32u8]);
        proof {
            formatter.lemma_same(&Self::spec_new());
        }
        formatter
    }

    /// There is a formatter that indents by two spaces and has entered no
    /// collection: the one that `new` makes.
    pub proof fn lemma_new_exists()
        ensures
            Self::spec_new().depth() == 0,
            Self::spec_new().unit() == seq![32u8, 32u8],
    {
        let unit: Seq<u8> = seq![32u8, 32u8];
        let held: [u8; 2] = [32u8, 32u8];
        let indent = vstd::array::spec_array_as_slice(&held);
        assert(indent@ =~= unit);
        let formatter = PrettyFormatter { current_indent: 0, indent: indent };
        assert(formatter.depth() == 0 && formatter.unit() == unit);
    }

    /// Whether this formatter can enter every collection of `value`: whether
    /// its count of them stays below the greatest `usize`.
    pub fn admits(&self, value: &Value) -> (ok: bool)
        ensures
            ok == fits(value@, *self),
    {
        admits_at(value, self.current_indent, Ghost(*self))
    }

    /// Two formatters of one depth and one unit are the same formatter.
    pub proof fn lemma_same(&self, other: &Self)
        requires
            self.depth() == other.depth(),
            self.unit() == other.unit(),
        ensures
            *self == *other,
    {
        assert(self.indent =~= other.indent);
    }

    /// A formatter that indents by `indent`.
    pub fn with_indent(indent: &'a [u8]) -> (formatter: Self)
        ensures
            formatter.depth() == 0,
            formatter.unit() == indent@,
    {
        PrettyFormatter { current_indent: 0, indent: indent }
    }

    /// Entering a collection adds one to the depth, leaving one takes one off,
    /// and neither changes the unit.
    pub proof fn lemma_depth(&self)
        ensures
            self.can_open() <==> self.depth() < usize::MAX,
            self.can_close() <==> self.depth() > 0,
            self.can_open() ==> self.opened().depth() == self.depth() + 1,
            self.can_close() ==> self.closed().depth() == self.depth() - 1,
            self.opened().unit() == self.unit(),
            self.closed().unit() == self.unit(),
    {
    }
}

impl<'a> Formatter for PrettyFormatter<'a> {
    closed spec fn can_open(&self) -> bool {
        self.current_indent < usize::MAX
    }

    closed spec fn can_close(&self) -> bool {
        self.current_indent > 0
    }

    closed spec fn opened(&self) -> Self {
        PrettyFormatter { current_indent: (self.current_indent + 1) as usize, indent: self.indent }
    }

    closed spec fn closed(&self) -> Self {
        PrettyFormatter { current_indent: (self.current_indent - 1) as usize, indent: self.indent }
    }

    open spec fn open_text(&self, ch: u8) -> Seq<u8> {
        seq![ch]
    }

    open spec fn comma_text(&self, first: bool) -> Seq<u8> {
        (if first {
            seq![10u8]
        } else {
            seq![44u8, 10u8]
        }) + repeated(self.unit(), self.depth())
    }

    open spec fn colon_text(&self) -> Seq<u8> {
        seq![58u8, 32u8]
    }

    open spec fn close_text(&self, ch: u8) -> Seq<u8> {
        seq![10u8] + repeated(self.unit(), (self.depth() - 1) as nat) + seq![ch]
    }

    proof fn lemma_open_then_close(&self) {
    }

    fn open(&mut self, writer: &mut Vec<u8>, ch: u8) {
        self.current_indent += 1;
        writer.push(ch);
    }

    fn comma(&mut self, writer: &mut Vec<u8>, first: bool) {
        if first {
            writer.push(10);
        } else {
            writer.push(44);
            writer.push(10);
        }
        indent(writer, self.current_indent, self.indent);
        assert(writer@ =~= old(writer)@ + self.comma_text(first));
    }

    fn colon(&mut self, writer: &mut Vec<u8>) {
        writer.push(58);
        writer.push(32);
        assert(writer@ =~= old(writer)@ + self.colon_text());
    }

    fn close(&mut self, writer: &mut Vec<u8>, ch: u8) {
        self.current_indent -= 1;
        writer.push(10);
        indent(writer, self.current_indent, self.indent);
        writer.push(ch);
        assert(writer@ =~= old(writer)@ + old(self).close_text(ch));
    }
}

/// Writes `s` to `wr`, `n` times.
pub fn indent(wr: &mut Vec<u8>, n: usize, s: &[u8])
    ensures
        final(wr)@ == old(wr)@ + repeated(s@, n as nat),
{
    let mut i: usize = 0;
    while i < n
        invariant
            i <= n,
            wr@ == old(wr)@ + repeated(s@, i as nat),
        decreases n - i,
    {
        push_bytes(wr, s);
        i += 1;
        assert(wr@ =~= old(wr)@ + repeated(s@, i as nat));
    }
}

/// The token of the unit value and of an absent optional value: `()`.
pub open spec fn unit_text() -> Seq<u8> {
    seq![40u8, 41u8]
}

/// The token of a truth value: `true` or `false`.
pub open spec fn bool_text(b: bool) -> Seq<u8> {
    if b {
        seq![116u8, 114u8, 117u8, 101u8]
    } else {
        seq![102u8, 97u8, 108u8, 115u8, 101u8]
    }
}

/// The two delimiters of an empty sequence: `[]`.
pub open spec fn empty_sequence_text() -> Seq<u8> {
    seq![91u8, 93u8]
}

/// The two delimiters of an empty mapping: `{}`.
pub open spec fn empty_mapping_text() -> Seq<u8> {
    seq![123u8, 125u8]
}

/// The character that delimits the name of a variant that carries nothing.
pub open spec fn variant_marker() -> char {
    '\u{b6}'
}

/// `body` between two copies of the character `escape`.
pub open spec fn escaped(body: Seq<u8>, escape: char) -> Seq<u8> {
    char_bytes(escape) + body + char_bytes(escape)
}

/// The text of the first `upto` of `items`, each after what `comma` writes
/// before it.
pub open spec fn elements_encoding<F: Formatter>(items: Seq<ValueView>, f: F, upto: int) -> Seq<u8>
    decreases items, upto,
{
    if 0 < upto <= items.len() {
        elements_encoding(items, f, upto - 1) + f.comma_text(upto == 1) + encoding(
            items[upto - 1],
            f,
        )
    } else {
        Seq::empty()
    }
}

/// The text of the first `upto` of `entries`: each after what `comma` writes
/// before it, the key and the value with what `colon` writes between them.
pub open spec fn entries_encoding<F: Formatter>(
    entries: Seq<(ValueView, ValueView)>,
    f: F,
    upto: int,
) -> Seq<u8>
    decreases entries, upto,
{
    if 0 < upto <= entries.len() {
        entries_encoding(entries, f, upto - 1) + f.comma_text(upto == 1) + encoding(
            entries[upto - 1].0,
            f,
        ) + f.colon_text() + encoding(entries[upto - 1].1, f)
    } else {
        Seq::empty()
    }
}

/// The text of a sequence: `[]` where it is empty, else its elements between
/// what `open` and `close` write for `[` and `]`.
pub open spec fn sequence_encoding<F: Formatter>(items: Seq<ValueView>, f: F) -> Seq<u8>
    decreases items, items.len() + 1,
{
    if items.len() == 0 {
        empty_sequence_text()
    } else {
        f.open_text(91) + elements_encoding(items, f.opened(), items.len() as int)
            + f.opened().close_text(93)
    }
}

/// The text of a mapping: `{}` where it is empty, else its entries between
/// what `open` and `close` write for `{` and `}`.
pub open spec fn mapping_encoding<F: Formatter>(entries: Seq<(ValueView, ValueView)>, f: F) -> Seq<
    u8,
>
    decreases entries, entries.len() + 1,
{
    if entries.len() == 0 {
        empty_mapping_text()
    } else {
        f.open_text(123) + entries_encoding(entries, f.opened(), entries.len() as int)
            + f.opened().close_text(125)
    }
}

/// The text of a variant that carries `payload`, already written with the
/// formatter `f.opened()`: a mapping of one entry, from the variant's quoted name
/// to the payload.
pub open spec fn tagged_encoding<F: Formatter>(variant: Seq<char>, payload: Seq<u8>, f: F) -> Seq<
    u8,
> {
    f.open_text(123) + f.opened().comma_text(true) + escaped(encode_utf8(variant), '"')
        + f.opened().colon_text() + payload + f.opened().close_text(125)
}

/// The text of the value `v`, written with the formatter `f`.
pub open spec fn encoding<F: Formatter>(v: ValueView, f: F) -> Seq<u8>
    decreases v,
{
    match v {
        ValueView::Unit => unit_text(),
        ValueView::Bool(b) => bool_text(b),
        ValueView::Int(_, n) => decimal(n),
        ValueView::Float(_, text) => encode_utf8(text),
        ValueView::Char(c) => escaped(char_bytes(c), '\''),
        ValueView::Str(text) => escaped(encode_utf8(text), '"'),
        ValueView::Optional(None) => unit_text(),
        ValueView::Optional(Some(inner)) => encoding(*inner, f),
        ValueView::Sequence(items) => sequence_encoding(items, f),
        ValueView::Mapping(entries) => mapping_encoding(entries, f),
        ValueView::Variant(_, variant, payload) => match payload {
            PayloadView::Unit => escaped(encode_utf8(variant), variant_marker()),
            PayloadView::Sequence(items) => tagged_encoding(
                variant,
                sequence_encoding(items, f.opened()),
                f,
            ),
            PayloadView::Mapping(entries) => tagged_encoding(
                variant,
                mapping_encoding(entries, f.opened()),
                f,
            ),
        },
    }
}

/// Whether the formatter `f` can enter the collections of the sequence `items`.
pub open spec fn sequence_fits<F: Formatter>(items: Seq<ValueView>, f: F) -> bool
    decreases items,
{
    items.len() > 0 ==> f.can_open() && forall|i: int|
        0 <= i < items.len() ==> fits(#[trigger] items[i], f.opened())
}

/// Whether the formatter `f` can enter the collections of the mapping `entries`.
pub open spec fn mapping_fits<F: Formatter>(entries: Seq<(ValueView, ValueView)>, f: F) -> bool
    decreases entries,
{
    entries.len() > 0 ==> f.can_open() && forall|i: int|
        0 <= i < entries.len() ==> fits((#[trigger] entries[i]).0, f.opened()) && fits(
            entries[i].1,
            f.opened(),
        )
}

/// Whether the formatter `f` can enter every collection of the value `v`, one
/// inside the other as they are nested.
pub open spec fn fits<F: Formatter>(v: ValueView, f: F) -> bool
    decreases v,
{
    match v {
        ValueView::Optional(Some(inner)) => fits(*inner, f),
        ValueView::Sequence(items) => sequence_fits(items, f),
        ValueView::Mapping(entries) => mapping_fits(entries, f),
        ValueView::Variant(_, _, payload) => match payload {
            PayloadView::Unit => true,
            PayloadView::Sequence(items) => f.can_open() && sequence_fits(items, f.opened()),
            PayloadView::Mapping(entries) => f.can_open() && mapping_fits(entries, f.opened()),
        },
        _ => true,
    }
}

/// Whether writing the value `v` enters a collection.
pub open spec fn enters_scope(v: ValueView) -> bool
    decreases v,
{
    match v {
        ValueView::Optional(Some(inner)) => enters_scope(*inner),
        ValueView::Sequence(items) => items.len() > 0,
        ValueView::Mapping(entries) => entries.len() > 0,
        ValueView::Variant(_, _, PayloadView::Sequence(items)) => items.len() > 0,
        ValueView::Variant(_, _, PayloadView::Mapping(entries)) => entries.len() > 0,
        _ => false,
    }
}

/// The entry of a mapping with the given key and value.
pub open spec fn entry_of(key: &Value, value: &Value) -> (Value, Value) {
    (*key, *value)
}

/// Writes values as notation text into a byte buffer, with the punctuation of
/// one formatter.
pub struct Encoder<F> {
    writer: Vec<u8>,
    formatter: F,
    first_line: bool,
}

impl Encoder<CompactFormatter> {
    /// An encoder that appends compact text to `writer`.
    pub fn new(writer: Vec<u8>) -> (encoder: Self)
        ensures
            encoder.output() == writer@,
            encoder.formatter() == CompactFormatter,
            !encoder.first(),
    {
        Encoder::with_formatter(writer, CompactFormatter)
    }
}

impl Encoder<PrettyFormatter<'static>> {
    /// An encoder that appends text indented by two spaces to `writer`.
    pub fn pretty(writer: Vec<u8>) -> (encoder: Self)
        ensures
            encoder.output() == writer@,
            encoder.formatter() == PrettyFormatter::spec_new(),
            !encoder.first(),
    {
        Encoder::with_formatter(writer, PrettyFormatter::new())
    }
}

impl<F> Encoder<F> {
    /// The bytes written so far, after those that the buffer held at first.
    pub closed spec fn output(&self) -> Seq<u8> {
        self.writer@
    }

    /// The formatter in its present state.
    pub closed spec fn formatter(&self) -> F {
        self.formatter
    }

    /// Whether the next element is the first of its collection.
    pub closed spec fn first(&self) -> bool {
        self.first_line
    }

    /// Whether this encoder is `before` after it wrote `bytes`, with the
    /// formatter as it was.
    pub open spec fn wrote(&self, before: &Self, bytes: Seq<u8>) -> bool {
        &&& self.output() == before.output() + bytes
        &&& self.formatter() == before.formatter()
    }

    /// The buffer with all that was written.
    pub fn into_inner(self) -> (writer: Vec<u8>)
        ensures
            writer@ == self.output(),
    {
        self.writer
    }
}

impl<F: Formatter> Encoder<F> {
    /// An encoder that appends text to `writer` with the punctuation of
    /// `formatter`.
    pub fn with_formatter(writer: Vec<u8>, formatter: F) -> (encoder: Encoder<F>)
        ensures
            encoder.output() == writer@,
            encoder.formatter() == formatter,
            !encoder.first(),
    {
        Encoder { writer: writer, formatter: formatter, first_line: false }
    }

    /// Writes the text `v` as it is.
    pub fn emit_constant(&mut self, v: &[u8])
        ensures
            final(self).wrote(old(self), v@),
            final(self).first() == old(self).first(),
    {
        push_bytes(&mut self.writer, v);
    }

    /// Writes the text `v` between two copies of the character `escape`.
    pub fn emit_escape(&mut self, v: &[u8], escape: char)
        ensures
            final(self).wrote(old(self), escaped(v@, escape)),
            final(self).first() == old(self).first(),
    {
        push_char(&mut self.writer, escape);
        push_bytes(&mut self.writer, v);
        push_char(&mut self.writer, escape);
        assert(self.writer@ =~= old(self).writer@ + escaped(v@, escape));
    }

    /// Writes a number that is not negative, in decimal.
    fn emit_unsigned(&mut self, v: u64)
        ensures
            final(self).wrote(old(self), decimal(v as int)),
            final(self).first() == old(self).first(),
    {
        let text = decimal_text(false, v);
        self.emit_constant(text.as_slice());
    }

    /// Writes a number in decimal, with a minus sign where it is negative.
    fn emit_signed(&mut self, v: i64)
        ensures
            final(self).wrote(old(self), decimal(v as int)),
            final(self).first() == old(self).first(),
    {
        let text = if v < 0 {
            let magnitude: u64 = (-(v + 1)) as u64 + 1;
            decimal_text(true, magnitude)
        } else {
            decimal_text(false, v as u64)
        };
        self.emit_constant(text.as_slice());
    }

    /// Writes a truth value: `true` or `false`.
    pub fn visit_bool(&mut self, v: bool)
        ensures
            final(self).wrote(old(self), bool_text(v)),
            final(self).first() == old(self).first(),
    {
        if v {
            let text: [u8; 4] = [116, 114, 117, 101];
            assert(text@ =~= bool_text(true));
            self.emit_constant(text.as_slice());
        } else {
            let text: [u8; 5] = [102, 97, 108, 115, 101];
            assert(text@ =~= bool_text(false));
            self.emit_constant(text.as_slice());
        }
    }

    /// Writes a number in decimal.
    pub fn visit_usize(&mut self, v: usize)
        ensures
            final(self).wrote(old(self), decimal(v as int)),
            final(self).first() == old(self).first(),
    {
        self.emit_unsigned(v as u64)
    }

    /// Writes a number in decimal.
    pub fn visit_u64(&mut self, v: u64)
        ensures
            final(self).wrote(old(self), decimal(v as int)),
            final(self).first() == old(self).first(),
    {
        self.emit_unsigned(v)
    }

    /// Writes a number in decimal.
    pub fn visit_u32(&mut self, v: u32)
        ensures
            final(self).wrote(old(self), decimal(v as int)),
            final(self).first() == old(self).first(),
    {
        self.emit_unsigned(v as u64)
    }

    /// Writes a number in decimal.
    pub fn visit_u16(&mut self, v: u16)
        ensures
            final(self).wrote(old(self), decimal(v as int)),
            final(self).first() == old(self).first(),
    {
        self.emit_unsigned(v as u64)
    }

    /// Writes a number in decimal.
    pub fn visit_u8(&mut self, v: u8)
        ensures
            final(self).wrote(old(self), decimal(v as int)),
            final(self).first() == old(self).first(),
    {
        self.emit_unsigned(v as u64)
    }

    /// Writes a number in decimal, with a minus sign where it is negative.
    pub fn visit_isize(&mut self, v: isize)
        ensures
            final(self).wrote(old(self), decimal(v as int)),
            final(self).first() == old(self).first(),
    {
        self.emit_signed(v as i64)
    }

    /// Writes a number in decimal, with a minus sign where it is negative.
    pub fn visit_i64(&mut self, v: i64)
        ensures
            final(self).wrote(old(self), decimal(v as int)),
            final(self).first() == old(self).first(),
    {
        self.emit_signed(v)
    }

    /// Writes a number in decimal, with a minus sign where it is negative.
    pub fn visit_i32(&mut self, v: i32)
        ensures
            final(self).wrote(old(self), decimal(v as int)),
            final(self).first() == old(self).first(),
    {
        self.emit_signed(v as i64)
    }

    /// Writes a number in decimal, with a minus sign where it is negative.
    pub fn visit_i16(&mut self, v: i16)
        ensures
            final(self).wrote(old(self), decimal(v as int)),
            final(self).first() == old(self).first(),
    {
        self.emit_signed(v as i64)
    }

    /// Writes a number in decimal, with a minus sign where it is negative.
    pub fn visit_i8(&mut self, v: i8)
        ensures
            final(self).wrote(old(self), decimal(v as int)),
            final(self).first() == old(self).first(),
    {
        self.emit_signed(v as i64)
    }

    /// Writes a floating-point number of double width, given as its decimal
    /// text.
    pub fn visit_f64(&mut self, v: &str)
        ensures
            final(self).wrote(old(self), encode_utf8(v@)),
            final(self).first() == old(self).first(),
    {
        self.emit_constant(v.as_bytes())
    }

    /// Writes a floating-point number of single width, given as its decimal
    /// text.
    pub fn visit_f32(&mut self, v: &str)
        ensures
            final(self).wrote(old(self), encode_utf8(v@)),
            final(self).first() == old(self).first(),
    {
        self.emit_constant(v.as_bytes())
    }

    /// Writes a character between single quotes, as it is.
    pub fn visit_char(&mut self, v: char)
        ensures
            final(self).wrote(old(self), escaped(char_bytes(v), '\'')),
            final(self).first() == old(self).first(),
    {
        let mut text: Vec<u8> = Vec::new();
        push_char(&mut text, v);
        assert(text@ =~= char_bytes(v));
        self.emit_escape(text.as_slice(), '\'')
    }

    /// Writes a text between double quotes, as it is.
    pub fn visit_str(&mut self, v: &str)
        ensures
            final(self).wrote(old(self), escaped(encode_utf8(v@), '"')),
            final(self).first() == old(self).first(),
    {
        self.emit_escape(v.as_bytes(), '"')
    }

    /// Writes the unit value: `()`.
    pub fn visit_unit(&mut self)
        ensures
            final(self).wrote(old(self), unit_text()),
            final(self).first() == old(self).first(),
    {
        let text: [u8; 2] = [40, 41];
        assert(text@ =~= unit_text());
        self.emit_constant(text.as_slice())
    }

    /// Writes an absent optional value, as the unit value.
    pub fn visit_none(&mut self)
        ensures
            final(self).wrote(old(self), unit_text()),
            final(self).first() == old(self).first(),
    {
        self.visit_unit()
    }

    /// Writes a present optional value, as the value itself.
    pub fn visit_some(&mut self, value: &Value)
        requires
            fits(value@, old(self).formatter()),
        ensures
            final(self).wrote(old(self), encoding(value@, old(self).formatter())),
            final(self).first() == (old(self).first() && !enters_scope(value@)),
        decreases value, 1nat,
    {
        value.serialize(self)
    }

    /// Writes a variant that carries nothing: its name between two markers.
    pub fn visit_enum_unit(&mut self, _name: &str, variant: &str)
        ensures
            final(self).wrote(old(self), escaped(encode_utf8(variant@), variant_marker())),
            final(self).first() == old(self).first(),
    {
        self.emit_escape(variant.as_bytes(), '\u{b6}')
    }

    /// Writes a sequence.
    pub fn visit_seq(&mut self, items: &Vec<Value>)
        requires
            sequence_fits(models(items@), old(self).formatter()),
        ensures
            final(self).wrote(
                old(self),
                sequence_encoding(models(items@), old(self).formatter()),
            ),
            final(self).first() == (old(self).first() && items@.len() == 0),
        decreases items, 0nat,
    {
        if items.len() == 0 {
            let text: [u8; 2] = [91, 93];
            assert(text@ =~= empty_sequence_text());
            self.emit_constant(text.as_slice());
        } else {
            let ghost f = self.formatter;
            let ghost all = models(items@);
            self.formatter.open(&mut self.writer, 91);
            self.first_line = true;
            let mut i: usize = 0;
            while i < items.len()
                invariant
                    i <= items.len(),
                    all == models(items@),
                    self.formatter == f.opened(),
                    self.first_line == (i == 0),
                    self.writer@ == old(self).writer@ + f.open_text(91) + elements_encoding(
                        all,
                        f.opened(),
                        i as int,
                    ),
                    forall|j: int| 0 <= j < all.len() ==> fits(#[trigger] all[j], f.opened()),
                decreases items.len() - i,
            {
                assert(all[i as int] == items[i as int]@);
                self.visit_seq_elt(&items[i]);
                i += 1;
                assert(self.writer@ =~= old(self).writer@ + f.open_text(91) + elements_encoding(
                    all,
                    f.opened(),
                    i as int,
                ));
            }
            proof {
                f.lemma_open_then_close();
            }
            self.formatter.close(&mut self.writer, 93);
            assert(self.writer@ =~= old(self).writer@ + sequence_encoding(all, f));
        }
    }

    /// Writes a variant that carries a sequence: a mapping of one entry, from
    /// the variant's name to the sequence.
    pub fn visit_enum_seq(&mut self, _name: &str, variant: &str, items: &Vec<Value>)
        requires
            old(self).formatter().can_open(),
            sequence_fits(models(items@), old(self).formatter().opened()),
        ensures
            final(self).wrote(
                old(self),
                tagged_encoding(
                    variant@,
                    sequence_encoding(models(items@), old(self).formatter().opened()),
                    old(self).formatter(),
                ),
            ),
            final(self).first() == (old(self).first() && items@.len() == 0),
        decreases items, 1nat,
    {
        let ghost f = self.formatter;
        self.formatter.open(&mut self.writer, 123);
        self.formatter.comma(&mut self.writer, true);
        self.visit_str(variant);
        self.formatter.colon(&mut self.writer);
        self.visit_seq(items);
        proof {
            f.lemma_open_then_close();
        }
        self.formatter.close(&mut self.writer, 125);
        assert(self.writer@ =~= old(self).writer@ + tagged_encoding(
            variant@,
            sequence_encoding(models(items@), f.opened()),
            f,
        ));
    }

    /// Writes one element of a sequence, after what separates it from what
    /// stands before it.
    pub fn visit_seq_elt(&mut self, value: &Value)
        requires
            fits(value@, old(self).formatter()),
        ensures
            final(self).wrote(
                old(self),
                old(self).formatter().comma_text(old(self).first()) + encoding(
                    value@,
                    old(self).formatter(),
                ),
            ),
            !final(self).first(),
        decreases value, 1nat,
    {
        self.formatter.comma(&mut self.writer, self.first_line);
        self.first_line = false;
        value.serialize(self);
        assert(self.writer@ =~= old(self).writer@ + (old(self).formatter.comma_text(
            old(self).first_line,
        ) + encoding(value@, old(self).formatter)));
    }

    /// Writes a mapping.
    pub fn visit_map(&mut self, entries: &Vec<(Value, Value)>)
        requires
            mapping_fits(entry_models(entries@), old(self).formatter()),
        ensures
            final(self).wrote(
                old(self),
                mapping_encoding(entry_models(entries@), old(self).formatter()),
            ),
            final(self).first() == (old(self).first() && entries@.len() == 0),
        decreases entries, 0nat,
    {
        if entries.len() == 0 {
            let text: [u8; 2] = [123, 125];
            assert(text@ =~= empty_mapping_text());
            self.emit_constant(text.as_slice());
        } else {
            let ghost f = self.formatter;
            let ghost all = entry_models(entries@);
            self.formatter.open(&mut self.writer, 123);
            self.first_line = true;
            let mut i: usize = 0;
            while i < entries.len()
                invariant
                    i <= entries.len(),
                    all == entry_models(entries@),
                    self.formatter == f.opened(),
                    self.first_line == (i == 0),
                    self.writer@ == old(self).writer@ + f.open_text(123) + entries_encoding(
                        all,
                        f.opened(),
                        i as int,
                    ),
                    forall|j: int|
                        0 <= j < all.len() ==> fits((#[trigger] all[j]).0, f.opened()) && fits(
                            all[j].1,
                            f.opened(),
                        ),
                decreases entries.len() - i,
            {
                assert(all[i as int] == (entries[i as int].0@, entries[i as int].1@));
                self.visit_map_elt(&entries[i].0, &entries[i].1);
                i += 1;
                assert(self.writer@ =~= old(self).writer@ + f.open_text(123) + entries_encoding(
                    all,
                    f.opened(),
                    i as int,
                ));
            }
            proof {
                f.lemma_open_then_close();
            }
            self.formatter.close(&mut self.writer, 125);
            assert(self.writer@ =~= old(self).writer@ + mapping_encoding(all, f));
        }
    }

    /// Writes a variant that carries a mapping: a mapping of one entry, from
    /// the variant's name to the mapping.
    pub fn visit_enum_map(&mut self, _name: &str, variant: &str, entries: &Vec<(Value, Value)>)
        requires
            old(self).formatter().can_open(),
            mapping_fits(entry_models(entries@), old(self).formatter().opened()),
        ensures
            final(self).wrote(
                old(self),
                tagged_encoding(
                    variant@,
                    mapping_encoding(entry_models(entries@), old(self).formatter().opened()),
                    old(self).formatter(),
                ),
            ),
            final(self).first() == (old(self).first() && entries@.len() == 0),
        decreases entries, 1nat,
    {
        let ghost f = self.formatter;
        self.formatter.open(&mut self.writer, 123);
        self.formatter.comma(&mut self.writer, true);
        self.visit_str(variant);
        self.formatter.colon(&mut self.writer);
        self.visit_map(entries);
        proof {
            f.lemma_open_then_close();
        }
        self.formatter.close(&mut self.writer, 125);
        assert(self.writer@ =~= old(self).writer@ + tagged_encoding(
            variant@,
            mapping_encoding(entry_models(entries@), f.opened()),
            f,
        ));
    }

    /// Writes one entry of a mapping, after what separates it from what stands
    /// before it: the key, what `colon` writes, and the value.
    pub fn visit_map_elt(&mut self, key: &Value, value: &Value)
        requires
            fits(key@, old(self).formatter()),
            fits(value@, old(self).formatter()),
        ensures
            final(self).wrote(
                old(self),
                old(self).formatter().comma_text(old(self).first()) + encoding(
                    key@,
                    old(self).formatter(),
                ) + old(self).formatter().colon_text() + encoding(value@, old(self).formatter()),
            ),
            !final(self).first(),
        decreases entry_of(key, value), 0nat,
    {
        self.formatter.comma(&mut self.writer, self.first_line);
        self.first_line = false;
        proof {
            let entry = entry_of(key, value);
            assert(decreases_to!(entry => entry.0));
            assert(decreases_to!(entry => entry.1));
        }
        key.serialize(self);
        self.formatter.colon(&mut self.writer);
        value.serialize(self);
        assert(self.writer@ =~= old(self).writer@ + (old(self).formatter.comma_text(
            old(self).first_line,
        ) + encoding(key@, old(self).formatter) + old(self).formatter.colon_text() + encoding(
            value@,
            old(self).formatter,
        )));
    }

    /// The name of the notation.
    pub fn format() -> (name: &'static str)
        ensures
            name@ == "ron"@,
    {
        "ron"
    }
}

impl Value {
    /// Writes this value with `encoder`.
    pub fn serialize<F: Formatter>(&self, encoder: &mut Encoder<F>)
        requires
            fits(self@, old(encoder).formatter()),
        ensures
            final(encoder).wrote(old(encoder), encoding(self@, old(encoder).formatter())),
            final(encoder).first() == (old(encoder).first() && !enters_scope(self@)),
        decreases self, 0nat,
    {
        proof {
            self.lemma_model_of_lists();
        }
        match self {
            Value::Unit => encoder.visit_unit(),
            Value::Bool(v) => encoder.visit_bool(*v),
            Value::U8(v) => encoder.visit_u8(*v),
            Value::U16(v) => encoder.visit_u16(*v),
            Value::U32(v) => encoder.visit_u32(*v),
            Value::U64(v) => encoder.visit_u64(*v),
            Value::Usize(v) => encoder.visit_usize(*v),
            Value::I8(v) => encoder.visit_i8(*v),
            Value::I16(v) => encoder.visit_i16(*v),
            Value::I32(v) => encoder.visit_i32(*v),
            Value::I64(v) => encoder.visit_i64(*v),
            Value::Isize(v) => encoder.visit_isize(*v),
            Value::F32(text) => encoder.visit_f32(text.as_str()),
            Value::F64(text) => encoder.visit_f64(text.as_str()),
            Value::Char(v) => encoder.visit_char(*v),
            Value::Str(text) => encoder.visit_str(text.as_str()),
            Value::Optional(None) => encoder.visit_none(),
            Value::Optional(Some(inner)) => encoder.visit_some(inner),
            Value::Sequence(items) => encoder.visit_seq(items),
            Value::Mapping(entries) => encoder.visit_map(entries),
            Value::Variant(name, variant, Payload::Unit) => encoder.visit_enum_unit(
                name.as_str(),
                variant.as_str(),
            ),
            Value::Variant(name, variant, Payload::Sequence(items)) => encoder.visit_enum_seq(
                name.as_str(),
                variant.as_str(),
                items,
            ),
            Value::Variant(name, variant, Payload::Mapping(entries)) => encoder.visit_enum_map(
                name.as_str(),
                variant.as_str(),
                entries,
            ),
        }
    }
}

/// Whether a pretty formatter that has entered `depth` collections can enter
/// every collection of `items`.
fn items_admitted<'a>(items: &Vec<Value>, depth: usize, Ghost(f): Ghost<PrettyFormatter<'a>>) -> (ok:
    bool)
    requires
        f.depth() == depth,
    ensures
        ok == sequence_fits(models(items@), f),
    decreases items, 0nat,
{
    proof {
        f.lemma_depth();
    }
    if items.len() == 0 {
        return true;
    }
    if depth == usize::MAX {
        return false;
    }
    let mut i: usize = 0;
    while i < items.len()
        invariant
            i <= items.len(),
            f.depth() == depth,
            depth < usize::MAX,
            f.opened().depth() == depth + 1,
            forall|j: int| 0 <= j < i ==> fits(#[trigger] models(items@)[j], f.opened()),
        decreases items.len() - i,
    {
        if !admits_at(&items[i], depth + 1, Ghost(f.opened())) {
            assert(!fits(models(items@)[i as int], f.opened()));
            return false;
        }
        i += 1;
    }
    true
}

/// Whether a pretty formatter that has entered `depth` collections can enter
/// every collection of `entries`.
fn entries_admitted<'a>(
    entries: &Vec<(Value, Value)>,
    depth: usize,
    Ghost(f): Ghost<PrettyFormatter<'a>>,
) -> (ok: bool)
    requires
        f.depth() == depth,
    ensures
        ok == mapping_fits(entry_models(entries@), f),
    decreases entries, 0nat,
{
    proof {
        f.lemma_depth();
    }
    if entries.len() == 0 {
        return true;
    }
    if depth == usize::MAX {
        return false;
    }
    let mut i: usize = 0;
    while i < entries.len()
        invariant
            i <= entries.len(),
            f.depth() == depth,
            depth < usize::MAX,
            f.opened().depth() == depth + 1,
            forall|j: int|
                0 <= j < i ==> fits((#[trigger] entry_models(entries@)[j]).0, f.opened()) && fits(
                    entry_models(entries@)[j].1,
                    f.opened(),
                ),
        decreases entries.len() - i,
    {
        proof {
            let pair = entries@[i as int];
            assert(decreases_to!(pair => pair.0));
            assert(decreases_to!(pair => pair.1));
        }
        if !admits_at(&entries[i].0, depth + 1, Ghost(f.opened())) {
            assert(!fits(entry_models(entries@)[i as int].0, f.opened()));
            return false;
        }
        if !admits_at(&entries[i].1, depth + 1, Ghost(f.opened())) {
            assert(!fits(entry_models(entries@)[i as int].1, f.opened()));
            return false;
        }
        i += 1;
    }
    true
}

/// Whether a pretty formatter that has entered `depth` collections can enter
/// every collection of `value`.
fn admits_at<'a>(value: &Value, depth: usize, Ghost(f): Ghost<PrettyFormatter<'a>>) -> (ok: bool)
    requires
        f.depth() == depth,
    ensures
        ok == fits(value@, f),
    decreases value, 1nat,
{
    proof {
        value.lemma_model_of_lists();
        f.lemma_depth();
    }
    match value {
        Value::Optional(Some(inner)) => admits_at(inner, depth, Ghost(f)),
        Value::Sequence(items) => items_admitted(items, depth, Ghost(f)),
        Value::Mapping(entries) => entries_admitted(entries, depth, Ghost(f)),
        Value::Variant(_, _, Payload::Sequence(items)) => {
            if depth == usize::MAX {
                false
            } else {
                items_admitted(items, depth + 1, Ghost(f.opened()))
            }
        },
        Value::Variant(_, _, Payload::Mapping(entries)) => {
            if depth == usize::MAX {
                false
            } else {
                entries_admitted(entries, depth + 1, Ghost(f.opened()))
            }
        },
        _ => true,
    }
}

/// The compact formatter can enter every collection of every sequence.
proof fn lemma_compact_sequence_fits(items: Seq<ValueView>)
    ensures
        sequence_fits(items, CompactFormatter),
    decreases items, 0nat,
{
    assert forall|i: int| 0 <= i < items.len() implies fits(
        #[trigger] items[i],
        CompactFormatter.opened(),
    ) by {
        lemma_compact_fits(items[i]);
    }
}

/// The compact formatter can enter every collection of every mapping.
proof fn lemma_compact_mapping_fits(entries: Seq<(ValueView, ValueView)>)
    ensures
        mapping_fits(entries, CompactFormatter),
    decreases entries, 0nat,
{
    assert forall|i: int| 0 <= i < entries.len() implies fits(
        (#[trigger] entries[i]).0,
        CompactFormatter.opened(),
    ) && fits(entries[i].1, CompactFormatter.opened()) by {
        lemma_compact_fits(entries[i].0);
        lemma_compact_fits(entries[i].1);
    }
}

/// The compact formatter can enter every collection of every value: it keeps
/// no count of them.
pub proof fn lemma_compact_fits(v: ValueView)
    ensures
        fits(v, CompactFormatter),
    decreases v, 1nat,
{
    match v {
        ValueView::Optional(Some(inner)) => lemma_compact_fits(*inner),
        ValueView::Sequence(items) => lemma_compact_sequence_fits(items),
        ValueView::Mapping(entries) => lemma_compact_mapping_fits(entries),
        ValueView::Variant(_, _, PayloadView::Sequence(items)) => lemma_compact_sequence_fits(
            items,
        ),
        ValueView::Variant(_, _, PayloadView::Mapping(entries)) => lemma_compact_mapping_fits(
            entries,
        ),
        _ => {},
    }
}

/// Writes `value` to `writer`, in compact form.
pub fn to_writer(writer: &mut Vec<u8>, value: &Value)
    ensures
        final(writer)@ == old(writer)@ + encoding(value@, CompactFormatter),
{
    let mut taken: Vec<u8> = Vec::new();
    std::mem::swap(writer, &mut taken);
    let mut encoder = Encoder::new(taken);
    proof {
        lemma_compact_fits(value@);
    }
    value.serialize(&mut encoder);
    *writer = encoder.into_inner();
}

/// Writes `value` to `writer`, one element to a line, indented by two spaces.
pub fn to_writer_pretty(writer: &mut Vec<u8>, value: &Value)
    requires
        fits(value@, PrettyFormatter::spec_new()),
    ensures
        final(writer)@ == old(writer)@ + encoding(value@, PrettyFormatter::spec_new()),
{
    let mut taken: Vec<u8> = Vec::new();
    std::mem::swap(writer, &mut taken);
    let mut encoder = Encoder::pretty(taken);
    value.serialize(&mut encoder);
    *writer = encoder.into_inner();
}

/// The compact text of `value`, as bytes.
pub fn to_vec(value: &Value) -> (bytes: Vec<u8>)
    ensures
        bytes@ == encoding(value@, CompactFormatter),
{
    let mut writer: Vec<u8> = Vec::with_capacity(128);
    to_writer(&mut writer, value);
    assert(writer@ =~= encoding(value@, CompactFormatter));
    writer
}

/// The indented text of `value`, as bytes.
pub fn to_vec_pretty(value: &Value) -> (bytes: Vec<u8>)
    requires
        fits(value@, PrettyFormatter::spec_new()),
    ensures
        bytes@ == encoding(value@, PrettyFormatter::spec_new()),
{
    let mut writer: Vec<u8> = Vec::with_capacity(128);
    to_writer_pretty(&mut writer, value);
    assert(writer@ =~= encoding(value@, PrettyFormatter::spec_new()));
    writer
}

/// The compact text of `value`. The text of a value is always UTF-8, so this
/// never fails.
pub fn to_string(value: &Value) -> (text: Result<String, std::string::FromUtf8Error>)
    ensures
        text matches Ok(held) && encode_utf8(held@) == encoding(value@, CompactFormatter),
{
    let vec = to_vec(value);
    proof {
        assert forall|levels: nat| plain(CompactFormatter, levels) by {
            lemma_compact_is_plain(levels);
        }
        lemma_encoding_is_text(value@, CompactFormatter);
    }
    text_of_bytes(vec)
}

/// The indented text of `value`. The text of a value is always UTF-8, so this
/// never fails.
pub fn to_string_pretty(value: &Value) -> (text: Result<String, std::string::FromUtf8Error>)
    requires
        fits(value@, PrettyFormatter::spec_new()),
    ensures
        text matches Ok(held) && encode_utf8(held@) == encoding(
            value@,
            PrettyFormatter::spec_new(),
        ),
{
    let vec = to_vec_pretty(value);
    proof {
        lemma_two_spaces();
        assert forall|levels: nat| plain(PrettyFormatter::spec_new(), levels) by {
            lemma_pretty_is_plain(PrettyFormatter::spec_new(), levels);
        }
        lemma_encoding_is_text(value@, PrettyFormatter::spec_new());
    }
    text_of_bytes(vec)
}

} // verus!
