//! Formatters that write the delimiters of the notation with nothing but
//! whitespace around them, as the two formatters of this library do.

use vstd::prelude::*;
use vstd::utf8::*;
use crate::encode::{
    CompactFormatter,
    Formatter,
    PrettyFormatter,
    elements_encoding,
    encoding,
    entries_encoding,
    escaped,
    mapping_encoding,
    repeated,
    sequence_encoding,
    tagged_encoding,
    variant_marker,
};
use crate::grammar::{CLOSE_BRACE, CLOSE_BRACKET, COLON, COMMA, OPEN_BRACE, OPEN_BRACKET};
use crate::number::{digits, lemma_digits_are_digits};
use crate::reading::{is_blank_text, lemma_decimal_value};
use crate::text::{char_bytes, lemma_ascii_text, lemma_single_char_text};
use crate::value::{PayloadView, ValueView};

verus! {

/// Whether `text` is the byte `mark` with nothing but whitespace behind it.
pub open spec fn is_separator(text: Seq<u8>, mark: u8) -> bool {
    text.len() > 0 && text[0] == mark && is_blank_text(text.drop_first())
}

/// Whether `text` is the byte `mark` with nothing but whitespace before it.
pub open spec fn is_closing(text: Seq<u8>, mark: u8) -> bool {
    text.len() > 0 && text.last() == mark && is_blank_text(text.drop_last())
}

/// Whether the formatter `f`, as it is, writes the delimiters of the notation
/// with nothing but whitespace around them.
pub open spec fn plain_here<F: Formatter>(f: F) -> bool {
    &&& forall|ch: u8| #[trigger] f.open_text(ch) == seq![ch]
    &&& is_blank_text(f.comma_text(true))
    &&& is_separator(f.comma_text(false), COMMA)
    &&& is_separator(f.colon_text(), COLON)
    &&& forall|ch: u8| is_closing(#[trigger] f.close_text(ch), ch)
}

/// Whether the formatter `f` writes the delimiters with nothing but whitespace
/// around them, in up to `levels` collections inside one another.
pub open spec fn plain<F: Formatter>(f: F, levels: nat) -> bool
    decreases levels,
{
    plain_here(f) && (levels > 0 ==> plain(f.opened(), (levels - 1) as nat))
}

/// Whether the formatter `f` writes the delimiters with nothing but whitespace
/// around them, however deep the collections are nested.
pub open spec fn always_plain<F: Formatter>(f: F) -> bool {
    forall|levels: nat| plain(f, levels)
}

/// A formatter that is plain however deep is plain as it is, and stays so
/// when it enters a collection.
pub proof fn lemma_plain_step<F: Formatter>(f: F)
    requires
        always_plain(f),
    ensures
        plain_here(f),
        always_plain(f.opened()),
{
    assert(plain(f, 0));
    assert forall|levels: nat| plain(f.opened(), levels) by {
        assert(plain(f, levels + 1));
    }
}

/// The compact formatter is plain however deep.
pub proof fn lemma_compact_is_plain(levels: nat)
    ensures
        plain(CompactFormatter, levels),
    decreases levels,
{
    let f = CompactFormatter;
    assert(is_blank_text(f.comma_text(true)));
    assert(f.comma_text(false).drop_first() =~= Seq::<u8>::empty());
    assert(f.colon_text().drop_first() =~= Seq::<u8>::empty());
    assert forall|ch: u8| is_closing(#[trigger] f.close_text(ch), ch) by {
        assert(f.close_text(ch).drop_last() =~= Seq::<u8>::empty());
    }
    if levels > 0 {
        lemma_compact_is_plain((levels - 1) as nat);
    }
}

/// Whitespace written some number of times is whitespace.
pub proof fn lemma_repeated_blank(unit: Seq<u8>, n: nat)
    requires
        is_blank_text(unit),
    ensures
        is_blank_text(repeated(unit, n)),
    decreases n,
{
    if n > 0 {
        lemma_repeated_blank(unit, (n - 1) as nat);
    }
}

/// A pretty formatter whose unit of indentation is whitespace is plain however
/// deep.
pub proof fn lemma_pretty_is_plain(f: PrettyFormatter, levels: nat)
    requires
        is_blank_text(f.unit()),
    ensures
        plain(f, levels),
    decreases levels,
{
    lemma_repeated_blank(f.unit(), f.depth());
    lemma_repeated_blank(f.unit(), (f.depth() - 1) as nat);
    let indent = repeated(f.unit(), f.depth());
    let outdent = repeated(f.unit(), (f.depth() - 1) as nat);
    assert(is_blank_text(f.comma_text(true))) by {
        assert(f.comma_text(true) =~= seq![10u8] + indent);
    }
    assert(is_separator(f.comma_text(false), COMMA)) by {
        assert(f.comma_text(false).drop_first() =~= seq![10u8] + indent);
    }
    assert(is_separator(f.colon_text(), COLON)) by {
        assert(f.colon_text().drop_first() =~= seq![32u8]);
    }
    assert forall|ch: u8| is_closing(#[trigger] f.close_text(ch), ch) by {
        assert(f.close_text(ch).drop_last() =~= seq![10u8] + outdent);
    }
    if levels > 0 {
        f.lemma_depth();
        lemma_pretty_is_plain(f.opened(), (levels - 1) as nat);
    }
}

/// The formatter that indents by two spaces exists, and two spaces are
/// whitespace.
pub proof fn lemma_two_spaces()
    ensures
        PrettyFormatter::spec_new().depth() == 0,
        PrettyFormatter::spec_new().unit() == seq![32u8, 32u8],
        is_blank_text(PrettyFormatter::spec_new().unit()),
{
    PrettyFormatter::lemma_new_exists();
}

/// A separator, what closes a collection, and whitespace are UTF-8.
pub proof fn lemma_punctuation_is_text<F: Formatter>(f: F)
    requires
        plain_here(f),
    ensures
        valid_utf8(f.open_text(OPEN_BRACKET)),
        valid_utf8(f.open_text(OPEN_BRACE)),
        valid_utf8(f.comma_text(true)),
        valid_utf8(f.comma_text(false)),
        valid_utf8(f.colon_text()),
        valid_utf8(f.close_text(CLOSE_BRACKET)),
        valid_utf8(f.close_text(CLOSE_BRACE)),
{
    lemma_ascii_text(f.open_text(OPEN_BRACKET));
    lemma_ascii_text(f.open_text(OPEN_BRACE));
    lemma_ascii_text(f.comma_text(true));
    let comma = f.comma_text(false);
    assert forall|i: int| 0 <= i < comma.len() implies #[trigger] comma[i] < 128 by {
        if i > 0 {
            assert(comma.drop_first()[i - 1] == comma[i]);
        }
    }
    lemma_ascii_text(comma);
    let colon = f.colon_text();
    assert forall|i: int| 0 <= i < colon.len() implies #[trigger] colon[i] < 128 by {
        if i > 0 {
            assert(colon.drop_first()[i - 1] == colon[i]);
        }
    }
    lemma_ascii_text(colon);
    let bracket = f.close_text(CLOSE_BRACKET);
    assert forall|i: int| 0 <= i < bracket.len() implies #[trigger] bracket[i] < 128 by {
        if i < bracket.len() - 1 {
            assert(bracket.drop_last()[i] == bracket[i]);
        }
    }
    lemma_ascii_text(bracket);
    let brace = f.close_text(CLOSE_BRACE);
    assert forall|i: int| 0 <= i < brace.len() implies #[trigger] brace[i] < 128 by {
        if i < brace.len() - 1 {
            assert(brace.drop_last()[i] == brace[i]);
        }
    }
    lemma_ascii_text(brace);
}

/// The text that a plain formatter writes for the first elements of a
/// sequence is UTF-8.
pub proof fn lemma_elements_are_text<F: Formatter>(items: Seq<ValueView>, f: F, upto: int)
    requires
        always_plain(f),
    ensures
        valid_utf8(elements_encoding(items, f, upto)),
    decreases items, upto,
{
    lemma_plain_step(f);
    lemma_punctuation_is_text(f);
    if 0 < upto <= items.len() {
        lemma_elements_are_text(items, f, upto - 1);
        lemma_encoding_is_text(items[upto - 1], f);
        valid_utf8_concat(elements_encoding(items, f, upto - 1), f.comma_text(upto == 1));
        valid_utf8_concat(
            elements_encoding(items, f, upto - 1) + f.comma_text(upto == 1),
            encoding(items[upto - 1], f),
        );
    }
}

/// The text that a plain formatter writes for the first entries of a mapping
/// is UTF-8.
pub proof fn lemma_entries_are_text<F: Formatter>(
    entries: Seq<(ValueView, ValueView)>,
    f: F,
    upto: int,
)
    requires
        always_plain(f),
    ensures
        valid_utf8(entries_encoding(entries, f, upto)),
    decreases entries, upto,
{
    lemma_plain_step(f);
    lemma_punctuation_is_text(f);
    if 0 < upto <= entries.len() {
        let before = entries_encoding(entries, f, upto - 1);
        let gap = f.comma_text(upto == 1);
        let key = encoding(entries[upto - 1].0, f);
        let colon = f.colon_text();
        let value = encoding(entries[upto - 1].1, f);
        lemma_entries_are_text(entries, f, upto - 1);
        lemma_encoding_is_text(entries[upto - 1].0, f);
        lemma_encoding_is_text(entries[upto - 1].1, f);
        valid_utf8_concat(before, gap);
        valid_utf8_concat(before + gap, key);
        valid_utf8_concat(before + gap + key, colon);
        valid_utf8_concat(before + gap + key + colon, value);
    }
}

/// The text that a plain formatter writes for a sequence is UTF-8.
pub proof fn lemma_sequence_is_text<F: Formatter>(items: Seq<ValueView>, f: F)
    requires
        always_plain(f),
    ensures
        valid_utf8(sequence_encoding(items, f)),
    decreases items, items.len() + 1,
{
    lemma_plain_step(f);
    lemma_punctuation_is_text(f);
    if items.len() == 0 {
        lemma_ascii_text(sequence_encoding(items, f));
    } else {
        let inner = f.opened();
        lemma_plain_step(inner);
        lemma_punctuation_is_text(inner);
        lemma_elements_are_text(items, inner, items.len() as int);
        let body = elements_encoding(items, inner, items.len() as int);
        valid_utf8_concat(f.open_text(OPEN_BRACKET), body);
        valid_utf8_concat(f.open_text(OPEN_BRACKET) + body, inner.close_text(CLOSE_BRACKET));
    }
}

/// The text that a plain formatter writes for a mapping is UTF-8.
pub proof fn lemma_mapping_is_text<F: Formatter>(entries: Seq<(ValueView, ValueView)>, f: F)
    requires
        always_plain(f),
    ensures
        valid_utf8(mapping_encoding(entries, f)),
    decreases entries, entries.len() + 1,
{
    lemma_plain_step(f);
    lemma_punctuation_is_text(f);
    if entries.len() == 0 {
        lemma_ascii_text(mapping_encoding(entries, f));
    } else {
        let inner = f.opened();
        lemma_plain_step(inner);
        lemma_punctuation_is_text(inner);
        lemma_entries_are_text(entries, inner, entries.len() as int);
        let body = entries_encoding(entries, inner, entries.len() as int);
        valid_utf8_concat(f.open_text(OPEN_BRACE), body);
        valid_utf8_concat(f.open_text(OPEN_BRACE) + body, inner.close_text(CLOSE_BRACE));
    }
}

/// A text between two copies of a character is UTF-8 if the text is.
pub proof fn lemma_escaped_is_text(body: Seq<u8>, escape: char)
    requires
        valid_utf8(body),
    ensures
        valid_utf8(escaped(body, escape)),
{
    lemma_single_char_text(escape);
    encode_utf8_valid_utf8(seq![escape]);
    valid_utf8_concat(char_bytes(escape), body);
    valid_utf8_concat(char_bytes(escape) + body, char_bytes(escape));
}

/// The text that a plain formatter writes for a value is UTF-8.
pub proof fn lemma_encoding_is_text<F: Formatter>(v: ValueView, f: F)
    requires
        always_plain(f),
    ensures
        valid_utf8(encoding(v, f)),
    decreases v, 0nat,
{
    lemma_plain_step(f);
    lemma_plain_step(f.opened());
    lemma_punctuation_is_text(f);
    lemma_punctuation_is_text(f.opened());
    match v {
        ValueView::Unit => {
            lemma_ascii_text(encoding(v, f));
        },
        ValueView::Bool(_) => {
            lemma_ascii_text(encoding(v, f));
        },
        ValueView::Int(_, n) => {
            lemma_decimal_value(n);
            if n < 0 {
                lemma_digits_are_digits((-n) as nat);
                let run = digits((-n) as nat);
                let text = encoding(v, f);
                assert forall|i: int| 0 <= i < text.len() implies #[trigger] text[i] < 128 by {
                    if i > 0 {
                        assert(text[i] == run[i - 1]);
                    }
                }
            } else {
                lemma_digits_are_digits(n as nat);
            }
            lemma_ascii_text(encoding(v, f));
        },
        ValueView::Float(_, text) => {
            encode_utf8_valid_utf8(text);
        },
        ValueView::Char(c) => {
            lemma_single_char_text(c);
            encode_utf8_valid_utf8(seq![c]);
            lemma_escaped_is_text(char_bytes(c), '\'');
        },
        ValueView::Str(text) => {
            encode_utf8_valid_utf8(text);
            lemma_escaped_is_text(encode_utf8(text), '"');
        },
        ValueView::Optional(None) => {
            lemma_ascii_text(encoding(v, f));
        },
        ValueView::Optional(Some(inner)) => {
            lemma_encoding_is_text(*inner, f);
        },
        ValueView::Sequence(items) => {
            lemma_sequence_is_text(items, f);
        },
        ValueView::Mapping(entries) => {
            lemma_mapping_is_text(entries, f);
        },
        ValueView::Variant(_, variant, payload) => {
            encode_utf8_valid_utf8(variant);
            let inner = f.opened();
            match payload {
                PayloadView::Unit => {
                    lemma_escaped_is_text(encode_utf8(variant), variant_marker());
                },
                PayloadView::Sequence(items) => {
                    lemma_sequence_is_text(items, inner);
                    lemma_tagged_is_text(variant, sequence_encoding(items, inner), f);
                },
                PayloadView::Mapping(entries) => {
                    lemma_mapping_is_text(entries, inner);
                    lemma_tagged_is_text(variant, mapping_encoding(entries, inner), f);
                },
            }
        },
    }
}

/// The text that a plain formatter writes for a variant that carries
/// something is UTF-8 if the text of what it carries is.
pub proof fn lemma_tagged_is_text<F: Formatter>(variant: Seq<char>, payload: Seq<u8>, f: F)
    requires
        plain_here(f),
        plain_here(f.opened()),
        valid_utf8(payload),
    ensures
        valid_utf8(tagged_encoding(variant, payload, f)),
{
    let inner = f.opened();
    lemma_punctuation_is_text(f);
    lemma_punctuation_is_text(inner);
    encode_utf8_valid_utf8(variant);
    lemma_escaped_is_text(encode_utf8(variant), '"');
    let opening = f.open_text(OPEN_BRACE);
    let gap = inner.comma_text(true);
    let quoted = escaped(encode_utf8(variant), '"');
    let colon = inner.colon_text();
    let closing = inner.close_text(CLOSE_BRACE);
    valid_utf8_concat(opening, gap);
    valid_utf8_concat(opening + gap, quoted);
    valid_utf8_concat(opening + gap + quoted, colon);
    valid_utf8_concat(opening + gap + quoted + colon, payload);
    valid_utf8_concat(opening + gap + quoted + colon + payload, closing);
}

} // verus!
