//! UTF-8 text as bytes.

use vstd::prelude::*;
use vstd::utf8::*;
use crate::number::ascii_chars;

verus! {

/// The UTF-8 bytes of one character.
pub open spec fn char_bytes(c: char) -> Seq<u8> {
    encode_scalar(c as u32)
}

/// The UTF-8 bytes of a text of one character are the bytes of the character.
pub proof fn lemma_single_char_text(c: char)
    ensures
        encode_utf8(seq![c]) == char_bytes(c),
{
    let text = seq![c];
    assert(text.drop_first() =~= Seq::<char>::empty());
    reveal_with_fuel(encode_utf8, 2);
    assert(encode_utf8(text) =~= encode_scalar(text[0] as u32) + encode_utf8(text.drop_first()));
    assert(encode_utf8(text) =~= char_bytes(c));
}

/// Appends the UTF-8 bytes of `c` to `out`.
pub fn push_char(out: &mut Vec<u8>, c: char)
    ensures
        final(out)@ == old(out)@ + char_bytes(c),
{
    let scalar: u32 = c as u32;
    proof {
        char_is_scalar(c);
    }
    if scalar <= 0x7F {
        let b1: u8 = (scalar & 0x7F) as u8;
        out.push(b1);
        assert(final(out)@ =~= old(out)@ + char_bytes(c));
    } else if scalar <= 0x7FF {
        let b1: u8 = 0xC0 | ((scalar >> 6) & 0x1F) as u8;
        let b2: u8 = 0x80 | (scalar & 0x3F) as u8;
        out.push(b1);
        out.push(b2);
        assert(final(out)@ =~= old(out)@ + char_bytes(c));
    } else if scalar <= 0xFFFF {
        let b1: u8 = 0xE0 | ((scalar >> 12) & 0x0F) as u8;
        let b2: u8 = 0x80 | ((scalar >> 6) & 0x3F) as u8;
        let b3: u8 = 0x80 | (scalar & 0x3F) as u8;
        out.push(b1);
        out.push(b2);
        out.push(b3);
        assert(final(out)@ =~= old(out)@ + char_bytes(c));
    } else {
        let b1: u8 = 0xF0 | ((scalar >> 18) & 0x7) as u8;
        let b2: u8 = 0x80 | ((scalar >> 12) & 0x3F) as u8;
        let b3: u8 = 0x80 | ((scalar >> 6) & 0x3F) as u8;
        let b4: u8 = 0x80 | (scalar & 0x3F) as u8;
        out.push(b1);
        out.push(b2);
        out.push(b3);
        out.push(b4);
        assert(final(out)@ =~= old(out)@ + char_bytes(c));
    }
}

/// Appends `bytes` to `out`.
pub fn push_bytes(out: &mut Vec<u8>, bytes: &[u8])
    ensures
        final(out)@ == old(out)@ + bytes@,
{
    let mut i: usize = 0;
    while i < bytes.len()
        invariant
            i <= bytes.len(),
            out@ == old(out)@ + bytes@.subrange(0, i as int),
        decreases bytes.len() - i,
    {
        out.push(bytes[i]);
        i += 1;
        assert(out@ =~= old(out)@ + bytes@.subrange(0, i as int));
    }
    assert(bytes@.subrange(0, i as int) =~= bytes@);
}

/// `std::string::FromUtf8Error`: why a byte buffer is not UTF-8 text. Nothing
/// is known of what it holds.
#[verifier::external_type_specification]
#[verifier::external_body]
pub struct ExFromUtf8Error(std::string::FromUtf8Error);

/// Turns a byte buffer into the text that it holds.
///
/// Wraps `String::from_utf8`, which succeeds exactly on the buffers that are
/// UTF-8, and whose text then has the buffer's bytes.
#[verifier::external_body]
pub(crate) fn text_of_bytes(bytes: Vec<u8>) -> (text: Result<String, std::string::FromUtf8Error>)
    ensures
        text is Ok <==> valid_utf8(bytes@),
        text matches Ok(held) ==> encode_utf8(held@) == bytes@,
{
    String::from_utf8(bytes)
}

/// `char::from_u32` gives the character of a number that is a Unicode scalar
/// value, and nothing for one that is none: a surrogate, or a number above the
/// last code point.
pub assume_specification[ char::from_u32 ](i: u32) -> (c: Option<char>)
    ensures
        c == (if is_scalar(i) {
            Some(i as char)
        } else {
            None::<char>
        }),
;

/// A text of ASCII bytes is UTF-8, and its characters are its bytes.
pub proof fn lemma_ascii_text(bytes: Seq<u8>)
    requires
        forall|i: int| 0 <= i < bytes.len() ==> #[trigger] bytes[i] < 128,
    ensures
        valid_utf8(bytes),
        encode_utf8(ascii_chars(bytes)) == bytes,
        decode_utf8(bytes) == ascii_chars(bytes),
{
    let chars = ascii_chars(bytes);
    assert(is_ascii_chars(chars));
    is_ascii_chars_encode_utf8(chars);
    assert(encode_utf8(chars) =~= bytes) by {
        assert forall|i: int| 0 <= i < bytes.len() implies encode_utf8(chars)[i] == bytes[i] by {
            assert(chars[i] as u8 == encode_utf8(chars)[i]);
            assert(chars[i] == bytes[i] as char);
        }
    }
    encode_utf8_valid_utf8(chars);
    encode_utf8_decode_utf8(chars);
}

/// Whether two byte texts are the same.
pub fn bytes_equal(a: &[u8], b: &[u8]) -> (same: bool)
    ensures
        same == (a@ == b@),
{
    if a.len() != b.len() {
        return false;
    }
    let mut i: usize = 0;
    while i < a.len()
        invariant
            i <= a.len(),
            a.len() == b.len(),
            a@.subrange(0, i as int) == b@.subrange(0, i as int),
        decreases a.len() - i,
    {
        if a[i] != b[i] {
            assert(a@[i as int] != b@[i as int]);
            return false;
        }
        i += 1;
        assert(a@.subrange(0, i as int) =~= a@.subrange(0, i - 1).push(a@[i - 1]));
        assert(b@.subrange(0, i as int) =~= b@.subrange(0, i - 1).push(b@[i - 1]));
    }
    assert(a@ =~= a@.subrange(0, i as int));
    assert(b@ =~= b@.subrange(0, i as int));
    true
}

} // verus!
