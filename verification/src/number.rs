//! Decimal text of integers, as bytes and as characters.

use vstd::prelude::*;
use vstd::string::*;

verus! {

/// The ASCII digit that stands for `d`.
pub open spec fn digit_byte(d: int) -> u8
    recommends
        0 <= d < 10,
{
    (48 + d) as u8
}

/// The decimal digits of `n`, most significant first, without leading zeros.
pub open spec fn digits(n: nat) -> Seq<u8>
    decreases n,
{
    if n < 10 {
        seq![digit_byte(n as int)]
    } else {
        digits(n / 10).push(digit_byte((n % 10) as int))
    }
}

/// The decimal text of `n`: a minus sign for a negative number, then its digits.
pub open spec fn decimal(n: int) -> Seq<u8> {
    if n < 0 {
        seq![45u8] + digits((-n) as nat)
    } else {
        digits(n as nat)
    }
}

/// The characters of an ASCII byte sequence.
pub open spec fn ascii_chars(bytes: Seq<u8>) -> Seq<char> {
    Seq::new(bytes.len(), |i: int| bytes[i] as char)
}

/// Every byte of `digits(n)` is an ASCII digit, and there is at least one.
pub proof fn lemma_digits_are_digits(n: nat)
    ensures
        digits(n).len() >= 1,
        forall|i: int| 0 <= i < digits(n).len() ==> 48 <= #[trigger] digits(n)[i] <= 57,
    decreases n,
{
    if n >= 10 {
        lemma_digits_are_digits(n / 10);
    }
}

/// Appends the decimal digits of `n` to `out`.
pub fn push_digits(out: &mut Vec<u8>, n: u64)
    ensures
        final(out)@ == old(out)@ + digits(n as nat),
    decreases n,
{
    if n >= 10 {
        push_digits(out, n / 10);
    }
    let d: u8 = (n % 10) as u8;
    out.push(48 + d);
    assert(final(out)@ =~= old(out)@ + digits(n as nat));
}

/// Appends the decimal text of the number with the given sign and magnitude.
pub fn push_decimal(out: &mut Vec<u8>, negative: bool, magnitude: u64)
    requires
        negative ==> magnitude > 0,
    ensures
        final(out)@ == old(out)@ + decimal(if negative { -(magnitude as int) } else { magnitude as int }),
{
    if negative {
        out.push(45);
    }
    push_digits(out, magnitude);
    assert(final(out)@ =~= old(out)@ + decimal(if negative { -(magnitude as int) } else { magnitude as int }));
}

/// The decimal text of the number with the given sign and magnitude.
pub fn decimal_text(negative: bool, magnitude: u64) -> (text: Vec<u8>)
    requires
        negative ==> magnitude > 0,
    ensures
        text@ == decimal(if negative { -(magnitude as int) } else { magnitude as int }),
{
    let mut text: Vec<u8> = Vec::new();
    push_decimal(&mut text, negative, magnitude);
    assert(text@ =~= decimal(if negative { -(magnitude as int) } else { magnitude as int }));
    text
}

/// Appends the character of the decimal digit `d` to `text`.
fn push_digit_char(text: &mut String, d: u8)
    requires
        d < 10,
    ensures
        final(text)@ == old(text)@.push(digit_byte(d as int) as char),
{
    proof {
        reveal_strlit("0");
        reveal_strlit("1");
        reveal_strlit("2");
        reveal_strlit("3");
        reveal_strlit("4");
        reveal_strlit("5");
        reveal_strlit("6");
        reveal_strlit("7");
        reveal_strlit("8");
        reveal_strlit("9");
    }
    let digit: &str = match d {
        0 => "0",
        1 => "1",
        2 => "2",
        3 => "3",
        4 => "4",
        5 => "5",
        6 => "6",
        7 => "7",
        8 => "8",
        _ => "9",
    };
    text.append(digit);
    assert(final(text)@ =~= old(text)@.push(digit_byte(d as int) as char));
}

/// Appends the decimal digits of `n` to `text`, as characters.
pub fn push_decimal_text(text: &mut String, n: u64)
    ensures
        final(text)@ == old(text)@ + ascii_chars(digits(n as nat)),
    decreases n,
{
    if n >= 10 {
        push_decimal_text(text, n / 10);
    }
    push_digit_char(text, (n % 10) as u8);
    assert(final(text)@ =~= old(text)@ + ascii_chars(digits(n as nat)));
}

} // verus!
