//! ASCII decimal numbers, as RESP writes integers and lengths.

use crate::text::from_utf8;
use vstd::prelude::*;
use vstd::utf8::{
    decode_utf8, encode_utf8, encode_utf8_decode_utf8, encode_utf8_valid_utf8, is_ascii_chars,
    is_ascii_chars_encode_utf8, valid_utf8,
};

verus! {

/// Whether `b` is one of the ASCII digits `0` to `9`.
pub open spec fn is_digit(b: u8) -> bool {
    48 <= b <= 57
}

/// Whether every byte of `s` is an ASCII digit.
pub open spec fn all_digits(s: Seq<u8>) -> bool {
    forall|i: int| 0 <= i < s.len() ==> is_digit(#[trigger] s[i])
}

/// The number that the digits of `s` denote, most significant digit first.
pub open spec fn decimal_value(s: Seq<u8>) -> nat
    decreases s.len(),
{
    if s.len() == 0 {
        0
    } else {
        decimal_value(s.drop_last()) * 10 + (s.last() - 48) as nat
    }
}

/// What a line of text denotes as an unsigned 64-bit decimal: the line must
/// be non-empty, hold digits only, and its value must fit.
pub open spec fn parse_decimal(s: Seq<u8>) -> Option<u64> {
    if s.len() > 0 && all_digits(s) && decimal_value(s) <= u64::MAX {
        Some(decimal_value(s) as u64)
    } else {
        None
    }
}

/// Calls `atoi::atoi::<u64>`. On a text made of ASCII digits only the crate
/// reads all of it, and answers with the number unless the text is empty or
/// the number does not fit in 64 bits. Nothing is claimed of texts that hold
/// a sign or any other byte.
#[verifier::external_body]
fn atoi_u64(text: &[u8]) -> (r: Option<u64>)
    requires
        all_digits(text@),
    ensures
        r == parse_decimal(text@),
{
    atoi::atoi::<u64>(text)
}

/// Reads `text` as an unsigned 64-bit decimal number.
///
/// A text that is empty, holds anything but ASCII digits, or denotes a
/// number above `u64::MAX` is no number.
pub fn to_u64(text: &[u8]) -> (r: Option<u64>)
    ensures
        r == parse_decimal(text@),
{
    let mut i: usize = 0;
    while i < text.len()
        invariant
            i <= text.len(),
            forall|j: int| 0 <= j < i ==> is_digit(#[trigger] text@[j]),
        decreases text.len() - i,
    {
        let b = text[i];
        if b < 48 || b > 57 {
            return None;
        }
        i += 1;
    }
    atoi_u64(text)
}

/// The digits of `n` in decimal, most significant first, without leading
/// zeros.
pub open spec fn decimal_digits(n: nat) -> Seq<u8>
    decreases n,
{
    if n < 10 {
        seq![(48 + n) as u8]
    } else {
        decimal_digits(n / 10).push((48 + n % 10) as u8)
    }
}

/// The digits of a number are digits, at least one, and denote the number.
pub proof fn lemma_decimal_digits(n: nat)
    ensures
        decimal_digits(n).len() > 0,
        all_digits(decimal_digits(n)),
        decimal_value(decimal_digits(n)) == n,
    decreases n,
{
    if n < 10 {
        let d = decimal_digits(n);
        assert(d.drop_last() =~= Seq::<u8>::empty());
        assert(decimal_value(d.drop_last()) == 0);
    } else {
        lemma_decimal_digits(n / 10);
        let d = decimal_digits(n);
        assert(d.drop_last() =~= decimal_digits(n / 10));
    }
}

/// Reading the digits of a 64-bit number gives the number back.
pub proof fn lemma_digits_parse(v: u64)
    ensures
        parse_decimal(decimal_digits(v as nat)) == Some(v),
{
    lemma_decimal_digits(v as nat);
}

/// Appends the decimal digits of `val` to `dst`.
pub fn write_decimal(dst: &mut Vec<u8>, val: u64)
    ensures
        final(dst)@ == old(dst)@ + decimal_digits(val as nat),
    decreases val,
{
    if val >= 10 {
        write_decimal(dst, val / 10);
    }
    let digit: u8 = 48 + (val % 10) as u8;
    dst.push(digit);
    proof {
        if val < 10 {
            assert(old(dst)@.push(digit) =~= old(dst)@ + decimal_digits(val as nat));
        } else {
            assert((old(dst)@ + decimal_digits((val / 10) as nat)).push(digit) =~= old(dst)@
                + decimal_digits(val as nat));
        }
    }
}

/// The digits of `v` in decimal, as text.
pub open spec fn decimal_text(v: u64) -> Seq<char> {
    Seq::new(decimal_digits(v as nat).len(), |i: int| decimal_digits(v as nat)[i] as char)
}

/// The digits of a number are UTF-8, and the text they spell is the digits.
pub proof fn lemma_decimal_text(v: u64)
    ensures
        valid_utf8(decimal_digits(v as nat)),
        decode_utf8(decimal_digits(v as nat)) == decimal_text(v),
{
    let digits = decimal_digits(v as nat);
    let text = decimal_text(v);
    lemma_decimal_digits(v as nat);
    assert forall|i: int| 0 <= i < text.len() implies '\0' <= #[trigger] text[i] <= '\u{7f}' by {
        assert(is_digit(digits[i]));
    }
    assert(is_ascii_chars(text));
    is_ascii_chars_encode_utf8(text);
    assert(encode_utf8(text) =~= digits) by {
        assert forall|i: int| 0 <= i < digits.len() implies encode_utf8(text)[i] == digits[i] by {
            assert(text[i] as u8 == encode_utf8(text)[i]);
            assert(is_digit(digits[i]));
        }
    }
    encode_utf8_valid_utf8(text);
    encode_utf8_decode_utf8(text);
}

/// The digits of `v` in decimal, as text.
pub fn decimal_string(v: u64) -> (r: String)
    ensures
        r@ == decimal_text(v),
{
    let mut digits: Vec<u8> = Vec::new();
    write_decimal(&mut digits, v);
    proof {
        lemma_decimal_text(v);
        assert(digits@ =~= decimal_digits(v as nat));
    }
    match from_utf8(digits.as_slice()) {
        Some(text) => {
            proof {
                encode_utf8_decode_utf8(text@);
            }
            text.to_owned()
        },
        None => String::new(),
    }
}

} // verus!
