//! Building text, and numbers in it.

use vstd::prelude::*;
use vstd::utf8::encode_utf8_decode_utf8;

use crate::order::same_bytes;

verus! {

/// `String::push` puts the character at the end of the text.
pub assume_specification[ String::push ](text: &mut String, c: char)
    ensures
        final(text)@ == old(text)@.push(c),
;

/// `String::push_str` puts the whole of the other text at the end of this one.
pub assume_specification[ String::push_str ](text: &mut String, more: &str)
    ensures
        final(text)@ == old(text)@ + more@,
;

/// Whether two texts are the same.
pub fn same_text(a: &str, b: &str) -> (same: bool)
    ensures
        same == (a@ == b@),
{
    proof {
        encode_utf8_decode_utf8(a@);
        encode_utf8_decode_utf8(b@);
    }
    same_bytes(a.as_bytes(), b.as_bytes())
}

/// The character is a decimal digit.
pub open spec fn is_digit(c: char) -> bool {
    '0' <= c <= '9'
}

/// The number that decimal digits stand for.
pub open spec fn decimal_value(digits: Seq<char>) -> nat
    decreases digits.len(),
{
    if digits.len() == 0 {
        0
    } else {
        (decimal_value(digits.drop_last()) * 10 + (digits.last() as int - 48)) as nat
    }
}

/// A number in decimal digits, with none too many.
pub open spec fn decimal_text(number: nat) -> Seq<char>
    decreases number,
{
    let last = (48 + number % 10) as char;
    if number < 10 {
        seq![last]
    } else {
        decimal_text(number / 10).push(last)
    }
}

/// The digits of a number stand for it.
pub proof fn law_decimal_reads_back(number: nat)
    ensures
        decimal_text(number).len() > 0,
        forall|i: int|
            0 <= i < decimal_text(number).len() ==> is_digit(#[trigger] decimal_text(number)[i]),
        decimal_value(decimal_text(number)) == number,
    decreases number,
{
    let last = (48 + number % 10) as char;
    if number < 10 {
        assert(seq![last].drop_last() =~= Seq::<char>::empty());
        assert(decimal_value(seq![last]) == number) by {
            reveal_with_fuel(decimal_value, 2);
        }
    } else {
        law_decimal_reads_back(number / 10);
        assert(decimal_text(number).drop_last() =~= decimal_text(number / 10));
    }
}

/// More digits do not make a number smaller.
pub proof fn lemma_decimal_grows(digits: Seq<char>, count: int)
    requires
        0 <= count <= digits.len(),
        forall|i: int| 0 <= i < digits.len() ==> is_digit(#[trigger] digits[i]),
    ensures
        decimal_value(digits.take(count)) <= decimal_value(digits),
    decreases digits.len() - count,
{
    if count < digits.len() {
        lemma_decimal_grows(digits, count + 1);
        let longer = digits.take(count + 1);
        assert(longer.drop_last() =~= digits.take(count));
        assert(longer.last() == digits[count]);
    } else {
        assert(digits.take(count) =~= digits);
    }
}

/// Puts a number in decimal digits at the end of `text`.
pub fn push_decimal(text: &mut String, number: usize)
    ensures
        final(text)@ == old(text)@ + decimal_text(number as nat),
    decreases number,
{
    let ghost before = text@;
    if number >= 10 {
        push_decimal(text, number / 10);
    }
    let digit: u8 = (number % 10) as u8;
    text.push((48 + digit) as char);
    assert(text@ =~= before + decimal_text(number as nat));
}

/// A number in decimal digits.
pub fn decimal(number: usize) -> (text: String)
    ensures
        text@ == decimal_text(number as nat),
{
    let mut text = String::new();
    push_decimal(&mut text, number);
    assert(text@ =~= decimal_text(number as nat));
    text
}

} // verus!
